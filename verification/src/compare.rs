//! Comparing what a device returned with the reference.
//!
//! An error is taken as the bit pattern of the magnitude of a 32-bit IEEE difference.
//! Such patterns are ordered as the magnitudes are, so the comparison needs integers
//! only. The pattern of a difference that is not a number lies above all others: a value
//! that is not a number matches no number.
use vstd::arithmetic::div_mod::{
    lemma_div_is_ordered, lemma_fundamental_div_mod, lemma_mod_bound,
};
use vstd::prelude::*;

verus! {

/// The pattern of infinity: the pattern of a magnitude above it is not that of a number.
pub const INFINITY_BITS: u32 = 0x7f80_0000;

/// The pattern of one thousandth: the error that is put up with.
pub const TOLERANCE_BITS: u32 = 0x3a83_126f;

/// The pattern of one.
pub const ONE_BITS: u32 = 0x3f80_0000;

/// How many diverging pixels a report lists.
pub const SHOWN: usize = 8;

/// The pattern of the magnitude of the number with the pattern `bits`.
pub open spec fn magnitude_key(bits: u32) -> u32 {
    (bits as int % 0x8000_0000) as u32
}

/// The pattern of the magnitude of the difference with the pattern `bits`.
pub fn error_key(bits: u32) -> (r: u32)
    ensures
        r == magnitude_key(bits),
        r < 0x8000_0000,
{
    let magnitude: u32 = bits & 0x7fff_ffff;
    assert(bits & 0x7fff_ffff == bits % 0x8000_0000) by (bit_vector);
    magnitude
}

/// The error of a value that came back, by its pattern, that of the reference and that of
/// their difference: none where it is the reference bit for bit (two equal infinities have
/// no number for a difference), else the magnitude of the difference.
pub open spec fn value_error(device: u32, reference: u32, difference: u32) -> u32 {
    if device == reference {
        0
    } else {
        magnitude_key(difference)
    }
}

/// The error of a value that came back.
pub fn value_error_key(device: u32, reference: u32, difference: u32) -> (r: u32)
    ensures
        r == value_error(device, reference, difference),
{
    if device == reference {
        0
    } else {
        error_key(difference)
    }
}

/// The offsets of the first `n` errors that are above `limit`, in order.
pub open spec fn diverging(errors: Seq<u32>, limit: u32, n: nat) -> Seq<int>
    decreases n,
{
    if n == 0 {
        Seq::empty()
    } else if errors[n - 1] > limit {
        diverging(errors, limit, (n - 1) as nat).push(n - 1)
    } else {
        diverging(errors, limit, (n - 1) as nat)
    }
}

/// `peak` is the first of the largest errors above `floor`: its key and its offset.
/// There is none where no error is above `floor`.
pub open spec fn is_peak(errors: Seq<u32>, floor: u32, peak: Option<(u32, usize)>) -> bool {
    match peak {
        None => forall|i: int| 0 <= i < errors.len() ==> #[trigger] errors[i] <= floor,
        Some((key, at)) => {
            &&& key > floor
            &&& at < errors.len()
            &&& errors[at as int] == key
            &&& forall|i: int| 0 <= i < errors.len() ==> #[trigger] errors[i] <= key
            &&& forall|i: int| 0 <= i < at ==> #[trigger] errors[i] != key
        },
    }
}

/// Errors have one peak above a floor, or none.
pub proof fn law_peak_is_unique(
    errors: Seq<u32>,
    floor: u32,
    a: Option<(u32, usize)>,
    b: Option<(u32, usize)>,
)
    requires
        is_peak(errors, floor, a),
        is_peak(errors, floor, b),
    ensures
        a == b,
{
    if let Some((key, at)) = a {
        assert(errors[at as int] > floor);
        if let Some((other_key, other_at)) = b {
            assert(errors[at as int] <= other_key);
            assert(errors[other_at as int] <= key);
            assert(key == other_key);
            if at < other_at {
                assert(errors[at as int] != other_key);
            }
            if other_at < at {
                assert(errors[other_at as int] != key);
            }
        }
    } else if let Some((other_key, other_at)) = b {
        assert(errors[other_at as int] > floor);
    }
}

/// The first of the largest errors above `floor`.
pub fn find_peak(errors: &Vec<u32>, floor: u32) -> (peak: Option<(u32, usize)>)
    ensures
        is_peak(errors@, floor, peak),
{
    let mut peak: Option<(u32, usize)> = None;
    let mut i: usize = 0;
    while i < errors.len()
        invariant
            i <= errors@.len(),
            is_peak(errors@.take(i as int), floor, peak),
        decreases errors@.len() - i,
    {
        let ghost before = peak;
        let limit: u32 = match peak {
            Some((key, _)) => key,
            None => floor,
        };
        let key: u32 = errors[i];
        if key > limit {
            peak = Some((key, i));
        }
        proof {
            let (a, b) = (errors@.take(i as int), errors@.take(i + 1));
            assert(b =~= a.push(errors@[i as int]));
            assert forall|j: int| 0 <= j < i implies #[trigger] b[j] == a[j] by {}
            if errors@[i as int] > limit {
                assert forall|j: int| 0 <= j < b.len() implies #[trigger] b[j]
                    <= errors@[i as int] by {
                    if j < i {
                        assert(a[j] <= limit);
                    }
                }
                assert forall|j: int| 0 <= j < i implies #[trigger] b[j] != errors@[i as int] by {
                    assert(a[j] <= limit);
                }
            }
        }
        i += 1;
    }
    proof {
        assert(errors@.take(errors@.len() as int) =~= errors@);
    }
    peak
}

/// How many errors are above `limit`.
pub fn count_diverging(errors: &Vec<u32>, limit: u32) -> (n: usize)
    ensures
        n == diverging(errors@, limit, errors@.len()).len(),
{
    let mut n: usize = 0;
    let mut i: usize = 0;
    while i < errors.len()
        invariant
            n <= i <= errors@.len(),
            n == diverging(errors@, limit, i as nat).len(),
        decreases errors@.len() - i,
    {
        if errors[i] > limit {
            n += 1;
        }
        i += 1;
    }
    n
}

/// The offsets of the first diverging pixels, [`SHOWN`] at most.
pub fn first_diverging(errors: &Vec<u32>, limit: u32) -> (shown: Vec<usize>)
    ensures
        shown@.len() == (if diverging(errors@, limit, errors@.len()).len() < SHOWN {
            diverging(errors@, limit, errors@.len()).len()
        } else {
            SHOWN as nat
        }),
        forall|k: int|
            0 <= k < shown@.len() ==> #[trigger] shown@[k] == diverging(
                errors@,
                limit,
                errors@.len(),
            )[k],
{
    let mut shown: Vec<usize> = Vec::new();
    let mut i: usize = 0;
    while i < errors.len()
        invariant
            i <= errors@.len(),
            shown@.len() < SHOWN,
            shown@.len() == diverging(errors@, limit, i as nat).len(),
            forall|k: int|
                0 <= k < shown@.len() ==> #[trigger] shown@[k] == diverging(
                    errors@,
                    limit,
                    i as nat,
                )[k],
        decreases errors@.len() - i,
    {
        if errors[i] > limit {
            shown.push(i);
            if shown.len() >= SHOWN {
                proof {
                    lemma_diverging_grows(errors@, limit, (i + 1) as nat, errors@.len());
                }
                return shown;
            }
        }
        i += 1;
    }
    shown
}

proof fn lemma_diverging_grows(errors: Seq<u32>, limit: u32, n: nat, m: nat)
    requires
        n <= m,
    ensures
        diverging(errors, limit, n).len() <= diverging(errors, limit, m).len(),
        forall|k: int|
            0 <= k < diverging(errors, limit, n).len() ==> #[trigger] diverging(errors, limit, m)[k]
                == diverging(errors, limit, n)[k],
    decreases m - n,
{
    if n < m {
        lemma_diverging_grows(errors, limit, n, (m - 1) as nat);
    }
}

/// What a comparison found.
#[derive(Clone, Copy, Debug, PartialEq, Eq, Structural)]
pub struct Comparison {
    /// The largest error, as a pattern; zero where there is none.
    pub max_err: u32,
    /// The offset of the first pixel with the largest error; zero where there is none.
    pub argmax: usize,
    /// How many errors are above the tolerance.
    pub n_div: usize,
}

impl Comparison {
    /// The comparison of `errors`.
    pub open spec fn is_of(self, errors: Seq<u32>) -> bool {
        &&& self.n_div == diverging(errors, TOLERANCE_BITS, errors.len()).len()
        &&& is_peak(
            errors,
            0,
            if self.max_err == 0 {
                None
            } else {
                Some((self.max_err, self.argmax))
            },
        )
        &&& self.max_err == 0 ==> self.argmax == 0
    }

    /// Whether every error is within the tolerance.
    pub fn pass(&self) -> (r: bool)
        ensures
            r == (self.max_err <= TOLERANCE_BITS),
    {
        self.max_err <= TOLERANCE_BITS
    }
}

/// Compares a map with its reference, by the errors of its pixels.
pub fn compare(errors: &Vec<u32>) -> (r: Comparison)
    ensures
        r.is_of(errors@),
{
    let n_div: usize = count_diverging(errors, TOLERANCE_BITS);
    match find_peak(errors, 0) {
        Some((key, at)) => Comparison { max_err: key, argmax: at, n_div },
        None => Comparison { max_err: 0, argmax: 0, n_div },
    }
}

/// A comparison passes exactly where no error is above the tolerance.
pub proof fn law_pass_means_none_diverging(c: Comparison, errors: Seq<u32>)
    requires
        c.is_of(errors),
    ensures
        c.max_err <= TOLERANCE_BITS <==> c.n_div == 0,
{
    lemma_diverging_empty(errors, TOLERANCE_BITS, errors.len());
    if c.max_err > TOLERANCE_BITS {
        assert(errors[c.argmax as int] > TOLERANCE_BITS);
    } else {
        assert forall|i: int| 0 <= i < errors.len() implies #[trigger] errors[i]
            <= TOLERANCE_BITS by {
            assert(errors[i] <= c.max_err);
        }
    }
}

proof fn lemma_diverging_empty(errors: Seq<u32>, limit: u32, n: nat)
    requires
        n <= errors.len(),
    ensures
        diverging(errors, limit, n).len() == 0 <==> forall|i: int|
            0 <= i < n ==> #[trigger] errors[i] <= limit,
    decreases n,
{
    if n > 0 {
        lemma_diverging_empty(errors, limit, (n - 1) as nat);
    }
}

/// The offsets that diverge are those of the errors above the limit, each once, in
/// order.
pub proof fn law_diverging_lists_errors_above(errors: Seq<u32>, limit: u32, n: nat)
    requires
        n <= errors.len(),
    ensures
        forall|k: int|
            0 <= k < diverging(errors, limit, n).len() ==> 0 <= #[trigger] diverging(
                errors,
                limit,
                n,
            )[k] < n && errors[diverging(errors, limit, n)[k]] > limit,
        forall|j: int, k: int|
            0 <= j < k < diverging(errors, limit, n).len() ==> #[trigger] diverging(
                errors,
                limit,
                n,
            )[j] < #[trigger] diverging(errors, limit, n)[k],
        forall|i: int|
            0 <= i < n && #[trigger] errors[i] > limit ==> diverging(
                errors,
                limit,
                n,
            ).contains(i),
    decreases n,
{
    if n > 0 {
        let m = (n - 1) as nat;
        law_diverging_lists_errors_above(errors, limit, m);
        let (shorter, longer) = (diverging(errors, limit, m), diverging(errors, limit, n));
        assert forall|i: int| 0 <= i < n && #[trigger] errors[i] > limit implies longer.contains(
            i,
        ) by {
            if i < m {
                let k = choose|k: int| 0 <= k < shorter.len() && shorter[k] == i;
                assert(longer[k] == i);
            } else {
                assert(longer[longer.len() - 1] == i);
            }
        }
    }
}

/// A difference and its negative count alike, and a difference that is not a number counts
/// as larger than any number, infinity included: no limit that a number can be puts up with
/// it.
pub proof fn law_key_ignores_sign_and_counts_nan(bits: u32, limit: u32)
    requires
        bits < 0x8000_0000,
    ensures
        magnitude_key(bits) == bits,
        magnitude_key((bits + 0x8000_0000) as u32) == bits,
        bits > INFINITY_BITS && limit <= INFINITY_BITS ==> magnitude_key(bits) > limit,
{
}

/// One value that is not a number where the reference is another value fails a comparison,
/// whatever the rest.
pub proof fn law_nan_fails(
    c: Comparison,
    errors: Seq<u32>,
    i: int,
    device: u32,
    reference: u32,
    difference: u32,
)
    requires
        c.is_of(errors),
        0 <= i < errors.len(),
        errors[i] == value_error(device, reference, difference),
        device != reference,
        magnitude_key(difference) > INFINITY_BITS,
    ensures
        c.max_err > TOLERANCE_BITS,
        c.n_div > 0,
{
    law_pass_means_none_diverging(c, errors);
    if c.max_err <= TOLERANCE_BITS {
        assert(errors[i] <= c.max_err);
    }
}

/// A map that is the reference bit for bit passes.
pub proof fn law_equal_maps_pass(c: Comparison, errors: Seq<u32>)
    requires
        c.is_of(errors),
        forall|i: int| 0 <= i < errors.len() ==> #[trigger] errors[i] == 0,
    ensures
        c.max_err == 0,
        c.n_div == 0,
        c.argmax == 0,
{
    if c.max_err != 0 {
        assert(errors[c.argmax as int] == 0);
    }
    law_pass_means_none_diverging(c, errors);
}

/// The error of a value that is not the reference is the difference without its sign, whatever
/// the two values are; only the reference itself, bit for bit, has none.
pub proof fn law_error_is_difference_without_sign(device: u32, reference: u32, difference: u32)
    ensures
        device == reference ==> value_error(device, reference, difference) == 0,
        device != reference && difference < 0x8000_0000 ==> value_error(
            device,
            reference,
            difference,
        ) == difference,
        device != reference && difference >= 0x8000_0000 ==> value_error(
            device,
            reference,
            difference,
        ) + 0x8000_0000 == difference,
{
}

/// A comparison passes exactly where every difference between unequal values, whatever the
/// reference's value, is a number of magnitude at most a thousandth: one whose pattern, without
/// the sign, is at most that of a thousandth.
pub proof fn law_pass_means_every_difference_is_small(
    c: Comparison,
    errors: Seq<u32>,
    device: Seq<u32>,
    reference: Seq<u32>,
    difference: Seq<u32>,
)
    requires
        c.is_of(errors),
        forall|i: int|
            0 <= i < errors.len() ==> #[trigger] errors[i] == value_error(
                device[i],
                reference[i],
                difference[i],
            ),
    ensures
        c.max_err <= TOLERANCE_BITS <==> forall|i: int|
            0 <= i < errors.len() && device[i] != reference[i] ==> (#[trigger] difference[i]) as int
                % 0x8000_0000 <= 0x3a83_126f,
        c.n_div == 0 <==> forall|i: int|
            0 <= i < errors.len() && device[i] != reference[i] ==> (#[trigger] difference[i]) as int
                % 0x8000_0000 <= 0x3a83_126f,
{
    law_pass_means_none_diverging(c, errors);
    if c.max_err <= TOLERANCE_BITS {
        assert forall|i: int| 0 <= i < errors.len() && device[i] != reference[i] implies (
        #[trigger] difference[i]) as int % 0x8000_0000 <= 0x3a83_126f by {
            assert(errors[i] <= c.max_err);
            law_error_is_difference_without_sign(device[i], reference[i], difference[i]);
        }
    } else {
        let i = c.argmax as int;
        assert(errors[i] == c.max_err);
        law_error_is_difference_without_sign(device[i], reference[i], difference[i]);
        assert(difference[i] as int % 0x8000_0000 > 0x3a83_126f);
    }
}

/// The largest error of a comparison is that of the pixel it names: no difference between
/// unequal values has a larger magnitude, and none before that pixel one as large.
pub proof fn law_comparison_names_largest_difference(
    c: Comparison,
    errors: Seq<u32>,
    device: Seq<u32>,
    reference: Seq<u32>,
    difference: Seq<u32>,
)
    requires
        c.is_of(errors),
        c.max_err > 0,
        forall|i: int|
            0 <= i < errors.len() ==> #[trigger] errors[i] == value_error(
                device[i],
                reference[i],
                difference[i],
            ),
    ensures
        c.argmax < errors.len(),
        device[c.argmax as int] != reference[c.argmax as int],
        difference[c.argmax as int] as int % 0x8000_0000 == c.max_err,
        forall|i: int|
            0 <= i < errors.len() && device[i] != reference[i] ==> (#[trigger] difference[i]) as int
                % 0x8000_0000 <= c.max_err,
        forall|i: int|
            0 <= i < c.argmax && device[i] != reference[i] ==> (#[trigger] difference[i]) as int
                % 0x8000_0000 < c.max_err,
        c.n_div == count_above(errors, 0x3a83_126f, errors.len()),
{
    law_diverging_are_counted(errors, errors.len());
    assert(errors[c.argmax as int] == c.max_err);
    law_error_is_difference_without_sign(
        device[c.argmax as int],
        reference[c.argmax as int],
        difference[c.argmax as int],
    );
    assert forall|i: int| 0 <= i < errors.len() && device[i] != reference[i] implies (
    #[trigger] difference[i]) as int % 0x8000_0000 <= c.max_err by {
        assert(errors[i] <= c.max_err);
    }
    assert forall|i: int| 0 <= i < c.argmax && device[i] != reference[i] implies (
    #[trigger] difference[i]) as int % 0x8000_0000 < c.max_err by {
        assert(errors[i] != c.max_err);
        assert(errors[i] <= c.max_err);
    }
}

/// The place that is kept for the worst error names its sample: the channel and the moment make
/// up the plane, and the channel, the row and the column make up the offset. A plane without an
/// error above the worst so far leaves the place alone.
pub proof fn law_worst_names_its_sample(
    was: PlaneWorst,
    now: PlaneWorst,
    scale: usize,
    moment: usize,
    pw: usize,
    pt: usize,
    errors: Seq<u32>,
)
    requires
        was.after(now, scale, moment, pw, pt, errors),
        0 < pw,
        0 < pt,
        moment < 4,
    ensures
        now.err >= was.err,
        forall|i: int| 0 <= i < errors.len() ==> #[trigger] errors[i] <= now.err,
        now.err > was.err ==> ({
            let channel = now.plane as int / 4;
            let at = channel * pt + now.y * pw + now.x;
            &&& now.scale == scale
            &&& now.plane as int % 4 == moment
            &&& now.x < pw
            &&& 0 <= now.y * pw + now.x < pt
            &&& 0 <= at < errors.len()
            &&& errors[at] == now.err
            &&& forall|i: int| 0 <= i < at ==> #[trigger] errors[i] < now.err
        }),
        now.err == was.err ==> now.scale == was.scale && now.plane == was.plane && now.x == was.x
            && now.y == was.y,
        now.n_div == was.n_div + count_above(errors, 0x3a83_126f, errors.len()),
{
    law_diverging_are_counted(errors, errors.len());
    let peak = choose|peak: Option<(u32, usize)>| #[trigger]
        is_peak(errors, was.err, peak) && (match peak {
            None => now.err == was.err && now.scale == was.scale && now.plane == was.plane && now.x
                == was.x && now.y == was.y,
            Some((key, at)) => now.err == key && now.scale == scale && now.plane == (at / pt) * 4
                + moment && now.x == (at % pt) % pw && now.y == (at % pt) / pw,
        });
    if let Some((key, at)) = peak {
        let (a, p, w) = (at as int, pt as int, pw as int);
        lemma_fundamental_div_mod(a, p);
        lemma_mod_bound(a, p);
        lemma_fundamental_div_mod(a % p, w);
        lemma_mod_bound(a % p, w);
        let (channel, local) = (a / p, a % p);
        assert(now.plane as int / 4 == channel);
        assert(channel * p == p * channel) by (nonlinear_arith);
        assert((local / w) * w == w * (local / w)) by (nonlinear_arith);
        assert(channel * pt + now.y * pw + now.x == a);
        assert forall|i: int| 0 <= i < a implies #[trigger] errors[i] < key by {
            assert(errors[i] != key);
            assert(errors[i] <= key);
        }
    }
}

/// How many errors of the first `n` are above `limit`, counted one by one.
pub open spec fn count_above(errors: Seq<u32>, limit: int, n: nat) -> nat
    decreases n,
{
    if n == 0 {
        0
    } else {
        count_above(errors, limit, (n - 1) as nat) + (if errors[n - 1] > limit {
            1nat
        } else {
            0
        })
    }
}

/// What counts as diverging is what is above a thousandth, in one comparison and over planes.
pub proof fn law_diverging_are_counted(errors: Seq<u32>, n: nat)
    ensures
        diverging(errors, TOLERANCE_BITS, n).len() == count_above(errors, 0x3a83_126f, n),
    decreases n,
{
    if n > 0 {
        law_diverging_are_counted(errors, (n - 1) as nat);
    }
}

/// The worst error over the moment planes of all the levels, and where it is.
#[derive(Clone, Copy, Debug, PartialEq, Eq, Structural)]
pub struct PlaneWorst {
    pub err: u32,
    pub scale: usize,
    /// Four times the channel, and the number of the moment.
    pub plane: usize,
    pub x: usize,
    pub y: usize,
    /// How many errors are above the tolerance.
    pub n_div: usize,
}

impl PlaneWorst {
    /// Before any plane has been looked at.
    pub fn new() -> (r: Self)
        ensures
            r == (PlaneWorst { err: 0, scale: 0, plane: 0, x: 0, y: 0, n_div: 0 }),
    {
        PlaneWorst { err: 0, scale: 0, plane: 0, x: 0, y: 0, n_div: 0 }
    }

    /// What is left after one plane more has been looked at: moment `moment` of level
    /// `scale`, `pw` wide, `pt` samples a channel. Only an error above the worst so far
    /// takes its place.
    pub open spec fn after(
        self,
        next: Self,
        scale: usize,
        moment: usize,
        pw: usize,
        pt: usize,
        errors: Seq<u32>,
    ) -> bool {
        &&& next.n_div == self.n_div + diverging(errors, TOLERANCE_BITS, errors.len()).len()
        &&& exists|peak: Option<(u32, usize)>| #[trigger]
            is_peak(errors, self.err, peak) && (match peak {
                None => next.err == self.err && next.scale == self.scale && next.plane == self.plane
                    && next.x == self.x && next.y == self.y,
                Some((key, at)) => next.err == key && next.scale == scale && next.plane == (at / pt)
                    * 4 + moment && next.x == (at % pt) % pw && next.y == (at % pt) / pw,
            })
    }

    /// Looks at one plane more.
    pub fn absorb(
        &mut self,
        scale: usize,
        moment: usize,
        pw: usize,
        pt: usize,
        errors: &Vec<u32>,
    )
        requires
            0 < pw,
            0 < pt,
            old(self).n_div + errors@.len() <= usize::MAX,
            (errors@.len() / pt as nat) * 4 + moment <= usize::MAX,
        ensures
            old(self).after(*final(self), scale, moment, pw, pt, errors@),
    {
        let n: usize = count_diverging(errors, TOLERANCE_BITS);
        proof {
            lemma_diverging_count(errors@, TOLERANCE_BITS, errors@.len());
        }
        self.n_div = self.n_div + n;
        let peak = find_peak(errors, self.err);
        if let Some((key, at)) = peak {
            proof {
                lemma_div_is_ordered(
                    at as int,
                    errors@.len() as int,
                    pt as int,
                );
            }
            let ch: usize = at / pt;
            let local: usize = at % pt;
            self.err = key;
            self.scale = scale;
            self.plane = ch * 4 + moment;
            self.x = local % pw;
            self.y = local / pw;
        }
        assert(is_peak(errors@, old(self).err, peak));
    }

    /// What is left after the four moment planes of level `scale` have been looked at, the
    /// means of the source and of the distorted image first, then the squares, then the
    /// products.
    pub open spec fn after_level(
        self,
        next: Self,
        scale: usize,
        pw: usize,
        pt: usize,
        mu1: Seq<u32>,
        mu2: Seq<u32>,
        ssq: Seq<u32>,
        s12: Seq<u32>,
    ) -> bool {
        exists|a: Self, b: Self, c: Self|
            self.after(a, scale, 0, pw, pt, mu1) && #[trigger] a.after(b, scale, 1, pw, pt, mu2)
                && #[trigger] b.after(c, scale, 2, pw, pt, ssq) && c.after(
                next,
                scale,
                3,
                pw,
                pt,
                s12,
            )
    }

    /// Looks at the four moment planes of a level.
    pub fn absorb_level(
        &mut self,
        scale: usize,
        pw: usize,
        pt: usize,
        mu1: &Vec<u32>,
        mu2: &Vec<u32>,
        ssq: &Vec<u32>,
        s12: &Vec<u32>,
    )
        requires
            0 < pw,
            0 < pt,
            old(self).n_div + mu1@.len() + mu2@.len() + ssq@.len() + s12@.len() <= usize::MAX,
            (mu1@.len() / pt as nat) * 4 + 3 <= usize::MAX,
            (mu2@.len() / pt as nat) * 4 + 3 <= usize::MAX,
            (ssq@.len() / pt as nat) * 4 + 3 <= usize::MAX,
            (s12@.len() / pt as nat) * 4 + 3 <= usize::MAX,
        ensures
            old(self).after_level(*final(self), scale, pw, pt, mu1@, mu2@, ssq@, s12@),
    {
        proof {
            lemma_diverging_count(mu1@, TOLERANCE_BITS, mu1@.len());
            lemma_diverging_count(mu2@, TOLERANCE_BITS, mu2@.len());
            lemma_diverging_count(ssq@, TOLERANCE_BITS, ssq@.len());
        }
        self.absorb(scale, 0, pw, pt, mu1);
        let ghost a = *self;
        self.absorb(scale, 1, pw, pt, mu2);
        let ghost b = *self;
        self.absorb(scale, 2, pw, pt, ssq);
        let ghost c = *self;
        self.absorb(scale, 3, pw, pt, s12);
        assert(old(self).after(a, scale, 0, pw, pt, mu1@) && a.after(b, scale, 1, pw, pt, mu2@)
            && b.after(c, scale, 2, pw, pt, ssq@) && c.after(*self, scale, 3, pw, pt, s12@));
    }

    /// Whether every error so far is within the tolerance.
    pub fn pass(&self) -> (r: bool)
        ensures
            r == (self.err <= TOLERANCE_BITS),
    {
        self.err <= TOLERANCE_BITS
    }
}

/// Of the four moment planes of a level, the place that is kept for a worse error names the
/// moment and the sample: the means of the source are number zero, those of the distorted image
/// one, the squares two and the products three.
pub proof fn law_worst_of_level_names_its_moment(
    was: PlaneWorst,
    now: PlaneWorst,
    scale: usize,
    pw: usize,
    pt: usize,
    mu1: Seq<u32>,
    mu2: Seq<u32>,
    ssq: Seq<u32>,
    s12: Seq<u32>,
)
    requires
        was.after_level(now, scale, pw, pt, mu1, mu2, ssq, s12),
        0 < pw,
        0 < pt,
    ensures
        now.err >= was.err,
        forall|i: int| 0 <= i < mu1.len() ==> #[trigger] mu1[i] <= now.err,
        forall|i: int| 0 <= i < mu2.len() ==> #[trigger] mu2[i] <= now.err,
        forall|i: int| 0 <= i < ssq.len() ==> #[trigger] ssq[i] <= now.err,
        forall|i: int| 0 <= i < s12.len() ==> #[trigger] s12[i] <= now.err,
        now.err > was.err ==> ({
            let moment = now.plane as int % 4;
            let errors = if moment == 0 {
                mu1
            } else if moment == 1 {
                mu2
            } else if moment == 2 {
                ssq
            } else {
                s12
            };
            let at = (now.plane as int / 4) * pt + now.y * pw + now.x;
            &&& now.scale == scale
            &&& 0 <= at < errors.len()
            &&& errors[at] == now.err
        }),
        now.n_div == was.n_div + count_above(mu1, 0x3a83_126f, mu1.len()) + count_above(
            mu2,
            0x3a83_126f,
            mu2.len(),
        ) + count_above(ssq, 0x3a83_126f, ssq.len()) + count_above(s12, 0x3a83_126f, s12.len()),
{
    let (a, b, c) = choose|a: PlaneWorst, b: PlaneWorst, c: PlaneWorst|
        was.after(a, scale, 0, pw, pt, mu1) && #[trigger] a.after(b, scale, 1, pw, pt, mu2)
            && #[trigger] b.after(c, scale, 2, pw, pt, ssq) && c.after(now, scale, 3, pw, pt, s12);
    law_worst_names_its_sample(was, a, scale, 0, pw, pt, mu1);
    law_worst_names_its_sample(a, b, scale, 1, pw, pt, mu2);
    law_worst_names_its_sample(b, c, scale, 2, pw, pt, ssq);
    law_worst_names_its_sample(c, now, scale, 3, pw, pt, s12);
    assert forall|i: int| 0 <= i < mu1.len() implies #[trigger] mu1[i] <= now.err by {
        assert(mu1[i] <= a.err);
    }
    assert forall|i: int| 0 <= i < mu2.len() implies #[trigger] mu2[i] <= now.err by {
        assert(mu2[i] <= b.err);
    }
    assert forall|i: int| 0 <= i < ssq.len() implies #[trigger] ssq[i] <= now.err by {
        assert(ssq[i] <= c.err);
    }
}

/// The patterns are those of their numbers. A pattern is two to the power of twenty-three times
/// its exponent, and the digits behind the first; that of a thousandth is the one of twenty-four
/// digits, in units of two to the power of minus thirty-three, that lies nearest.
pub proof fn law_patterns_are_of_their_numbers()
    ensures
        ONE_BITS == 127 * 0x80_0000,
        INFINITY_BITS == 255 * 0x80_0000,
        ({
            let digits = TOLERANCE_BITS - 117 * 0x80_0000 + 0x80_0000;
            &&& 0x80_0000 <= digits < 0x100_0000
            &&& -1000 <= 2 * (digits * 1000 - 0x2_0000_0000) <= 1000
        }),
{
}

/// Whether a run on images passes: both its moment planes and its map are within the
/// tolerance.
pub fn run_passes(worst: &PlaneWorst, found: &Comparison) -> (r: bool)
    ensures
        r == (worst.err <= TOLERANCE_BITS && found.max_err <= TOLERANCE_BITS),
{
    worst.pass() && found.pass()
}

/// One moment plane that has been looked at.
pub struct LookedAt {
    pub scale: usize,
    pub moment: usize,
    pub pw: usize,
    pub pt: usize,
    pub errors: Seq<u32>,
}

/// `history` is what was kept before, between and after looking at `planes`, one after the
/// other, from the start on.
pub open spec fn looked_at(planes: Seq<LookedAt>, history: Seq<PlaneWorst>) -> bool {
    &&& history.len() == planes.len() + 1
    &&& history[0] == (PlaneWorst { err: 0, scale: 0, plane: 0, x: 0, y: 0, n_div: 0 })
    &&& forall|k: int|
        0 <= k < planes.len() ==> (#[trigger] history[k]).after(
            history[k + 1],
            planes[k].scale,
            planes[k].moment,
            planes[k].pw,
            planes[k].pt,
            planes[k].errors,
        )
}

/// How many errors of the first `n` planes are above the tolerance.
pub open spec fn total_diverging(planes: Seq<LookedAt>, n: nat) -> nat
    decreases n,
{
    if n == 0 {
        0
    } else {
        let errors = planes[n - 1].errors;
        total_diverging(planes, (n - 1) as nat) + diverging(
            errors,
            TOLERANCE_BITS,
            errors.len(),
        ).len()
    }
}

proof fn lemma_worst_so_far(planes: Seq<LookedAt>, history: Seq<PlaneWorst>, n: nat)
    requires
        looked_at(planes, history),
        n <= planes.len(),
    ensures
        history[n as int].n_div == total_diverging(planes, n),
        forall|k: int, i: int|
            0 <= k < n && 0 <= i < planes[k].errors.len() ==> #[trigger] planes[k].errors[i]
                <= history[n as int].err,
        history[n as int].err == 0 || exists|k: int, i: int|
            0 <= k < n && 0 <= i < planes[k].errors.len() && #[trigger] planes[k].errors[i]
                == history[n as int].err,
    decreases n,
{
    if n > 0 {
        let m = (n - 1) as nat;
        lemma_worst_so_far(planes, history, m);
        let (was, now) = (history[m as int], history[n as int]);
        let plane = planes[m as int];
        assert(was.after(now, plane.scale, plane.moment, plane.pw, plane.pt, plane.errors));
        let peak = choose|peak: Option<(u32, usize)>| #[trigger]
            is_peak(plane.errors, was.err, peak) && (match peak {
                None => now.err == was.err,
                Some((key, at)) => now.err == key,
            });
        assert forall|k: int, i: int|
            0 <= k < n && 0 <= i < planes[k].errors.len() implies #[trigger] planes[k].errors[i]
            <= now.err by {
            if k == m {
                assert(plane.errors[i] <= now.err);
            } else {
                assert(planes[k].errors[i] <= was.err);
            }
        }
        if let Some((key, at)) = peak {
            assert(planes[m as int].errors[at as int] == now.err);
        } else if was.err != 0 {
            let (k, i) = choose|k: int, i: int|
                0 <= k < m && 0 <= i < planes[k].errors.len() && #[trigger] planes[k].errors[i]
                    == was.err;
            assert(planes[k].errors[i] == now.err);
        }
    }
}

/// Over all the planes that were looked at: the worst error is the largest of them all (zero
/// where there is none), they pass exactly where no error of any of them is above the
/// tolerance, and those above are counted over all.
pub proof fn law_worst_is_of_all_planes(planes: Seq<LookedAt>, history: Seq<PlaneWorst>)
    requires
        looked_at(planes, history),
    ensures
        forall|k: int, i: int|
            0 <= k < planes.len() && 0 <= i < planes[k].errors.len()
                ==> #[trigger] planes[k].errors[i] <= history.last().err,
        history.last().err == 0 || exists|k: int, i: int|
            0 <= k < planes.len() && 0 <= i < planes[k].errors.len()
                && #[trigger] planes[k].errors[i] == history.last().err,
        history.last().err <= TOLERANCE_BITS <==> forall|k: int, i: int|
            0 <= k < planes.len() && 0 <= i < planes[k].errors.len()
                ==> #[trigger] planes[k].errors[i] <= TOLERANCE_BITS,
        history.last().n_div == total_diverging(planes, planes.len()),
{
    lemma_worst_so_far(planes, history, planes.len());
    let err = history.last().err;
    if err <= TOLERANCE_BITS {
        assert forall|k: int, i: int|
            0 <= k < planes.len() && 0 <= i < planes[k].errors.len() implies
            #[trigger] planes[k].errors[i] <= TOLERANCE_BITS by {
            assert(planes[k].errors[i] <= err);
        }
    }
}

proof fn lemma_diverging_count(errors: Seq<u32>, limit: u32, n: nat)
    ensures
        diverging(errors, limit, n).len() <= n,
    decreases n,
{
    if n > 0 {
        lemma_diverging_count(errors, limit, (n - 1) as nat);
    }
}

/// Column and row of offset `i` of a map `width` wide.
pub fn pixel_of(i: usize, width: usize) -> (r: (usize, usize))
    requires
        0 < width,
    ensures
        r.0 == i as int % width as int,
        r.1 == i as int / width as int,
        i == r.1 * width + r.0,
{
    proof {
        lemma_fundamental_div_mod(i as int, width as int);
        assert(width * (i / width) == (i / width) * width) by (nonlinear_arith);
    }
    (i % width, i / width)
}

/// The word for a comparison that passed or did not.
pub fn verdict_label(pass: bool) -> (r: &'static str)
    ensures
        r@ == (if pass {
            "PASS"@
        } else {
            "FAIL"@
        }),
{
    if pass {
        "PASS"
    } else {
        "FAIL"
    }
}

/// The word for what a double-single sum recovered, by the magnitude of how far it is from
/// what was added: it works where it is off by less than one.
pub fn probe_label(error: u32) -> (r: &'static str)
    ensures
        r@ == (if error < ONE_BITS {
            "WORKS"@
        } else {
            "COLLAPSED"@
        }),
{
    if error < ONE_BITS {
        "WORKS"
    } else {
        "COLLAPSED"
    }
}

} // verus!
