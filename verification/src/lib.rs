//! The error map of a distorted image, computed in two ways.
//!
//! Kernels compute the map the way a graphics device does: a tiled box blur that slides
//! down strips of rows produces moment planes, a kernel turns them into a weighted
//! structural-similarity error per pixel and level, and another adds each level to the
//! map at the size of the first. A reference computes it directly, pixel by pixel. The
//! library holds both, the sizes and steps that a device is driven with, and the
//! comparison of what came back with the reference.
//!
//! All arithmetic goes through [`scalar::Scalar`], which names each rounding operation
//! and says nothing of how it rounds. The contracts of the kernels and of the reference
//! fix their results operation by operation, for every number type. From the same moment planes
//! the two compute one map, bit for bit, wherever zero and a weighted error add up to it, as in
//! the numbers of [`single`], which round to so many digits. Blurred planes are those of the
//! reference in [`scalar::Exact`], which does not round, and near them in arithmetic that a
//! model of [`rounding`] describes, as that of [`single`] is.
//!
//! What the results mean is stated apart from how they are computed: in real arithmetic, of the
//! errors and features of a pixel in [`meaning`], of the moment planes, the sums and the map in
//! [`averages`]; and of numbers of so many digits, where each result is rounded, in [`stepwise`].

pub mod averages;
pub mod blur;
pub mod compare;
pub mod df64;
pub mod diffmap;
pub mod digits;
pub mod features;
pub mod geometry;
pub mod identity;
pub mod line;
pub mod machine;
pub mod meaning;
pub mod mirror;
pub mod models;
pub mod reference;
pub mod rounding;
pub mod scalar;
pub mod single;
pub mod ssim;
pub mod steps;
pub mod stepwise;
pub mod synth;
pub mod upsample;
pub mod window;
