# diffmap

The error map of a distorted image, computed in two ways that are proved to agree before rounding.

On a graphics device, a chain of kernels computes the map: a tiled, sliding-window box blur
produces moment planes (`blur_planes_kernel`, `blur_f64_kernel` or
`fused_features_kernel_persist`), `per_scale_weighted_ssim_kernel` turns them into a weighted
structural-similarity error per pixel, and `pow2x_upsample_add_kernel` adds the levels of the
pyramid up. On the host, a reference computes the same map directly.

`src/` is verified with Verus. It holds the kernels, run block by block and unit by unit; the
reference; the pyramid, the strips and the launch sizes; the steps that drive a device; and the
comparison of what came back. Arithmetic goes through the trait `Scalar`, so contracts fix every
result operation by operation, for any number type whose operations are functions of their
operands (floating point is one but for the sign and the payload of what is not a number).
Statements that need algebra (the sliding window is the direct sum, an image has no error
against itself) are made of `Exact`, the number type that does not round. Where rounding matters
they are made of `Single` and `Double`, which round to 24 and 53 binary digits: given moment
planes a device reads back the reference map bit for bit (as with any number type in which zero
and a weighted error add up to it); with samples within one of zero, blurred planes of up to 4096
rows are within 1/1000 of the reference planes, and the strips that a plane of up to 256 rows is
cut into leave no seam above 1/10000.

| module | what it holds |
| --- | --- |
| `scalar`, `digits`, `single` | the arithmetic: `Scalar`, `Wide`, `Exact`; rounding, `Single`, `Double` |
| `geometry`, `mirror` | pyramid, strips, launch sizes; reflection at borders |
| `window`, `blur`, `features` | the sliding window, the blur kernels, feature sums and peaks |
| `reference` | the direct blur, and that the sliding one is the same before rounding |
| `rounding`, `models` | how near they are after it, and what that says of `Single` |
| `ssim`, `upsample`, `line` | errors of a level, adding levels up, zeroing and copying |
| `diffmap`, `identity` | whole maps on device and host, and what holds of them |
| `df64` | plain and double-single sums |
| `steps`, `machine` | the steps of a run, and that a device that performs them computes the map |
| `synth`, `compare` | synthetic inputs, comparing results |

`tests/` runs the library on 32- and 64-bit floating point. `app/` is the program: it launches
the kernels with `cubecl`, performs the steps, prints the reports, and exits with 1 where a map
or a plane is not the reference. In the environment, `BACKEND=cuda` picks CUDA in place of what
`wgpu` finds (Metal on macOS, Vulkan elsewhere), and `ZERO_FILL=0` leaves scratch as it comes.
