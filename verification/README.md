# cactus_sift

Scale-invariant feature transform (SIFT): keypoint detection in a
difference-of-Gaussians pyramid, descriptor matching, and drawing the matches
of two images.

- `src/` is the verified library. It holds the integer and ordering
  logic: the extremum scan of the pyramid, descriptor distances and
  nearest-neighbour matching with the ratio test, refinement bookkeeping,
  orientation peaks, the mapping of keypoint coordinates back to the input
  image, and the layout of the match picture. Float samples are carried as
  their IEEE-754 bit patterns and ordered as `f32` orders them.
- `app/` is the command-line program and the floating-point stages (blurs,
  resampling, Hessian fits, gradient histograms, descriptors), which call the
  library for every decision.
- `tests/` exercises the library on concrete values.
