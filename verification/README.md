# brush

The computing core of a Gaussian-splat trainer and viewer, verified with Verus.

The library in `src/` holds what decides and computes:

- `import`, `ply_stream`, `splat_data`, `quantized`: what a PLY header promises,
  which rows of a plain or compressed file are kept, and what follows each chunk
  that was read.
- `gaussian_splats`, `scale_floor`, `sh`, `sh_color`, `sh_grad_materialize`: splat
  tables, the scale floor, coefficients, color and its gradients.
- `scan`, `prefix_sum`, `sort`, `map_gaussians`, `get_tile_offset`: the kernels that
  bring splats into tile order.
- `camera`, `projection`: lenses, fields of view, projections and their gradients.
  `round_trip` says what the conversions undo.
- `slope`: the rules of differentiation, and with them what the gradients are:
  `projection_slope` and `distortion_slope` for the projections, `direction_slope`
  for the color, `loss_slope` and `sum_slope` for the image loss.
- `image_loss`, `loss`, `stencil`, `psnr`: the image loss, forward and backward.
  `loss_sums` adds up what the forward kernel leaves for each tile.
- `render_bwd`, `native_msl`: decisions of the differentiable render path.
- `raster_census`, `raster_replay`, `raster_walk`: the census of raster work.
- `args_file`, `config`, `process`, `training_metrics`, `build_id`, `validation`:
  settings, the order of work on a source, records and checks.
- `visualize`, `distribution`, `resize`, `visual_log`: statistics of splats, images
  and the arrangement of the visual log.
- `scalar`, `num`, `float_bits`, `text`, `sums`, `counting`: what the others build on.

Floating point is not modelled. Formulas are generic over a scalar type (`scalar`,
`num`), and their contracts say which operations are applied to what, for every
scalar type whose operations are functions of their arguments. Laws that hold where
nothing is rounded say so through `exact`. Values that are only
classified, compared or counted come as bit patterns (`float_bits`).

`app/` is ordinary Rust around the library: the machine's numbers as scalars, the
environment, files, asynchronous reading, the command line, and the visual log's
recording.

Four outside functions are trusted, each behind one small function whose comment
says what is claimed: `str::to_lowercase` in `text`, the header parser of `serde_ply`
in `import`, the path order of `alphanumeric_sort` in `process`, and the resampling
of `image` in `resize`.
