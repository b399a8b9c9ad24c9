//! Verified core of a Gaussian-splat renderer and trainer: scans, sorts, tile
//! bookkeeping, workload statistics, loss launch layout, splat import rules,
//! configuration handling and training diagnostics.

pub mod text;
pub mod sums;
pub mod counting;
pub mod float_bits;
pub mod native_msl;
pub mod num;
pub mod scalar;
pub mod stencil;
pub mod image_loss;
pub mod loss;
pub mod loss_sums;
pub mod sum_slope;
pub mod loss_slope;
pub mod image_numbers;
pub mod lens_numbers;
pub mod view_numbers;
pub mod splat_numbers;
pub mod sh;
pub mod sh_color;
pub mod direction_slope;
pub mod sh_grad_materialize;
pub mod gaussian_splats;
pub mod splat_data;
pub mod import;
pub mod ply_stream;
pub mod validation;
pub mod resize;
pub mod scale_floor;
pub mod psnr;
pub mod quantized;
pub mod scan;
pub mod prefix_sum;
pub mod sort;
pub mod get_tile_offset;
pub mod map_gaussians;
pub mod exact;
pub mod slope;
pub mod projection;
pub mod distortion_slope;
pub mod projection_slope;
pub mod raster_replay;
pub mod raster_census;
pub mod render_bwd;
pub mod args_file;
pub mod camera;
pub mod round_trip;
pub mod config;
pub mod training_metrics;
pub mod process;
pub mod visualize;
pub mod distribution;
pub mod visual_log;
pub mod build_id;
pub mod raster_walk;
