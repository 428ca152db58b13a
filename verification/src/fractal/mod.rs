//! The renderers: what turns a per-pixel kernel into a frame.

pub mod analysis;
pub mod fractal;
pub mod fractal_type;
pub mod kernels;
pub mod perturbation;
pub mod render;

pub use analysis::{box_count_dimension, estimate_area, iteration_histogram, BoxCountResult};
pub use fractal::{flops_per_iter, render, render_neighbor_capped, IterBuf, F32_PRECISION_THRESHOLD};
pub use fractal_type::FractalType;
pub use kernels::escape::{mandelbrot_dem, mandelbrot_ide};
pub use kernels::interior::render_ide_biased;
pub use perturbation::orbit::{compute_reference_orbit, compute_series_approx, perturb_mandelbrot_flagged, RefOrbit, SeriesApprox};
pub use perturbation::perturbation_theory::{render_perturbation, render_perturbation_multiref, render_perturbation_rebase, render_perturbation_sa, RefOrbitSet, F128_ZOOM_THRESHOLD, MAX_REFS};
pub use render::hilbert::render_tiled;
pub use render::mariani_silver::{render_mariani_silver, render_mariani_silver_dem};
pub use render::pan::shift_and_fill;
pub use render::simd::{render_simd, render_simd_f32, render_simd_f32_ilp};
pub use render::tile::{render_cpu_tile, render_cpu_tile_into, render_tile_exact, render_tile_exact_into, render_tile_exact_simd};
