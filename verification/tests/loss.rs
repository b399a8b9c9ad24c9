//! The image-loss kernels, run on single-precision numbers.

use brush::image_loss::{ChannelWeights, ImageLossConfig, Rgb, TILE_SIZE};
use brush::loss::{
    alpha_match, backward_shared_elements, channel_weights, coords, cube_count_3d,
    cube_count_3d_bwd, image_loss, image_loss_backward, image_loss_backward_kernel,
    image_loss_eval, image_loss_forward_saved, image_loss_partials, image_loss_tracked,
    keeps_loss_partials, loss_tiles, planes, select_backward_tile, tile_sum, unpack_gt_rgb,
    unpack_gt_rgb_kernel, LossInput, BWD_LARGE_SHARED_BYTES, BWD_TILE_LARGE, BWD_TILE_SMALL,
};
use brush::scalar::Scalar;
use brush::stencil::gauss_taps;

#[derive(Clone, Copy, Debug, PartialEq)]
struct F(f32);

fn expected_taps() -> [f32; 11] {
    let sigma = 1.5_f32;
    let mut w = [0.0_f32; 11];
    let mut sum = 0.0;
    for (i, w) in w.iter_mut().enumerate() {
        let x = i as f32 - 5.0;
        *w = (-x * x / (2.0 * sigma * sigma)).exp();
        sum += *w;
    }
    for w in &mut w {
        *w /= sum;
    }
    w
}

impl Scalar for F {
    fn literal(text: &'static str) -> Self {
        F(text.parse().expect("a formula's literal is a number"))
    }
    fn exp(self) -> Self {
        F(self.0.exp())
    }
    fn zero() -> Self {
        F(0.0)
    }
    fn one() -> Self {
        F(1.0)
    }
    fn two() -> Self {
        F(2.0)
    }
    fn three() -> Self {
        F(3.0)
    }
    fn from_count(count: u32) -> Self {
        F(count as f32)
    }
    fn plus(self, other: Self) -> Self {
        F(self.0 + other.0)
    }
    fn minus(self, other: Self) -> Self {
        F(self.0 - other.0)
    }
    fn times(self, other: Self) -> Self {
        F(self.0 * other.0)
    }
    fn over(self, other: Self) -> Self {
        F(self.0 / other.0)
    }
    fn negated(self) -> Self {
        F(-self.0)
    }
    fn magnitude(self) -> Self {
        F(self.0.abs())
    }
    fn larger(self, other: Self) -> Self {
        F(self.0.max(other.0))
    }
    fn within_unit(self) -> Self {
        F(self.0.clamp(-1.0, 1.0))
    }
    fn less(self, other: Self) -> bool {
        self.0 < other.0
    }
    fn same(self, other: Self) -> bool {
        self.0 == other.0
    }
}

fn wrap(data: &[f32]) -> Vec<F> {
    data.iter().map(|&v| F(v)).collect()
}

fn unwrap(data: &[F]) -> Vec<f32> {
    data.iter().map(|v| v.0).collect()
}

fn config(l1: f32, ssim: f32, bg: Option<(f32, f32, f32)>, mask: bool, alpha: f32) -> ImageLossConfig<F> {
    ImageLossConfig {
        l1_weight: F(l1),
        ssim_weight: F(ssim),
        composite_bg: bg.map(|(r, g, b)| Rgb {
            r: F(r),
            g: F(g),
            b: F(b),
        }),
        mask,
        alpha_weight: F(alpha),
    }
}

fn input<'a>(
    pred: &'a Vec<F>,
    gt: &'a Vec<u32>,
    shape: (usize, usize, usize),
    cfg: ImageLossConfig<F>,
) -> LossInput<'a, F> {
    let (h, w, c) = shape;
    assert_eq!(pred.len(), h * w * c);
    assert_eq!(gt.len(), h * w);
    LossInput {
        pred,
        gt_packed: gt,
        h: h as u32,
        w: w as u32,
        cn: c as u32,
        cfg,
    }
}

fn pack_rgba(bytes: &[u8]) -> Vec<u32> {
    bytes
        .chunks(4)
        .map(|p| {
            u32::from(p[0]) | u32::from(p[1]) << 8 | u32::from(p[2]) << 16 | u32::from(p[3]) << 24
        })
        .collect()
}

fn make_pattern(h: usize, w: usize, scale: u32, offset: u32) -> Vec<u8> {
    (0..h * w * 4)
        .map(|i| ((i as u32 * scale + offset) % 251) as u8)
        .collect()
}

fn rgb_from_bytes(bytes: &[u8]) -> Vec<F> {
    bytes
        .chunks(4)
        .flat_map(|p| [p[0], p[1], p[2]].map(|b| F(b as f32 / 255.0)))
        .collect()
}

fn vjp_inputs(h: usize, w: usize, channels: usize) -> (Vec<f32>, Vec<u8>, Vec<f32>) {
    let mut pred = Vec::with_capacity(h * w * channels);
    let mut gt = Vec::with_capacity(h * w * 4);
    for pixel in 0..h * w {
        let offset = (pixel % 17) as f32 * 0.002;
        pred.extend_from_slice(&[0.75 + offset, 0.65 + offset, 0.10 + offset]);
        if channels == 4 {
            pred.push(0.05 + offset);
        }
        gt.extend_from_slice(&[
            (30 + (pixel * 7) % 31) as u8,
            (80 + (pixel * 11) % 31) as u8,
            (130 + (pixel * 13) % 31) as u8,
            (100 + (pixel * 17) % 131) as u8,
        ]);
    }
    let chain = (0..h.div_ceil(TILE_SIZE) * w.div_ceil(TILE_SIZE) * channels)
        .map(|i| {
            let magnitude = (0.25 + ((i * 19 + 7) % 31) as f32 / 31.0) * (3 * h * w) as f32;
            if i % 2 == 0 {
                magnitude
            } else {
                -magnitude
            }
        })
        .collect();
    (pred, gt, chain)
}

fn dot_loss(
    pred: &[f32],
    gt: &Vec<u32>,
    chain: &[f32],
    shape: (usize, usize, usize),
    cfg: ImageLossConfig<F>,
) -> f64 {
    let pred = wrap(pred);
    let partials = image_loss_partials(&input(&pred, gt, shape, cfg));
    partials
        .iter()
        .zip(chain)
        .map(|(value, &weight)| f64::from(value.0) * f64::from(weight))
        .sum()
}

fn gradient(
    pred: &[f32],
    gt: &Vec<u32>,
    chain: &[f32],
    shape: (usize, usize, usize),
    cfg: ImageLossConfig<F>,
    tile: u32,
) -> Vec<f32> {
    let pred = wrap(pred);
    let grad = image_loss_backward(&input(&pred, gt, shape, cfg), &wrap(chain), None, tile);
    unwrap(&grad.expect("matching shapes"))
}

fn check_vjp_case(
    shape: (usize, usize, usize),
    cfg: ImageLossConfig<F>,
    probes: &[(usize, usize, usize)],
) {
    const EPSILON: f32 = 1e-2;

    let (h, w, channels) = shape;
    let (base, gt, chain) = vjp_inputs(h, w, channels);
    let gt = pack_rgba(&gt);
    let analytical = gradient(&base, &gt, &chain, shape, cfg, BWD_TILE_LARGE);
    for &(y, x, channel) in probes {
        let index = (y * w + x) * channels + channel;
        let mut plus = base.clone();
        plus[index] += EPSILON;
        let mut minus = base.clone();
        minus[index] -= EPSILON;
        let numerical = ((dot_loss(&plus, &gt, &chain, shape, cfg)
            - dot_loss(&minus, &gt, &chain, shape, cfg))
            / (2.0 * f64::from(EPSILON))) as f32;
        let actual = analytical[index];
        let scale = numerical.abs().max(actual.abs()).max(1e-6);
        let tolerance = 1e-3 + 0.01 * scale;
        assert!(
            (numerical - actual).abs() <= tolerance,
            "{h}x{w}x{channels} [{y},{x},{channel}]: numerical={numerical}, analytical={actual}, tolerance={tolerance}"
        );
    }
}

#[test]
fn backward_tile_selection_respects_device_limits() {
    let large = BWD_TILE_LARGE;
    let generous_dims = (large, large, 1);
    let generous_units = large * large;

    assert_eq!(BWD_LARGE_SHARED_BYTES, 29_088);
    assert_eq!(
        select_backward_tile(29_087, generous_units, generous_dims),
        BWD_TILE_SMALL
    );
    assert_eq!(
        select_backward_tile(29_088, generous_units, generous_dims),
        large
    );
    assert_eq!(
        select_backward_tile(29_088, generous_units - 1, generous_dims),
        BWD_TILE_SMALL
    );
    assert_eq!(
        select_backward_tile(29_088, generous_units, (large - 1, large, 1)),
        BWD_TILE_SMALL
    );
    assert_eq!(
        select_backward_tile(29_088, generous_units, (large, large - 1, 1)),
        BWD_TILE_SMALL
    );
}

#[test]
fn shared_footprint_matches_the_constant() {
    assert_eq!(backward_shared_elements(BWD_TILE_LARGE) * 4, BWD_LARGE_SHARED_BYTES);
    assert_eq!(backward_shared_elements(BWD_TILE_SMALL), 28 * 28 * 2 + 28 * 18 * 5);
}

#[test]
fn backward_tile_specializations_match() {
    let (c, h, w) = (4usize, 17usize, 19usize);
    let pred: Vec<f32> = (0..c * h * w)
        .map(|i| 0.1 + ((i * 17 + 3) % 71) as f32 / 100.0)
        .collect();
    let chain: Vec<f32> = (0..c * loss_tiles(h as u32, w as u32) as usize)
        .map(|i| {
            let value = 0.2 + ((i * 13 + 5) % 37) as f32 / 50.0;
            if i % 2 == 0 {
                value
            } else {
                -value
            }
        })
        .collect();
    let gt: Vec<u32> = (0..h * w)
        .map(|i| {
            let r = (30 + (i * 7) % 101) as u32;
            let g = (70 + (i * 11) % 101) as u32;
            let b = (110 + (i * 13) % 101) as u32;
            let a = (100 + (i * 17) % 131) as u32;
            r | g << 8 | b << 16 | a << 24
        })
        .collect();
    let cfg = config(0.8, -0.2, Some((0.05, 0.1, 0.15)), true, 0.3);

    let small = gradient(&pred, &gt, &chain, (h, w, c), cfg, BWD_TILE_SMALL);
    assert!(
        small.iter().all(|value| value.is_finite()),
        "small-tile gradients must be finite"
    );
    let large = gradient(&pred, &gt, &chain, (h, w, c), cfg, BWD_TILE_LARGE);
    for (index, (&small, &large)) in small.iter().zip(&large).enumerate() {
        let tolerance = 5e-5 + 5e-5 * small.abs().max(large.abs());
        assert!(
            (small - large).abs() <= tolerance,
            "tile gradients differ at {index}: 8x8={small}, 16x16={large}, tolerance={tolerance}"
        );
    }
    assert_eq!(small, large);
}

#[test]
fn saved_partials_match_recomputed_forward_and_vjp() {
    let (c, h, w) = (4usize, 17usize, 19usize);
    let pred_data: Vec<f32> = (0..c * h * w)
        .map(|i| 0.05 + ((i * 17 + 3) % 83) as f32 / 100.0)
        .collect();
    let chain_data: Vec<f32> = (0..c * loss_tiles(h as u32, w as u32) as usize)
        .map(|i| {
            let value = 0.15 + ((i * 13 + 5) % 41) as f32 / 50.0;
            if i % 2 == 0 {
                value
            } else {
                -value
            }
        })
        .collect();
    let gt_data: Vec<u32> = (0..h * w)
        .map(|i| {
            let r = (20 + (i * 7) % 151) as u32;
            let g = (50 + (i * 11) % 151) as u32;
            let b = (90 + (i * 13) % 151) as u32;
            let alpha_values = [0u32, 1, 127, 254, 255];
            let a = alpha_values[i % alpha_values.len()];
            r | g << 8 | b << 16 | a << 24
        })
        .collect();
    let cfg = config(0.8, -0.2, Some((0.05, 0.1, 0.15)), true, 0.3);
    let pred = wrap(&pred_data);
    let chain = wrap(&chain_data);
    let inp = input(&pred, &gt_data, (h, w, c), cfg);

    let control_map = image_loss_partials(&inp);
    let (saved_map, partials) = image_loss_forward_saved(&inp);
    let control_grad =
        image_loss_backward(&inp, &chain, None, BWD_TILE_LARGE).expect("control gradient data");
    let saved_grad = image_loss_backward(&inp, &chain, Some(&partials), BWD_TILE_LARGE)
        .expect("saved gradient data");

    let assert_close = |label: &str, expected: &[F], actual: &[F]| {
        assert_eq!(expected.len(), actual.len(), "{label} length");
        for (index, (expected, actual)) in expected.iter().zip(actual).enumerate() {
            let (expected, actual) = (expected.0, actual.0);
            let tolerance = 5e-5 + 5e-5 * expected.abs().max(actual.abs());
            assert!(
                (expected - actual).abs() <= tolerance,
                "{label} differs at {index}: expected={expected}, actual={actual}, tolerance={tolerance}"
            );
        }
    };
    assert_close("forward map", &control_map, &saved_map);
    assert_close("prediction VJP", &control_grad, &saved_grad);
    let control_alpha: Vec<f32> = control_grad.iter().skip(3).step_by(4).map(|v| v.0).collect();
    let saved_alpha: Vec<f32> = saved_grad.iter().skip(3).step_by(4).map(|v| v.0).collect();
    assert_eq!(
        control_alpha, saved_alpha,
        "alpha VJP must remain bit-identical"
    );
}

#[test]
fn ssim_identical_inputs_is_one() {
    let (h, w) = (40, 56);
    let bytes = make_pattern(h, w, 11, 13);
    let pred = rgb_from_bytes(&bytes);
    let gt = pack_rgba(&bytes);
    let map = image_loss_eval(&input(&pred, &gt, (h, w, 3), config(0.0, 1.0, None, false, 0.0)));
    let mean: f32 = map.iter().map(|v| v.0).sum::<f32>() / (h * w * 3) as f32;
    assert!(
        (mean - 1.0).abs() < 1e-4,
        "SSIM(x, x) should be 1, got {mean}"
    );
}

#[test]
fn ssim_in_clamp_range() {
    let (h, w) = (40, 56);
    let bytes_a = make_pattern(h, w, 7, 19);
    let bytes_b = make_pattern(h, w, 13, 7);
    let pred = rgb_from_bytes(&bytes_a);
    let gt = pack_rgba(&bytes_b);
    let data = image_loss_eval(&input(&pred, &gt, (h, w, 3), config(0.0, 1.0, None, false, 0.0)));
    let min = data.iter().map(|v| v.0).fold(f32::INFINITY, f32::min);
    let max = data.iter().map(|v| v.0).fold(f32::NEG_INFINITY, f32::max);
    assert!(
        (-1.0..=1.0).contains(&min) && (-1.0..=1.0).contains(&max),
        "SSIM out of [-1, 1]: min={min} max={max}"
    );
}

#[test]
fn image_loss_backward_runs() {
    let (h, w) = (32, 48);
    let bytes_a = make_pattern(h, w, 5, 1);
    let bytes_b = make_pattern(h, w, 7, 11);
    let pred = rgb_from_bytes(&bytes_a);
    let gt = pack_rgba(&bytes_b);
    let inp = input(&pred, &gt, (h, w, 3), config(0.8, -0.2, None, false, 0.0));
    let ones = vec![F(1.0); 3 * loss_tiles(h as u32, w as u32) as usize];
    let grad = image_loss_backward(&inp, &ones, None, BWD_TILE_LARGE).expect("gradient");
    let max_abs = grad.iter().map(|v| v.0.abs()).fold(0.0_f32, f32::max);
    assert!(
        max_abs > 0.0,
        "backward should produce non-zero gradients, got all zeros"
    );
    assert!(
        grad.iter().all(|v| v.0.is_finite()),
        "gradients should be finite"
    );
}

#[test]
fn image_loss_direct_vjp_matches_finite_difference() {
    let cfg = |bg, mask| config(0.8, -0.2, bg, mask, 1.0);
    let background = Some((0.05, 0.10, 0.15));
    let ssim_only_composited = config(0.0, 1.0, background, false, 1.0);

    check_vjp_case((1, 1, 3), cfg(None, false), &[(0, 0, 0), (0, 0, 2)]);
    check_vjp_case(
        (3, 7, 4),
        cfg(background, true),
        &[(0, 0, 0), (1, 3, 3), (2, 6, 2)],
    );
    check_vjp_case(
        (17, 19, 3),
        ssim_only_composited,
        &[(0, 0, 0), (15, 16, 1), (16, 18, 2)],
    );
    check_vjp_case((33, 35, 3), cfg(None, true), &[(16, 16, 0), (32, 34, 2)]);
}

#[test]
fn l1_only_specialization_matches_finite_difference() {
    let l1_only = config(0.73, 0.0, Some((0.07, 0.11, 0.19)), true, 1.0);
    check_vjp_case(
        (7, 9, 4),
        l1_only,
        &[(0, 0, 0), (3, 4, 1), (6, 8, 2), (2, 5, 3)],
    );
}

fn assert_l1_forward_matches_cpu(
    pred_data: &[f32],
    gt_bytes: &[u8],
    shape: (usize, usize, usize),
    cfg: ImageLossConfig<F>,
) {
    let (h, w, channels) = shape;
    let pred = wrap(pred_data);
    let gt = pack_rgba(gt_bytes);
    let actual = unwrap(&image_loss_eval(&input(&pred, &gt, shape, cfg)));
    for pixel in 0..h * w {
        let alpha = f32::from(gt_bytes[pixel * 4 + 3]) / 255.0;
        for channel in 0..channels {
            let gt = if channel == 3 {
                alpha
            } else {
                let base = f32::from(gt_bytes[pixel * 4 + channel]) / 255.0;
                match cfg.composite_bg {
                    Some(bg) => base + (1.0 - alpha) * [bg.r.0, bg.g.0, bg.b.0][channel],
                    None => base,
                }
            };
            let weight = if channel == 3 { 1.0 } else { cfg.l1_weight.0 };
            let mask = if cfg.mask { alpha } else { 1.0 };
            let index = pixel * channels + channel;
            let expected = weight * (pred_data[index] - gt).abs() * mask;
            assert!(
                (actual[index] - expected).abs() < 2e-6,
                "pixel={pixel} channel={channel}: actual={}, expected={expected}",
                actual[index]
            );
        }
    }
}

#[test]
fn l1_only_forward_matches_cpu_oracle() {
    let gt = [
        10, 100, 200, 0, 250, 50, 25, 64, 30, 90, 150, 192, 240, 180, 60, 255,
    ];
    let rgb = [0.9, 0.1, 0.4, 0.2, 0.8, 0.5, 0.7, 0.3, 0.05, 0.4, 0.6, 0.95];
    assert_l1_forward_matches_cpu(&rgb, &gt, (2, 2, 3), config(0.73, 0.0, None, false, 1.0));
    assert_l1_forward_matches_cpu(
        &rgb,
        &gt,
        (2, 2, 3),
        config(0.41, 0.0, Some((0.1, 0.25, 0.8)), true, 1.0),
    );
    let rgba = [
        0.9, 0.1, 0.4, 0.8, 0.2, 0.8, 0.5, 0.1, 0.7, 0.3, 0.05, 0.9, 0.4, 0.6, 0.95, 0.2,
    ];
    assert_l1_forward_matches_cpu(&rgba, &gt, (2, 2, 4), config(0.19, 0.0, None, false, 1.0));
}

#[test]
fn alpha_match_via_4ch_pred() {
    let (h, w) = (16, 24);
    let bytes = make_pattern(h, w, 17, 5);
    let pred: Vec<F> = bytes.iter().map(|b| F(*b as f32 / 255.0)).collect();
    let gt = pack_rgba(&bytes);
    let cfg = config(1.0, 0.0, None, false, 1.0);
    let inp = input(&pred, &gt, (h, w, 4), cfg);
    assert_eq!(image_loss_eval(&inp).len(), h * w * 4);
    let partials = image_loss_partials(&inp);
    assert_eq!(partials.len(), 4 * loss_tiles(h as u32, w as u32) as usize);
    let ones = vec![F(1.0); partials.len()];
    assert!(image_loss_backward(&inp, &ones, None, BWD_TILE_SMALL).is_ok());
}

#[test]
fn alpha_channel_is_ignored_without_a_weight() {
    let (h, w) = (5, 6);
    let bytes = make_pattern(h, w, 17, 5);
    let pred: Vec<F> = bytes.iter().map(|b| F(1.0 - *b as f32 / 255.0)).collect();
    let gt = pack_rgba(&bytes);
    let cfg = config(1.0, 0.5, None, false, 0.0);
    assert!(!alpha_match(&cfg, 4));
    assert_eq!(planes(&cfg, 4), 3);
    assert_eq!(planes(&config(1.0, 0.5, None, false, 0.2), 4), 4);
    assert_eq!(planes(&config(1.0, 0.5, None, false, 0.2), 3), 3);
    let inp = input(&pred, &gt, (h, w, 4), cfg);
    let map = image_loss_eval(&inp);
    assert!(map.iter().skip(3).step_by(4).all(|v| v.0 == 0.0));
    let ones = vec![F(1.0); 3];
    let grad = image_loss_backward(&inp, &ones, None, BWD_TILE_LARGE).expect("three planes");
    assert!(grad.iter().skip(3).step_by(4).all(|v| v.0 == 0.0));
    assert!(grad.iter().step_by(4).any(|v| v.0 != 0.0));
}

#[test]
fn partials_match_map_sums() {
    let (h, w) = (37, 53);
    let bytes = make_pattern(h, w, 17, 5);
    let bytes_b = make_pattern(h, w, 3, 9);
    let pred: Vec<F> = bytes.iter().map(|b| F(*b as f32 / 255.0)).collect();
    let gt = pack_rgba(&bytes_b);
    let cfg = config(0.7, 0.3, None, false, 1.0);
    let inp = input(&pred, &gt, (h, w, 4), cfg);
    let map = image_loss_eval(&inp);
    let partials = image_loss_partials(&inp);
    let tiles = loss_tiles(h as u32, w as u32) as usize;
    let pixels = (h * w) as f32;
    for c in 0..4 {
        let weight = if c < 3 {
            1.0 / (3.0 * pixels)
        } else {
            1.0 / pixels
        };
        let a = map.iter().skip(c).step_by(4).map(|v| v.0).sum::<f32>() * weight;
        let b: f32 = partials[c * tiles..(c + 1) * tiles].iter().map(|v| v.0).sum();
        assert!(
            (a - b).abs() <= 1e-3 * a.abs().max(1e-3),
            "channel {c}: weighted map sum {a} vs partial sum {b}"
        );
    }
}

#[test]
fn partials_gradient_matches_finite_difference() {
    let (h, w) = (24, 40);
    let bytes = make_pattern(h, w, 5, 1);
    let bytes_b = make_pattern(h, w, 7, 11);
    let mut rgba: Vec<f32> = bytes.iter().map(|b| *b as f32 / 255.0).collect();
    for (i, v) in rgba.iter_mut().enumerate() {
        *v = (*v + 0.013 * ((i % 7) as f32 + 1.0)).min(0.97);
    }
    let gt = pack_rgba(&bytes_b);
    let cfg = config(0.6, 0.4, None, false, 1.0);
    let tiles = w.div_ceil(TILE_SIZE) * h.div_ceil(TILE_SIZE);
    let probes = [(5, 7, 0), (15, 16, 1), (16, 33, 2), (23, 39, 0), (9, 20, 3)];
    let eps = 2e-3_f32;
    let mut failed = Vec::new();
    for (y, x, c) in probes {
        let mut wts = vec![0.0f32; 4 * tiles];
        for (tile, wt) in wts[c * tiles..(c + 1) * tiles].iter_mut().enumerate() {
            *wt = 1.0 + tile as f32 / tiles as f32;
        }
        let grad = gradient(&rgba, &gt, &wts, (h, w, 4), cfg, BWD_TILE_LARGE);
        let i = (y * w + x) * 4 + c;
        let mut plus = rgba.clone();
        plus[i] += eps;
        let mut minus = rgba.clone();
        minus[i] -= eps;
        let lp = dot_loss(&plus, &gt, &wts, (h, w, 4), cfg);
        let lm = dot_loss(&minus, &gt, &wts, (h, w, 4), cfg);
        let numerical = ((lp - lm) / (2.0 * f64::from(eps))) as f32;
        let analytical = grad[i];
        let tol = 1e-5 + 0.02 * numerical.abs().max(analytical.abs());
        if (numerical - analytical).abs() > tol {
            failed.push(format!(
                "pixel ({y},{x}) channel {c}: numerical {numerical:.4} vs analytical {analytical:.4}"
            ));
        }
    }
    assert!(
        failed.is_empty(),
        "loss gradient mismatches:\n  {}",
        failed.join("\n  ")
    );
}

#[test]
fn backward_refuses_sums_that_do_not_fit() {
    let pred = vec![F(0.5); 4 * 5 * 3];
    let gt = vec![0u32; 20];
    let inp = input(&pred, &gt, (4, 5, 3), config(1.0, 1.0, None, false, 1.0));
    let wrong = vec![F(1.0); 4];
    assert_eq!(
        image_loss_backward(&inp, &wrong, None, BWD_TILE_LARGE),
        Err("dl_dpartials must be [planes, tiles]".to_owned())
    );
    let right = vec![F(1.0); 3];
    assert!(image_loss_backward(&inp, &right, None, BWD_TILE_LARGE).is_ok());
}

#[test]
fn tracked_forward_keeps_partials_only_where_they_are_used() {
    let pred = vec![F(0.5); 4 * 5 * 3];
    let gt = vec![0x80402010u32; 20];
    let with = config(1.0, 0.5, None, false, 0.0);
    let without = config(1.0, 0.0, None, false, 0.0);
    let kept = image_loss_tracked(&input(&pred, &gt, (4, 5, 3), with), true, true);
    assert_eq!(kept.1.expect("kept").len(), 9 * 20);
    assert!(image_loss_tracked(&input(&pred, &gt, (4, 5, 3), with), false, true).1.is_none());
    assert!(image_loss_tracked(&input(&pred, &gt, (4, 5, 3), with), true, false).1.is_none());
    assert!(image_loss_tracked(&input(&pred, &gt, (4, 5, 3), without), true, true).1.is_none());
    assert!(keeps_loss_partials(&with, true, true) && !keeps_loss_partials(&with, true, false));
}

#[test]
fn empty_images_have_no_tiles() {
    let pred: Vec<F> = Vec::new();
    let gt: Vec<u32> = Vec::new();
    let inp = input(&pred, &gt, (0, 7, 3), config(1.0, 0.5, None, false, 0.0));
    assert!(image_loss_eval(&inp).is_empty());
    assert!(image_loss_partials(&inp).is_empty());
    assert_eq!(image_loss_backward(&inp, &pred, None, BWD_TILE_LARGE), Ok(Vec::new()));
}

#[test]
fn coords_map_margins_to_the_image() {
    assert_eq!(coords(0, 0, 5, 5, 5, 10, 10), (0, 0, false));
    assert_eq!(coords(0, 0, 4, 9, 5, 10, 10), (0, 0, true));
    assert_eq!(coords(16, 16, 6, 8, 5, 20, 20), (17, 19, false));
    assert_eq!(coords(16, 16, 6, 9, 5, 20, 20), (0, 0, true));
    assert_eq!(coords(16, 16, 9, 8, 5, 20, 20), (0, 0, true));
}

#[test]
fn grids_cover_the_image() {
    assert_eq!(loss_tiles(17, 19), 4);
    assert_eq!(loss_tiles(16, 16), 1);
    assert_eq!(loss_tiles(0, 16), 0);
    assert_eq!(cube_count_3d(3, 17, 33), (3, 2, 3));
    assert_eq!(cube_count_3d_bwd(4, 17, 33, 8), (5, 3, 4));
}

#[test]
fn weights_average_over_the_pixels() {
    let weights = channel_weights(&config(1.0, 0.0, None, false, 0.5), 4, 5);
    assert_eq!(weights.rgb, F(1.0 / 60.0));
    assert_eq!(weights.alpha, F(0.5 / 20.0));
}

#[test]
fn tile_sum_adds_every_value() {
    let values: Vec<F> = (0..256).map(|i| F(i as f32)).collect();
    assert_eq!(tile_sum(&values), F(32640.0));
}

#[test]
fn unpacked_pixels_are_composited() {
    let gt = vec![0xff_03_02_01u32, 0x00_ff_00_33u32];
    let plain = unpack_gt_rgb::<F>(&gt, None);
    assert_eq!(plain.len(), 6);
    assert_eq!(plain[0], F(1.0 / 255.0));
    assert_eq!(plain[5], F(255.0 * (1.0 / 255.0)));
    let bg = Some(Rgb {
        r: F(0.25),
        g: F(0.5),
        b: F(0.75),
    });
    let over = unpack_gt_rgb(&gt, bg);
    assert_eq!(over[3], F(0x33 as f32 * (1.0 / 255.0) + 1.0 * 0.25));
    assert_eq!(over[4], F(0.5));
    assert!((over[0].0 - 1.0 / 255.0).abs() < 1e-6);
}

#[test]
fn one_pixel_is_unpacked_like_the_image() {
    let bg = Some(Rgb {
        r: F(0.25),
        g: F(0.5),
        b: F(0.75),
    });
    let pixel = 0x00_ff_00_33u32;
    let over = unpack_gt_rgb(&vec![pixel], bg);
    assert_eq!(unpack_gt_rgb_kernel(pixel, bg), (over[0], over[1], over[2]));
    assert_eq!(unpack_gt_rgb_kernel::<F>(0xff_00_ff_00, None), (F(0.0), F(255.0 * (1.0 / 255.0)), F(0.0)));
}

#[test]
fn loss_is_the_sum_of_the_tiles() {
    let (h, w) = (16, 24);
    let bytes = make_pattern(h, w, 17, 5);
    let pred: Vec<F> = bytes.iter().map(|b| F(*b as f32 / 300.0)).collect();
    let gt = pack_rgba(&bytes);
    let inp = input(&pred, &gt, (h, w, 4), config(1.0, 0.0, None, false, 1.0));
    let mut sum = F(0.0);
    for part in image_loss_partials(&inp) {
        sum = sum.plus(part);
    }
    assert_eq!(image_loss(&inp), sum);
    assert!(sum.0 > 0.0);
}

#[test]
fn blur_weights_are_a_bell_curve() {
    let taps: Vec<F> = gauss_taps();
    let expected = expected_taps();
    assert_eq!(taps.len(), 11);
    for (tap, expected) in taps.iter().zip(expected) {
        assert_eq!(tap.0, expected);
    }
    assert!((taps.iter().map(|t| t.0).sum::<f32>() - 1.0).abs() < 1e-6);
}

#[test]
fn gradient_kernel_takes_weights_as_given() {
    let pred = vec![F(1.0); 51];
    let gt = vec![0u32; 17];
    let upstream: Vec<F> = [1.0, 10.0, 2.0, 20.0, 3.0, 30.0].map(F).to_vec();
    let inp = input(&pred, &gt, (1, 17, 3), config(1.0, 0.0, None, false, 0.0));
    let weights = ChannelWeights { rgb: F(1.0), alpha: F(0.0) };
    for c in 0..3u32 {
        for tile_x0 in [0, 8, 16] {
            let out = image_loss_backward_kernel(
                &inp, &upstream, None, &weights, false, true, c, 0, tile_x0, 8,
            );
            for x in tile_x0..17.min(tile_x0 + 8) {
                let expected = if x < 16 { 1.0 } else { 10.0 } * (c + 1) as f32;
                assert_eq!(out[(x - tile_x0) as usize], F(expected));
            }
        }
    }
}
