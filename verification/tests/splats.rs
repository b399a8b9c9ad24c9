//! Splat tables, coefficient layout, validation, bit patterns, and text.

use brush::float_bits;
use brush::gaussian_splats::{SplatRenderMode, Splats};
use brush::sh::{
    num_sh_coeffs, read_coeff, sh_coeffs_for_degree, sh_color_component, sh_degree_from_coeffs,
    write_coeff,
};
use brush::sh_grad_materialize::{
    build_compact_sh_map_kernel, materialize_compact_sh_grad, materialize_dense_sh_grad,
    ShGradTerm,
};
use brush::text;
use brush::validation::{
    check_shapes, enabled, first_fault, gradient_name, is_bench_run, scan_values, set_enabled,
    splat_ranges, validation_failure, ValidationState,
};

#[test]
fn splats_join_and_part_their_columns() {
    let splats = Splats::from_raw(
        &vec![1, 2, 3, 11, 12, 13],
        &vec![4, 5, 6, 7, 14, 15, 16, 17],
        &vec![8, 9, 10, 18, 19, 20],
        vec![0; 24],
        vec![100, 200],
        SplatRenderMode::Default,
    );
    assert_eq!(splats.transforms, (1..=20).collect::<Vec<i32>>());
    assert_eq!(splats.means(), vec![1, 2, 3, 11, 12, 13]);
    assert_eq!(splats.rotations(), vec![4, 5, 6, 7, 14, 15, 16, 17]);
    assert_eq!(splats.log_scales(), vec![8, 9, 10, 18, 19, 20]);
    assert_eq!((splats.num_splats(), splats.sh_degree()), (2, 1));
    assert!(!splats.render_mip && splats.min_scale.is_none());
    let floored = splats.with_min_scale(vec![5, 6]);
    assert_eq!(floored.min_scale, Some(vec![5, 6]));
}

#[test]
fn degrees_pad_and_truncate_coefficients() {
    let splats = Splats::from_raw(
        &vec![0; 6],
        &vec![0; 8],
        &vec![0; 6],
        vec![1, 2, 3, 4, 5, 6],
        vec![0, 0],
        SplatRenderMode::Mip,
    );
    let wider = splats.with_sh_degree(1, 9);
    assert_eq!(wider.coeffs_per_channel, 4);
    assert_eq!(&wider.sh_coeffs[0..12], &[1, 2, 3, 9, 9, 9, 9, 9, 9, 9, 9, 9]);
    assert_eq!(&wider.sh_coeffs[12..15], &[4, 5, 6]);
    let back = wider.with_sh_degree(0, 9);
    assert_eq!(back.sh_coeffs, vec![1, 2, 3, 4, 5, 6]);
    let widest = back.with_sh_degree(6, 9);
    assert_eq!((widest.coeffs_per_channel, widest.sh_coeffs.len()), (49, 294));
    assert_eq!(&widest.sh_coeffs[146..151], &[9, 4, 5, 6, 9]);
}

#[test]
fn coefficient_counts_and_degrees() {
    for degree in 0..=4 {
        assert_eq!(num_sh_coeffs(degree), (degree + 1) * (degree + 1));
        assert_eq!(sh_degree_from_coeffs(sh_coeffs_for_degree(degree)), degree);
    }
    let picks: Vec<char> = (0..5).map(|i| sh_color_component(i, 'r', 'g', 'b')).collect();
    assert_eq!(picks, ['r', 'g', 'b', 'r', 'g']);
    let mut row = vec![0; 7];
    write_coeff(&mut row, 3, (7, 8, 9));
    assert_eq!(row, vec![0, 0, 0, 7, 8, 9, 0]);
    assert_eq!(read_coeff(&row, 4), (8, 9, 0));
}

#[test]
fn gradient_rows_are_products_or_zeros() {
    let mut map = vec![0; 4];
    let mut combined = vec![0u32; 30];
    combined[5] = 1.0f32.to_bits();
    combined[10 + 7] = (-0.0f32).to_bits();
    combined[20 + 7] = f32::NAN.to_bits();
    build_compact_sh_map_kernel(&vec![3, 0, 1], &combined, &mut map, 3);
    assert_eq!(map, vec![0, 3, 0, 1]);
    let rows = materialize_dense_sh_grad(&map, 1);
    assert_eq!(rows.len(), 4 * 12);
    assert_eq!(rows[0], ShGradTerm::Zero);
    assert_eq!(rows[12 + 7], ShGradTerm::Product { compact_gid: 2, basis: 2, channel: 1 });
    assert_eq!(rows[3 * 12 + 11], ShGradTerm::Product { compact_gid: 0, basis: 3, channel: 2 });
    let compact = materialize_compact_sh_grad(2, 0);
    assert_eq!(compact[0..3], [ShGradTerm::Zero; 3]);
    assert_eq!(compact[8], ShGradTerm::Product { compact_gid: 1, basis: 0, channel: 2 });
}

#[test]
fn values_are_scanned() {
    let bits = |v: &[f32]| -> Vec<u32> { v.iter().map(|x| x.to_bits()).collect() };
    let values = bits(&[0.0, f32::NAN, -2.0, f32::INFINITY, 7.0, f32::NEG_INFINITY]);
    let scan = scan_values(&values, Some((-1.0f32).to_bits()), Some(5.0f32.to_bits()));
    assert_eq!(scan.total, 6);
    assert_eq!((scan.nan_count, scan.inf_count, scan.below_min_count, scan.above_max_count), (1, 2, 1, 1));
    assert_eq!((scan.first_nan, scan.first_inf), (Some(1), Some(3)));
    assert_eq!(validation_failure("means", &scan), Some("tensor 'means' has 1 NaNs (first @ Some(1))".to_string()));
    let infinite = scan_values(&bits(&[f32::INFINITY]), None, None);
    assert_eq!(validation_failure("x", &infinite), Some("tensor 'x' has 1 Infs (first @ Some(0))".to_string()));
    let clean = scan_values(&bits(&[9.0]), None, Some(0.0f32.to_bits()));
    assert_eq!(clean.above_max_count, 1);
    assert_eq!(validation_failure("x", &clean), None);
    assert!(gradient_name("means").contains("means"));
}

#[test]
fn validation_is_settled_once() {
    let mut state = ValidationState::Unset;
    assert!(enabled(&mut state, true, false));
    assert!(enabled(&mut state, true, true));
    let mut state = ValidationState::Unset;
    assert!(!enabled(&mut state, true, true));
    set_enabled(&mut state, true);
    assert!(enabled(&mut state, false, true));
    assert!(is_bench_run(&vec!["x".to_string(), "--bench".to_string()]));
    assert!(!is_bench_run(&vec!["x".to_string()]));
}

#[test]
fn bit_patterns_order_as_numbers() {
    let values = [
        f32::NEG_INFINITY, -3.5, -1e-40, -0.0, 0.0, 1e-40, 1.0, 3.5, f32::MAX, f32::INFINITY, f32::NAN,
        -f32::NAN,
    ];
    for a in values {
        let x = a.to_bits();
        assert_eq!(float_bits::nan(x), a.is_nan());
        assert_eq!(float_bits::infinite(x), a.is_infinite());
        assert_eq!(float_bits::zero(x), a == 0.0);
        for b in values {
            assert_eq!(float_bits::less(x, b.to_bits()), a < b, "{a} < {b}");
        }
    }
}

#[test]
fn white_space_is_that_of_unicode() {
    for c in (0..=0x10ffffu32).filter_map(char::from_u32) {
        assert_eq!(text::char_is_white_space(c), c.is_whitespace(), "{c:?}");
    }
}

#[test]
fn texts_are_cut_and_joined() {
    assert_eq!(text::trim(" \u{a0}a b\t\n"), "a b");
    assert_eq!(text::trim(" \n"), "");
    assert_eq!(text::split_words(" a  b\u{3000}c"), ["a", "b", "c"]);
    assert_eq!(text::split_pieces("[1,2 3]", true), ["1", "2", "3"]);
    assert_eq!(text::strip_prefix("f_rest_7", "f_rest_"), Some("7"));
    assert_eq!(text::strip_prefix("f_dc_7", "f_rest_"), None);
    assert_eq!(text::strip_prefix("\u{e9}x", "\u{e9}"), Some("x"));
    assert!(text::eq_ignore_ascii_case("FaLsE", "false"));
    assert!(!text::eq_ignore_ascii_case("\u{c9}", "\u{e9}"));
    assert!(text::same_text("a", "a") && !text::same_text("a", "ab"));
    assert_eq!(text::chars_of("a\u{e9}"), ['a', '\u{e9}']);
    let parts = vec!["a".to_string(), "b".to_string()];
    assert_eq!(text::join(&parts, ", "), "a, b");
    assert_eq!(text::join(&vec![], ", "), "");
}

#[test]
fn numbers_are_written_and_read() {
    for n in [0, 7, 10, 4_294_967_295, u64::MAX] {
        assert_eq!(text::decimal(n), n.to_string());
        assert_eq!(text::parse_unsigned(&n.to_string(), u64::MAX), Some(n));
    }
    let mut s = "n = ".to_string();
    text::push_decimal(&mut s, 105);
    assert_eq!(s, "n = 105");
    for s in ["", "+", "-", "+7", "-7", "007", "1_0", " 1", "256", "18446744073709551616"] {
        assert_eq!(text::parse_unsigned(s, u8::MAX as u64), s.parse::<u8>().ok().map(u64::from), "{s}");
        assert_eq!(text::parse_unsigned(s, u64::MAX), s.parse::<u64>().ok(), "{s}");
    }
}

#[test]
fn splats_are_checked_against_ranges() {
    let ranges: Vec<(&str, Option<f32>, Option<f32>)> = splat_ranges()
        .iter()
        .map(|r| (r.name, r.min.map(f32::from_bits), r.max.map(f32::from_bits)))
        .collect();
    assert_eq!(
        ranges,
        vec![
            ("means", None, None),
            ("rotations", None, None),
            ("log_scales", Some(-10.0), Some(10.0)),
            ("scales", Some(1e-20), Some(10000.0)),
            ("sh_coeffs", Some(-5.0), Some(5.0)),
            ("raw_opacity", Some(-20.0), Some(20.0)),
            ("opacities", Some(0.0), Some(1.0)),
            ("scales", Some(1e-6), Some(100.0)),
        ]
    );
    let mut tensors = vec![vec![0.5f32.to_bits(); 3]; 8];
    // Out of range is no fault, not finite is one.
    tensors[6][0] = 7.0f32.to_bits();
    assert_eq!(first_fault(&tensors), None);
    tensors[4][1] = f32::INFINITY.to_bits();
    tensors[5][0] = f32::NAN.to_bits();
    assert_eq!(first_fault(&tensors), Some((4, "tensor 'sh_coeffs' has 1 Infs (first @ Some(1))".to_string())));
}

#[test]
fn splat_shapes_are_checked() {
    let fault = |r: Result<(), String>| r.unwrap_err();
    assert_eq!(check_shapes(5, 10, 5, 5, 3), Ok(()));
    assert_eq!(fault(check_shapes(5, 9, 5, 5, 3)), "Transforms must be 10D (means(3) + quats(4) + log_scales(3))");
    assert_eq!(fault(check_shapes(5, 10, 4, 5, 3)), "Inconsistent number of splats in opacity");
    assert_eq!(fault(check_shapes(5, 10, 5, 5, 4)), "SH coeffs must have 3 color channels");
    assert_eq!(fault(check_shapes(5, 10, 5, 6, 3)), "Inconsistent number of splats in SH coeffs");
}
