//! Scans, sorting, tile offsets, and the mapping of splats to tiles.

use brush::get_tile_offset::get_tile_offsets;
use brush::map_gaussians::{map_gaussians_to_intersect_kernel, SplatTiles, TileBbox};
use brush::prefix_sum;
use brush::scan;
use brush::sort::radix_argsort;

const PLANE: usize = 32;

fn running(data: &[u32]) -> Vec<u32> {
    data.iter()
        .scan(0u32, |sum, value| {
            *sum = sum.wrapping_add(*value);
            Some(*sum)
        })
        .collect()
}

fn mixed_data() -> Vec<u32> {
    let mut data = vec![];
    for i in 0..512 * 16 + 123u32 {
        data.extend([2 + i, 0, 32, 512, 30965]);
    }
    data
}

#[test]
fn test_sum_tiny() {
    assert_eq!(prefix_sum::prefix_sum(&vec![1, 1, 1, 1]), [1, 2, 3, 4]);
}

#[test]
fn test_workgroup_multiple() {
    let data: Vec<u32> = (0..1024).map(|i| 90 + i).collect();
    assert_eq!(prefix_sum::prefix_sum(&data), running(&data));
}

#[test]
fn test_empty() {
    assert_eq!(prefix_sum::prefix_sum(&vec![]).len(), 0);
}

#[test]
fn test_workgroup_boundaries() {
    for len in [255u32, 256, 257] {
        let data: Vec<u32> = (0..len).map(|i| i % 7).collect();
        assert_eq!(prefix_sum::prefix_sum(&data), running(&data), "length {len}");
    }
}

#[test]
fn test_sum() {
    let data = mixed_data();
    assert_eq!(prefix_sum::prefix_sum(&data), running(&data));
}

#[test]
fn prefix_sum_wraps_around() {
    let data = vec![u32::MAX, 2, u32::MAX, 5];
    assert_eq!(prefix_sum::prefix_sum(&data), [u32::MAX, 1, 0, 5]);
    assert_eq!(scan::prefix_sum(&data, PLANE), [u32::MAX, 1, 0, 5]);
}

#[test]
fn block_scan_sums_tiny_lists() {
    assert_eq!(scan::prefix_sum(&vec![1, 1, 1, 1], PLANE), [1, 2, 3, 4]);
    assert_eq!(scan::prefix_sum(&vec![], PLANE).len(), 0);
}

#[test]
fn block_scan_agrees_for_every_plane_size() {
    let data = mixed_data();
    let expected = running(&data);
    for plane_dim in [8, 16, 32, 64, 128, 256] {
        assert_eq!(scan::prefix_sum(&data, plane_dim), expected, "planes of {plane_dim}");
    }
}

#[test]
fn test_block_boundaries() {
    // Around one block, two blocks, and the first second-level block.
    for len in [1023u32, 1024, 1025, 2048, 2049, 1024 * 1024, 1024 * 1024 + 1] {
        let data: Vec<u32> = (0..len).map(|i| i % 13).collect();
        let summed = scan::prefix_sum(&data, PLANE);
        assert!(summed == running(&data), "length {len}");
    }
}

#[test]
fn plane_and_cube_sums() {
    let values = vec![1, 2, 3, 4, 5, 6, 7, 8];
    assert_eq!(scan::plane_inclusive_sum(&values, 4), [1, 3, 6, 10, 5, 11, 18, 26]);
    assert_eq!(scan::plane_exclusive_sum(&values), [0, 1, 3, 6, 10, 15, 21, 28]);
    assert_eq!(scan::cube_exclusive_sum(&values, 4), (vec![0, 1, 3, 6, 10, 15, 21, 28], 36));
    assert_eq!(scan::cube_sum(&values, 2), 36);
}

#[test]
fn empty_sort_returns_empty_inputs() {
    let (keys, values) = radix_argsort(&vec![], &vec![], 32, PLANE);
    assert_eq!(keys.len(), 0);
    assert_eq!(values.len(), 0);
}

#[test]
fn sort_is_stable_for_every_pass_count_and_preserves_inputs() {
    const LEN: usize = 4_099;
    const SORTING_BITS: [u32; 11] = [0, 4, 8, 12, 13, 14, 15, 16, 20, 28, 32];

    // Repeat full-width keys while distributing their bits across the u32
    // range. Unique values make equal-key stability observable.
    let keys_inp: Vec<u32> = (0..LEN)
        .map(|i| {
            let group = ((i * 73) % 1_021) as u32;
            group.wrapping_mul(0x9E37_79B9).rotate_left(7) ^ 0xA5A5_5A5A
        })
        .collect();
    let values_inp: Vec<u32> = (0..LEN as u32).collect();

    for sorting_bits in SORTING_BITS {
        let effective_bits = sorting_bits.div_ceil(4) * 4;
        let mask = if effective_bits == 32 { u32::MAX } else { (1u32 << effective_bits) - 1 };
        let mut expected_indices: Vec<usize> = (0..LEN).collect();
        expected_indices.sort_by_key(|&i| keys_inp[i] & mask);
        let expected_keys: Vec<u32> = expected_indices.iter().map(|&i| keys_inp[i]).collect();
        let expected_values: Vec<u32> = expected_indices.iter().map(|&i| values_inp[i]).collect();

        let original_keys = keys_inp.clone();
        let original_values = values_inp.clone();
        let (ret_keys, ret_values) = radix_argsort(&keys_inp, &values_inp, sorting_bits, PLANE);
        assert_eq!(ret_keys, expected_keys, "keys differ at {sorting_bits} bits");
        assert_eq!(ret_values, expected_values, "sort is unstable at {sorting_bits} bits");
        assert_eq!(keys_inp, original_keys, "input keys mutated at {sorting_bits} bits");
        assert_eq!(values_inp, original_values, "input values mutated at {sorting_bits} bits");
    }
}

#[test]
fn test_sorting() {
    for i in 0..128u32 {
        let keys_inp = vec![
            5 + i * 4, i, 6, 123, 74657, 123, 999, 2u32.pow(24) + 123, 6, 7, 8, 0, i * 2, 16 + i,
            128 * i,
        ];
        let values_inp: Vec<u32> = keys_inp.iter().map(|x| x * 2 + 5).collect();
        let (ret_keys, ret_values) = radix_argsort(&keys_inp, &values_inp, 32, PLANE);
        let mut inds: Vec<usize> = (0..keys_inp.len()).collect();
        inds.sort_by_key(|&i| keys_inp[i]);
        let ref_keys: Vec<u32> = inds.iter().map(|&i| keys_inp[i]).collect();
        let ref_values: Vec<u32> = inds.iter().map(|&i| values_inp[i]).collect();
        assert_eq!(ret_keys, ref_keys);
        assert_eq!(ret_values, ref_values);
    }
}

#[test]
fn sort_of_many_runs() {
    let mut state = 0x0dea_5eedu32;
    let mut next = |below: u32| {
        state = state.wrapping_mul(1_664_525).wrapping_add(1_013_904_223);
        (state >> 8) % below
    };
    let mut keys_inp = Vec::new();
    for i in 0..300u32 {
        let start = i + next(150);
        for j in start..start + next(250) {
            if next(2) == 0 {
                keys_inp.push(j);
            }
        }
    }
    let values_inp: Vec<u32> = (0..keys_inp.len() as u32).collect();
    for plane_dim in [16, 64] {
        let (ret_keys, ret_values) = radix_argsort(&keys_inp, &values_inp, 32, plane_dim);
        let mut inds: Vec<usize> = (0..keys_inp.len()).collect();
        inds.sort_by_key(|&i| keys_inp[i]);
        let ref_values: Vec<u32> = inds.iter().map(|&i| i as u32).collect();
        assert_eq!(ret_values, ref_values);
        assert!(ret_keys.windows(2).all(|w| w[0] <= w[1]));
    }
}

#[test]
fn coalesced_walk_finds_runs_across_workgroup_boundaries() {
    const NUM_TILES: u32 = 8;
    let run_lengths = [31usize, 1, 223, 1, 1_791, 1, 17, 0];
    let mut tile_ids: Vec<u32> = Vec::new();
    let mut expected = vec![0u32; NUM_TILES as usize * 2];

    for (tile_id, run_len) in run_lengths.into_iter().enumerate() {
        if run_len == 0 {
            continue;
        }
        let start = tile_ids.len() as u32;
        tile_ids.extend(std::iter::repeat(tile_id as u32).take(run_len));
        let end = tile_ids.len() as u32;
        expected[tile_id * 2] = start;
        expected[tile_id * 2 + 1] = end;
    }

    // Sentinel rows are sorted after every valid tile and must not write
    // past the end of the offsets. Keep a partial final workgroup.
    tile_ids.extend(std::iter::repeat(NUM_TILES).take(13));
    let num_inter = tile_ids.len() as u32;
    let mut offsets = vec![0u32; NUM_TILES as usize * 2];
    get_tile_offsets(num_inter, NUM_TILES, &tile_ids, &mut offsets);
    assert_eq!(offsets, expected);
}

#[test]
fn splats_are_mapped_to_the_tiles_they_touch() {
    let splat = |min_x, min_y, max_x, max_y, contributes| SplatTiles {
        bbox: TileBbox { min_x, min_y, max_x, max_y },
        contributes,
    };
    let splats = vec![
        splat(0, 0, 2, 1, vec![true, true]),
        splat(1, 0, 3, 2, vec![true, false, false, true]),
    ];
    let mut tile_ids = vec![77; 6];
    let mut gids = vec![77; 6];
    map_gaussians_to_intersect_kernel(&splats, &vec![2, 5], &mut tile_ids, &mut gids, 3, 2);
    // The spare slot of the second splat gets the id after the last tile.
    assert_eq!(tile_ids, [0, 1, 1, 5, 6, 77]);
    assert_eq!(gids, [0, 0, 1, 1, 1, 77]);
}
