//! Least-significant-digit radix sort of key-value pairs, one 4-bit digit per
//! pass, in the five stages of a pass: count, reduce, scan, scan-add, scatter.

use crate::counting;
use crate::scan;
use crate::scan::{block_scan, cube_exclusive_sum, cube_sum, lds_index, load_block};
use crate::sums;
use vstd::prelude::*;

verus! {

pub const BITS_PER_PASS: u32 = 4;

pub const BIN_COUNT: u32 = 16;

/// The digit of `key` that starts at bit `shift`.
pub open spec fn digit(key: u32, shift: u32) -> int {
    ((key >> shift) & 0xfu32) as int
}

/// The digits of a sequence of keys.
pub open spec fn digits(s: Seq<u32>, shift: u32) -> Seq<int> {
    Seq::new(s.len(), |i: int| digit(s[i], shift))
}

/// Slot of column `g` of row `d` in a row-major table of `width` columns.
pub open spec fn bin_slot(width: int, d: int, g: int) -> int {
    d * width + g
}

/// End of the block that starts at `start`, cut off at `len`.
pub open spec fn block_end(start: int, len: int) -> int {
    if start + 1024 < len {
        start + 1024
    } else {
        len
    }
}

proof fn lemma_bin_slot(width: int, rows: int, d: int, g: int)
    requires
        0 <= d < rows,
        0 <= g < width,
    ensures
        0 <= bin_slot(width, d, g) < rows * width,
        bin_slot(width, d, g) / width == d,
        bin_slot(width, d, g) % width == g,
{
    assert(d * width + g < rows * width && 0 <= d * width) by (nonlinear_arith)
        requires
            0 <= d < rows,
            0 <= g < width,
    ;
    vstd::arithmetic::div_mod::lemma_fundamental_div_mod_converse(
        bin_slot(width, d, g),
        width,
        d,
        g,
    );
}

proof fn lemma_bin_slot_split(width: int, rows: int, k: int)
    requires
        width > 0,
        0 <= k < rows * width,
    ensures
        0 <= k / width < rows,
        0 <= k % width < width,
        k == bin_slot(width, k / width, k % width),
{
    vstd::arithmetic::div_mod::lemma_fundamental_div_mod(k, width);
    assert(k / width < rows && 0 <= k / width) by (nonlinear_arith)
        requires
            k == width * (k / width) + k % width,
            0 <= k % width < width,
            0 <= k < rows * width,
    ;
    assert(width * (k / width) == (k / width) * width) by (nonlinear_arith);
}

proof fn lemma_bin_slot_step(width: int, d: int, g: int)
    ensures
        bin_slot(width, d, g + 1) == bin_slot(width, d, g) + 1,
        bin_slot(width, d, width) == bin_slot(width, d + 1, 0),
        bin_slot(width, 0, 0) == 0,
{
    assert((d + 1) * width == d * width + width) by (nonlinear_arith);
    assert(0 * width == 0) by (nonlinear_arith);
}

fn div_ceil(a: usize, b: usize) -> (r: usize)
    requires
        b > 0,
        a + b - 1 <= usize::MAX,
    ensures
        r == (a + b - 1) / (b as int),
{
    (a + (b - 1)) / b
}

fn key_digit(key: u32, shift: u32) -> (r: u32)
    requires
        shift <= 28,
    ensures
        r == digit(key, shift),
        r < 16,
{
    let r: u32 = (key >> shift) & 0xfu32;
    assert(r < 16) by {
        let x: u32 = key >> shift;
        assert(x & 0xfu32 < 16) by (bit_vector);
    }
    r
}

/// Counts the digits of every block: one row per digit, one column per block.
pub fn sort_count_kernel(src: &Vec<u32>, shift: u32) -> (counts: Vec<u32>)
    requires
        src.len() + 1023 <= u32::MAX,
        shift <= 28,
    ensures
        counts.len() == 16 * scan::block_count(src.len() as int),
        forall|d: int, g: int|
            0 <= d < 16 && 0 <= g < scan::block_count(src.len() as int)
                ==> counts[#[trigger] bin_slot(scan::block_count(src.len() as int), d, g)]
                == counting::count_class(
                digits(src@, shift),
                d,
                1024 * g,
                block_end(1024 * g, src.len() as int),
            ),
{
    let num_keys: usize = src.len();
    let num_wgs: usize = div_ceil(num_keys, 1024);
    let ghost nw = num_wgs as int;
    let ghost ds = digits(src@, shift);
    let mut counts: Vec<u32> = vec![0u32; 16 * num_wgs];
    let mut group_id: usize = 0;
    while group_id < num_wgs
        invariant
            num_keys == src.len(),
            num_keys + 1023 <= u32::MAX,
            shift <= 28,
            nw == num_wgs,
            nw == scan::block_count(num_keys as int),
            ds == digits(src@, shift),
            group_id <= num_wgs,
            counts.len() == 16 * num_wgs,
            forall|d: int, g: int|
                0 <= d < 16 && 0 <= g < group_id ==> counts[#[trigger] bin_slot(nw, d, g)]
                    == counting::count_class(
                    ds,
                    d,
                    1024 * g,
                    block_end(1024 * g, num_keys as int),
                ),
        decreases num_wgs - group_id,
    {
        let mut histogram: Vec<u32> = vec![0u32; 16];
        let start: usize = 1024 * group_id;
        let end: usize = if num_keys - start > 1024 {
            start + 1024
        } else {
            num_keys
        };
        let mut data_index: usize = start;
        while data_index < end
            invariant
                num_keys == src.len(),
                shift <= 28,
                ds == digits(src@, shift),
                start <= data_index <= end,
                end <= num_keys,
                end <= start + 1024,
                histogram.len() == 16,
                forall|d: int|
                    0 <= d < 16 ==> #[trigger] histogram[d] == counting::count_class(
                        ds,
                        d,
                        start as int,
                        data_index as int,
                    ),
            decreases end - data_index,
        {
            let local_key: u32 = key_digit(src[data_index], shift);
            proof {
                counting::lemma_count_bounds(
                    counting::has_class(ds, local_key as int),
                    start as int,
                    data_index as int,
                );
            }
            let h: u32 = histogram[local_key as usize];
            histogram.set(local_key as usize, h + 1);
            data_index = data_index + 1;
        }
        let mut bin: usize = 0;
        while bin < 16
            invariant
                nw == num_wgs,
                group_id < num_wgs,
                bin <= 16,
                counts.len() == 16 * num_wgs,
                histogram.len() == 16,
                start == 1024 * group_id,
                end == block_end(start as int, num_keys as int),
                16 * num_wgs <= usize::MAX,
                forall|d: int|
                    0 <= d < 16 ==> #[trigger] histogram[d] == counting::count_class(
                        ds,
                        d,
                        start as int,
                        end as int,
                    ),
                forall|d: int, g: int|
                    0 <= d < 16 && 0 <= g < group_id || 0 <= d < bin && g == group_id
                        ==> counts[#[trigger] bin_slot(nw, d, g)] == counting::count_class(
                        ds,
                        d,
                        1024 * g,
                        block_end(1024 * g, num_keys as int),
                    ),
            decreases 16 - bin,
        {
            proof {
                lemma_bin_slot(nw, 16, bin as int, group_id as int);
                assert forall|d: int, g: int|
                    0 <= d < 16 && 0 <= g < nw implies 0 <= #[trigger] bin_slot(nw, d, g) < 16 * nw
                    && (bin_slot(nw, d, g) == bin_slot(nw, bin as int, group_id as int) ==> d
                    == bin && g == group_id) by {
                    lemma_bin_slot(nw, 16, d, g);
                }
            }
            let slot: usize = bin * num_wgs + group_id;
            assert(slot == bin_slot(nw, bin as int, group_id as int));
            counts.set(slot, histogram[bin]);
            bin = bin + 1;
        }
        group_id = group_id + 1;
    }
    counts
}

/// The exclusive prefix of the table of block counts at row `d` and column
/// `g`: every smaller digit, and the digit `d` in the blocks before `g`.
proof fn lemma_count_prefix(src: Seq<u32>, shift: u32, counts: Seq<u32>, d: int, g: int)
    requires
        ({
            let nw = scan::block_count(src.len() as int);
            &&& counts.len() == 16 * nw
            &&& 0 <= d < 16
            &&& 0 <= g <= nw
            &&& forall|d: int, g: int|
                0 <= d < 16 && 0 <= g < nw ==> counts[#[trigger] bin_slot(nw, d, g)]
                    == counting::count_class(
                    digits(src, shift),
                    d,
                    1024 * g,
                    block_end(1024 * g, src.len() as int),
                )
        }),
    ensures
        ({
            let nw = scan::block_count(src.len() as int);
            let n = src.len() as int;
            sums::sum_range(counts, 0, bin_slot(nw, d, g)) == counting::count_below(
                digits(src, shift),
                d,
            ) + counting::count_class(
                digits(src, shift),
                d,
                0,
                if 1024 * g < n {
                    1024 * g
                } else {
                    n
                },
            )
        }),
    decreases d, g,
{
    let nw = scan::block_count(src.len() as int);
    let n = src.len() as int;
    let ds = digits(src, shift);
    if g > 0 {
        lemma_count_prefix(src, shift, counts, d, g - 1);
        lemma_bin_slot_step(nw, d, g - 1);
        lemma_bin_slot(nw, 16, d, g - 1);
        counting::lemma_count_split(
            counting::has_class(ds, d),
            0,
            1024 * (g - 1),
            block_end(1024 * (g - 1), n),
        );
        assert(counts[bin_slot(nw, d, g - 1)] == counting::count_class(
            ds,
            d,
            1024 * (g - 1),
            block_end(1024 * (g - 1), n),
        ));
    } else if d > 0 {
        lemma_count_prefix(src, shift, counts, d - 1, nw);
        lemma_bin_slot_step(nw, d - 1, 0);
        counting::lemma_count_below_step(ds, d - 1);
    } else {
        lemma_bin_slot_step(nw, 0, 0);
        lemma_no_digit_below_zero(src, shift, n);
    }
}

proof fn lemma_no_digit_below_zero(src: Seq<u32>, shift: u32, hi: int)
    requires
        0 <= hi <= src.len(),
    ensures
        counting::count_where(counting::below_class(digits(src, shift), 0), 0, hi) == 0,
    decreases hi,
{
    if hi > 0 {
        lemma_no_digit_below_zero(src, shift, hi - 1);
    }
}

/// Sums one block of a table row: every thread adds up the elements that it
/// strides over, and the cube adds up the threads.
fn sum_block(counts: &Vec<u32>, offset: usize, base: usize, limit: usize, plane_dim: usize) -> (total:
    u32)
    requires
        offset + limit <= counts.len(),
        base < limit,
        base + 1024 <= usize::MAX,
        scan::valid_plane_dim(scan::WG as int, plane_dim as int),
    ensures
        total == sums::wrap32(
            sums::sum_range(
                counts@,
                offset + base,
                offset + block_end(base as int, limit as int),
            ),
        ),
{
    let ghost c = Seq::new(
        1024,
        |k: int|
            if base + k < limit {
                counts[offset + base + k]
            } else {
                0u32
            },
    );
    let mut thread_sums: Vec<u32> = Vec::new();
    let mut u: usize = 0;
    while u < 256
        invariant
            u <= 256,
            offset + limit <= counts.len(),
            base + 1024 <= usize::MAX,
            c == Seq::new(
                1024,
                |k: int|
                    if base + k < limit {
                        counts[offset + base + k]
                    } else {
                        0u32
                    },
            ),
            thread_sums.len() == u,
            sums::wrap32(sums::sum_range(thread_sums@, 0, u as int)) == sums::wrap32(
                sums::sum_range(c, 0, u as int) + sums::sum_range(c, 256, 256 + u)
                    + sums::sum_range(c, 512, 512 + u) + sums::sum_range(c, 768, 768 + u),
            ),
        decreases 256 - u,
    {
        let mut sum: u32 = 0;
        let mut i: usize = 0;
        while i < 4
            invariant
                i <= 4,
                u < 256,
                offset + limit <= counts.len(),
                base + 1024 <= usize::MAX,
                c == Seq::new(
                    1024,
                    |k: int|
                        if base + k < limit {
                            counts[offset + base + k]
                        } else {
                            0u32
                        },
                ),
                sum == sums::wrap32(
                    (if i > 0 {
                        c[u as int] as int
                    } else {
                        0int
                    }) + (if i > 1 {
                        c[256 + u] as int
                    } else {
                        0int
                    }) + (if i > 2 {
                        c[512 + u] as int
                    } else {
                        0int
                    }) + (if i > 3 {
                        c[768 + u] as int
                    } else {
                        0int
                    }),
                ),
            decreases 4 - i,
        {
            let data_index: usize = base + i * 256 + u;
            let v: u32 = if data_index < limit {
                counts[offset + data_index]
            } else {
                0
            };
            proof {
                assert(v == c[i * 256 + u]);
                sums::lemma_wrapping_add(sum, v);
                let part = (if i > 0 {
                    c[u as int] as int
                } else {
                    0int
                }) + (if i > 1 {
                    c[256 + u] as int
                } else {
                    0int
                }) + (if i > 2 {
                    c[512 + u] as int
                } else {
                    0int
                });
                sums::lemma_wrap_add(part, v as int);
            }
            sum = sum.wrapping_add(v);
            i = i + 1;
        }
        let ghost before = thread_sums@;
        thread_sums.push(sum);
        proof {
            sums::lemma_sum_eq(before, thread_sums@, 0, u as int, 0);
            let rows = sums::sum_range(c, 0, u as int) + sums::sum_range(c, 256, 256 + u)
                + sums::sum_range(c, 512, 512 + u) + sums::sum_range(c, 768, 768 + u);
            let add = c[u as int] + c[256 + u] + c[512 + u] + c[768 + u];
            let acc = sums::sum_range(thread_sums@, 0, u as int);
            sums::lemma_wrap_add(acc, sum as int);
            sums::lemma_wrap_add(acc, add);
            sums::lemma_wrap_add(rows, add);
            sums::lemma_wrap_add(sums::wrap32(acc) as int, add);
        }
        u = u + 1;
    }
    proof {
        sums::lemma_sum_split(c, 0, 256, 512);
        sums::lemma_sum_split(c, 0, 512, 768);
        sums::lemma_sum_split(c, 0, 768, 1024);
        let end = block_end(base as int, limit as int) - base;
        sums::lemma_sum_split(c, 0, end, 1024);
        sums::lemma_sum_zero(c, end, 1024);
        sums::lemma_sum_eq(c, counts@, 0, end, offset + base);
    }
    cube_sum(&thread_sums, plane_dim)
}

/// Totals of every block of every row of the count table.
pub fn sort_reduce_kernel(num_keys: usize, counts: &Vec<u32>, plane_dim: usize) -> (reduced: Vec<u32>)
    requires
        num_keys + 1023 <= u32::MAX,
        counts.len() == 16 * scan::block_count(num_keys as int),
        scan::valid_plane_dim(scan::WG as int, plane_dim as int),
    ensures
        ({
            let nw = scan::block_count(num_keys as int);
            let per = scan::block_count(nw);
            &&& reduced.len() == 16 * per
            &&& forall|k: int|
                0 <= k < 16 * per ==> #[trigger] reduced[k] == sums::wrap32(
                    sums::sum_range(
                        counts@,
                        bin_slot(nw, k / per, 1024 * (k % per)),
                        bin_slot(nw, k / per, block_end(1024 * (k % per), nw)),
                    ),
                )
        }),
{
    let num_wgs: usize = div_ceil(num_keys, 1024);
    let per_bin: usize = div_ceil(num_wgs, 1024);
    let ghost nw = num_wgs as int;
    let ghost per = per_bin as int;
    let mut reduced: Vec<u32> = Vec::new();
    let mut group_id: usize = 0;
    while group_id < 16 * per_bin
        invariant
            num_keys + 1023 <= u32::MAX,
            counts.len() == 16 * num_wgs,
            scan::valid_plane_dim(scan::WG as int, plane_dim as int),
            nw == num_wgs,
            per == per_bin,
            nw == scan::block_count(num_keys as int),
            per == scan::block_count(nw),
            group_id <= 16 * per_bin,
            reduced.len() == group_id,
            forall|k: int|
                0 <= k < group_id ==> #[trigger] reduced[k] == sums::wrap32(
                    sums::sum_range(
                        counts@,
                        bin_slot(nw, k / per, 1024 * (k % per)),
                        bin_slot(nw, k / per, block_end(1024 * (k % per), nw)),
                    ),
                ),
        decreases 16 * per_bin - group_id,
    {
        proof {
            lemma_bin_slot_split(per, 16, group_id as int);
        }
        let bin_id: usize = group_id / per_bin;
        let chunk: usize = group_id % per_bin;
        proof {
            assert(bin_id * nw + nw <= 16 * nw && 0 <= bin_id * nw) by (nonlinear_arith)
                requires
                    0 <= bin_id < 16,
                    nw >= 0,
            ;
        }
        let total: u32 = sum_block(counts, bin_id * num_wgs, chunk * 1024, num_wgs, plane_dim);
        reduced.push(total);
        group_id = group_id + 1;
    }
    reduced
}

/// Exclusive scan of the block totals, one block at a time with a carry.
pub fn sort_scan_kernel(reduced: &mut Vec<u32>, plane_dim: usize)
    requires
        old(reduced).len() + 1023 <= u32::MAX,
        scan::valid_plane_dim(scan::WG as int, plane_dim as int),
    ensures
        final(reduced).len() == old(reduced).len(),
        forall|k: int|
            0 <= k < old(reduced).len() ==> #[trigger] final(reduced)[k] == sums::wrap32(
                sums::sum_range(old(reduced)@, 0, k),
            ),
{
    let n: usize = reduced.len();
    let ghost before = reduced@;
    let mut carry: u32 = 0;
    let mut chunk_start: usize = 0;
    while chunk_start < n
        invariant
            n == reduced.len(),
            n == before.len(),
            n + 1023 <= u32::MAX,
            scan::valid_plane_dim(scan::WG as int, plane_dim as int),
            chunk_start <= n + 1023,
            chunk_start < n ==> carry == sums::wrap32(
                sums::sum_range(before, 0, chunk_start as int),
            ),
            forall|k: int|
                0 <= k < n ==> #[trigger] reduced[k] == if k < chunk_start {
                    sums::wrap32(sums::sum_range(before, 0, k))
                } else {
                    before[k]
                },
        decreases n + 1023 - chunk_start,
    {
        let mut lds: Vec<u32> = load_block(reduced, 0, chunk_start, n);
        let ghost l = scan::block_order(lds@);
        let chunk_total: u32 = block_scan(&mut lds, carry, false, plane_dim);
        let mut lin: u32 = 0;
        while lin < scan::BLOCK_SIZE && chunk_start + (lin as usize) < n
            invariant
                n == reduced.len(),
                n == before.len(),
                n + 1023 <= u32::MAX,
                chunk_start < n,
                lin <= 1024,
                chunk_start + lin <= n,
                lds.len() == 1024,
                l.len() == 1024,
                carry == sums::wrap32(sums::sum_range(before, 0, chunk_start as int)),
                forall|k: int|
                    0 <= k < 1024 && chunk_start + k < n ==> #[trigger] l[k] == before[chunk_start
                        + k],
                forall|k: int|
                    0 <= k < 1024 ==> #[trigger] scan::block_order(lds@)[k] == sums::wrap32(
                        carry + sums::sum_range(l, 0, k),
                    ),
                forall|k: int|
                    0 <= k < n ==> #[trigger] reduced[k] == if k < chunk_start + lin {
                        sums::wrap32(sums::sum_range(before, 0, k))
                    } else {
                        before[k]
                    },
            decreases 1024 - lin,
        {
            let slot: u32 = lds_index(lin);
            proof {
                scan::lds_layout_is_a_permutation();
                assert(scan::block_order(lds@)[lin as int] == lds[slot as int]);
                sums::lemma_sum_eq(l, before, 0, lin as int, chunk_start as int);
                sums::lemma_sum_split(before, 0, chunk_start as int, chunk_start + lin);
                sums::lemma_wrap_add(
                    sums::sum_range(before, 0, chunk_start as int),
                    sums::sum_range(l, 0, lin as int),
                );
            }
            reduced.set(chunk_start + lin as usize, lds[slot as usize]);
            lin = lin + 1;
        }
        proof {
            sums::lemma_wrapping_add(carry, chunk_total);
            if chunk_start + 1024 < n {
                sums::lemma_sum_eq(l, before, 0, 1024, chunk_start as int);
                sums::lemma_sum_split(before, 0, chunk_start as int, chunk_start + 1024);
                sums::lemma_wrap_add(
                    sums::sum_range(before, 0, chunk_start as int),
                    sums::sum_range(l, 0, 1024),
                );
            }
        }
        carry = carry.wrapping_add(chunk_total);
        chunk_start = chunk_start + 1024;
    }
}

/// Element `i` of row `b` of a count table after its block offset is added.
spec fn added_offset(
    reduced: Seq<u32>,
    counts: Seq<u32>,
    nw: int,
    per: int,
    b: int,
    i: int,
) -> u32 {
    sums::wrap32(
        reduced[bin_slot(per, b, i / 1024)] + sums::sum_range(
            counts,
            bin_slot(nw, b, 1024 * (i / 1024)),
            bin_slot(nw, b, i),
        ),
    )
}

/// Turns block totals and block counts into one exclusive scan: every count is
/// replaced by its block's scanned total plus the counts before it in the block.
#[verifier::spinoff_prover]
#[verifier::rlimit(60)]
pub fn sort_scan_add_kernel(
    num_keys: usize,
    reduced: &Vec<u32>,
    counts: &mut Vec<u32>,
    plane_dim: usize,
)
    requires
        num_keys + 1023 <= u32::MAX,
        old(counts).len() == 16 * scan::block_count(num_keys as int),
        reduced.len() == 16 * scan::block_count(scan::block_count(num_keys as int)),
        scan::valid_plane_dim(scan::WG as int, plane_dim as int),
    ensures
        final(counts).len() == old(counts).len(),
        ({
            let nw = scan::block_count(num_keys as int);
            let per = scan::block_count(nw);
            forall|b: int, i: int|
                0 <= b < 16 && 0 <= i < nw ==> final(counts)[#[trigger] bin_slot(nw, b, i)]
                    == sums::wrap32(
                    reduced[bin_slot(per, b, i / 1024)] + sums::sum_range(
                        old(counts)@,
                        bin_slot(nw, b, 1024 * (i / 1024)),
                        bin_slot(nw, b, i),
                    ),
                )
        }),
{
    let num_wgs: usize = div_ceil(num_keys, 1024);
    let per_bin: usize = div_ceil(num_wgs, 1024);
    let ghost nw = num_wgs as int;
    let ghost per = per_bin as int;
    let ghost before = counts@;
    let mut bin_id: usize = 0;
    while bin_id < 16
        invariant
            num_keys + 1023 <= u32::MAX,
            scan::valid_plane_dim(scan::WG as int, plane_dim as int),
            nw == num_wgs,
            per == per_bin,
            nw == scan::block_count(num_keys as int),
            per == scan::block_count(nw),
            bin_id <= 16,
            counts.len() == 16 * num_wgs,
            before.len() == 16 * num_wgs,
            reduced.len() == 16 * per_bin,
            forall|b: int, i: int|
                0 <= b < 16 && 0 <= i < nw ==> counts[#[trigger] bin_slot(nw, b, i)] == if b
                    < bin_id {
                    added_offset(reduced@, before, nw, per, b, i)
                } else {
                    before[bin_slot(nw, b, i)]
                },
        decreases 16 - bin_id,
    {
        let mut chunk: usize = 0;
        while chunk < per_bin
            invariant
                num_keys + 1023 <= u32::MAX,
                scan::valid_plane_dim(scan::WG as int, plane_dim as int),
                nw == num_wgs,
                per == per_bin,
                nw == scan::block_count(num_keys as int),
                per == scan::block_count(nw),
                bin_id < 16,
                chunk <= per_bin,
                counts.len() == 16 * num_wgs,
                before.len() == 16 * num_wgs,
                reduced.len() == 16 * per_bin,
                forall|b: int, i: int|
                    0 <= b < 16 && 0 <= i < nw ==> counts[#[trigger] bin_slot(nw, b, i)] == if b
                        < bin_id || (b == bin_id && i < 1024 * chunk) {
                        added_offset(reduced@, before, nw, per, b, i)
                    } else {
                        before[bin_slot(nw, b, i)]
                    },
            decreases per_bin - chunk,
        {
            proof {
                assert(bin_id * nw + nw <= 16 * nw && 0 <= bin_id * nw) by (nonlinear_arith)
                    requires
                        0 <= bin_id < 16,
                        nw >= 0,
                ;
                lemma_bin_slot(per, 16, bin_id as int, chunk as int);
            }
            let bin_offset: usize = bin_id * num_wgs;
            let base: usize = chunk * 1024;
            let group_base: u32 = reduced[bin_id * per_bin + chunk];
            let mut lds: Vec<u32> = load_block(counts, bin_offset, base, num_wgs);
            let ghost l = scan::block_order(lds@);
            proof {
                assert forall|k: int| 0 <= k < 1024 && base + k < nw implies #[trigger] l[k]
                    == before[bin_offset + base + k] by {
                    assert(bin_slot(nw, bin_id as int, base + k) == bin_offset + base + k);
                    assert(counts[bin_slot(nw, bin_id as int, base + k)] == before[bin_slot(
                        nw,
                        bin_id as int,
                        base + k,
                    )]);
                }
            }
            block_scan(&mut lds, group_base, false, plane_dim);
            let mut lin: u32 = 0;
            while lin < scan::BLOCK_SIZE && base + (lin as usize) < num_wgs
                invariant
                    num_keys + 1023 <= u32::MAX,
                    nw == num_wgs,
                    per == per_bin,
                    nw == scan::block_count(num_keys as int),
                    bin_id < 16,
                    bin_offset == bin_id * nw,
                    bin_offset + nw <= 16 * nw,
                    base == 1024 * chunk,
                    base < nw,
                    group_base == reduced[bin_slot(per, bin_id as int, chunk as int)],
                    lin <= 1024,
                    base + lin <= nw,
                    lds.len() == 1024,
                    l.len() == 1024,
                    counts.len() == 16 * num_wgs,
                    before.len() == 16 * num_wgs,
                    forall|k: int|
                        0 <= k < 1024 && base + k < nw ==> #[trigger] l[k] == before[bin_offset
                            + base + k],
                    forall|k: int|
                        0 <= k < 1024 ==> #[trigger] scan::block_order(lds@)[k] == sums::wrap32(
                            group_base + sums::sum_range(l, 0, k),
                        ),
                    forall|b: int, i: int|
                        0 <= b < 16 && 0 <= i < nw ==> counts[#[trigger] bin_slot(nw, b, i)] == if b
                            < bin_id || (b == bin_id && i < base + lin) {
                            added_offset(reduced@, before, nw, per, b, i)
                        } else {
                            before[bin_slot(nw, b, i)]
                        },
                decreases 1024 - lin,
            {
                let slot: u32 = lds_index(lin);
                proof {
                    scan::lds_layout_is_a_permutation();
                    assert(scan::block_order(lds@)[lin as int] == lds[slot as int]);
                    sums::lemma_sum_eq(l, before, 0, lin as int, bin_offset + base);
                    let i = base + lin;
                    assert(i / 1024 == chunk);
                    assert(bin_slot(nw, bin_id as int, i) == bin_offset + i);
                    assert(bin_slot(nw, bin_id as int, 1024 * (i / 1024)) == bin_offset + base);
                    assert(added_offset(reduced@, before, nw, per, bin_id as int, i)
                        == lds[slot as int]);
                    assert forall|b: int, i2: int|
                        0 <= b < 16 && 0 <= i2 < nw implies 0 <= #[trigger] bin_slot(nw, b, i2) < 16
                        * nw && (bin_slot(nw, b, i2) == bin_slot(nw, bin_id as int, i) ==> b
                        == bin_id && i2 == i) by {
                        lemma_bin_slot(nw, 16, b, i2);
                        lemma_bin_slot(nw, 16, bin_id as int, i);
                    }
                }
                counts.set(bin_offset + base + lin as usize, lds[slot as usize]);
                lin = lin + 1;
            }
            chunk = chunk + 1;
        }
        bin_id = bin_id + 1;
    }
}

/// The totals of the blocks before block `c` of row `b` add up to the counts
/// before it.
proof fn lemma_reduced_prefix(nw: int, counts: Seq<u32>, reduced: Seq<u32>, b: int, c: int)
    requires
        0 <= nw,
        counts.len() == 16 * nw,
        0 <= b < 16,
        0 <= c <= scan::block_count(nw),
        reduced.len() == 16 * scan::block_count(nw),
        forall|k: int|
            0 <= k < 16 * scan::block_count(nw) ==> #[trigger] reduced[k] == sums::wrap32(
                sums::sum_range(
                    counts,
                    bin_slot(nw, k / scan::block_count(nw), 1024 * (k % scan::block_count(nw))),
                    bin_slot(
                        nw,
                        k / scan::block_count(nw),
                        block_end(1024 * (k % scan::block_count(nw)), nw),
                    ),
                ),
            ),
    ensures
        sums::wrap32(sums::sum_range(reduced, 0, bin_slot(scan::block_count(nw), b, c)))
            == sums::wrap32(
            sums::sum_range(
                counts,
                0,
                bin_slot(
                    nw,
                    b,
                    if 1024 * c < nw {
                        1024 * c
                    } else {
                        nw
                    },
                ),
            ),
        ),
    decreases b, c,
{
    let per = scan::block_count(nw);
    if c > 0 {
        lemma_reduced_prefix(nw, counts, reduced, b, c - 1);
        lemma_bin_slot_step(per, b, c - 1);
        lemma_bin_slot(per, 16, b, c - 1);
        let k = bin_slot(per, b, c - 1);
        let lo = bin_slot(nw, b, 1024 * (c - 1));
        let hi = bin_slot(nw, b, block_end(1024 * (c - 1), nw));
        assert(reduced[k] == sums::wrap32(sums::sum_range(counts, lo, hi)));
        assert(0 <= b * nw) by (nonlinear_arith)
            requires
                0 <= b,
                0 <= nw,
        ;
        sums::lemma_sum_split(counts, 0, lo, hi);
        sums::lemma_wrap_add(sums::sum_range(reduced, 0, k), reduced[k] as int);
        sums::lemma_wrap_add(sums::sum_range(counts, 0, lo), sums::sum_range(counts, lo, hi));
    } else if b > 0 {
        lemma_reduced_prefix(nw, counts, reduced, b - 1, per);
        lemma_bin_slot_step(per, b - 1, 0);
        lemma_bin_slot_step(nw, b - 1, 0);
    } else {
        lemma_bin_slot_step(per, 0, 0);
        lemma_bin_slot_step(nw, 0, 0);
    }
}

/// The offset of every digit in every block: the number of keys with a smaller
/// digit, and of keys with the same digit in earlier blocks.
pub fn bin_offsets(src: &Vec<u32>, shift: u32, plane_dim: usize) -> (counts: Vec<u32>)
    requires
        src.len() + 1023 <= u32::MAX,
        shift <= 28,
        scan::valid_plane_dim(scan::WG as int, plane_dim as int),
    ensures
        is_offset_table(src@, shift, counts@),
{
    let mut counts: Vec<u32> = sort_count_kernel(src, shift);
    let ghost table = counts@;
    let mut reduced: Vec<u32> = sort_reduce_kernel(src.len(), &counts, plane_dim);
    let ghost totals = reduced@;
    let ghost nw = scan::block_count(src.len() as int);
    let ghost per = scan::block_count(nw);
    sort_scan_kernel(&mut reduced, plane_dim);
    sort_scan_add_kernel(src.len(), &reduced, &mut counts, plane_dim);
    proof {
        let n = src.len() as int;
        let ds = digits(src@, shift);
        assert forall|d: int, g: int| 0 <= d < 16 && 0 <= g < nw implies counts[#[trigger] bin_slot(
            nw,
            d,
            g,
        )] == counting::count_below(ds, d) + counting::count_class(ds, d, 0, 1024 * g) by {
            let c = g / 1024;
            let lo = bin_slot(nw, d, 1024 * c);
            let hi = bin_slot(nw, d, g);
            lemma_bin_slot(per, 16, d, c);
            lemma_bin_slot(nw, 16, d, 1024 * c);
            assert(reduced[bin_slot(per, d, c)] == sums::wrap32(
                sums::sum_range(totals, 0, bin_slot(per, d, c)),
            ));
            lemma_reduced_prefix(nw, table, totals, d, c);
            sums::lemma_sum_split(table, 0, lo, hi);
            sums::lemma_wrap_add(sums::sum_range(table, 0, lo), sums::sum_range(table, lo, hi));
            lemma_count_prefix(src@, shift, table, d, g);
            lemma_offset_bounds(src@, shift, d, 1024 * g);
            sums::lemma_wrap_small(sums::sum_range(table, 0, hi));
        }
    }
    counts
}

/// `counts` holds, for digit `d` and block `g`, the number of keys with a
/// smaller digit plus the number of keys with digit `d` in the blocks before.
pub open spec fn is_offset_table(src: Seq<u32>, shift: u32, counts: Seq<u32>) -> bool {
    let nw = scan::block_count(src.len() as int);
    &&& counts.len() == 16 * nw
    &&& forall|d: int, g: int|
        0 <= d < 16 && 0 <= g < nw ==> counts[#[trigger] bin_slot(nw, d, g)]
            == counting::count_below(digits(src, shift), d) + counting::count_class(
            digits(src, shift),
            d,
            0,
            1024 * g,
        )
}

proof fn lemma_offset_bounds(src: Seq<u32>, shift: u32, d: int, i: int)
    requires
        0 <= i <= src.len(),
    ensures
        0 <= counting::count_below(digits(src, shift), d) + counting::count_class(
            digits(src, shift),
            d,
            0,
            i,
        ) <= src.len(),
{
    let ds = digits(src, shift);
    let n = src.len() as int;
    counting::lemma_count_below_step(ds, d);
    counting::lemma_count_bounds(counting::below_class(ds, d + 1), 0, n);
    counting::lemma_count_bounds(counting::below_class(ds, d), 0, n);
    counting::lemma_count_bounds(counting::has_class(ds, d), 0, i);
    counting::lemma_count_bounds(counting::has_class(ds, d), i, n);
    counting::lemma_count_split(counting::has_class(ds, d), 0, i, n);
}

/// The pair of bits of a key's digit that starts at bit `bit_shift` of it.
pub open spec fn bit_pair(key: u32, shift: u32, bit_shift: u32) -> int {
    ((((key >> shift) & 0xfu32) >> bit_shift) & 3u32) as int
}

spec fn bit_pairs(s: Seq<u32>, shift: u32, bit_shift: u32) -> Seq<int> {
    Seq::new(s.len(), |i: int| bit_pair(s[i], shift, bit_shift))
}

/// A one in the byte of a packed counter word that belongs to class `b`.
spec fn packed_one(b: int) -> int {
    if b == 0 {
        1
    } else if b == 1 {
        256
    } else if b == 2 {
        65536
    } else {
        16777216
    }
}

/// Four class counts packed into the bytes of a word.
spec fn packed_counts(c: Seq<int>, hi: int) -> int {
    counting::count_class(c, 0, 0, hi) + 256 * counting::count_class(c, 1, 0, hi) + 65536
        * counting::count_class(c, 2, 0, hi) + 16777216 * counting::count_class(c, 3, 0, hi)
}

proof fn lemma_packed_sum(c: Seq<int>, packed: Seq<u32>, hi: int)
    requires
        0 <= hi <= c.len(),
        packed.len() == c.len(),
        forall|i: int| 0 <= i < c.len() ==> 0 <= #[trigger] c[i] < 4,
        forall|i: int| 0 <= i < c.len() ==> #[trigger] packed[i] == packed_one(c[i]),
    ensures
        sums::sum_range(packed, 0, hi) == packed_counts(c, hi),
        counting::count_class(c, 0, 0, hi) + counting::count_class(c, 1, 0, hi)
            + counting::count_class(c, 2, 0, hi) + counting::count_class(c, 3, 0, hi) == hi,
    decreases hi,
{
    if hi > 0 {
        lemma_packed_sum(c, packed, hi - 1);
        assert(packed[hi - 1] == packed_one(c[hi - 1]));
        assert(0 <= c[hi - 1] < 4);
    }
}

proof fn lemma_shift_is_multiply(x: u32)
    ensures
        x << 8u32 == sums::wrap32(x * 256),
        x << 16u32 == sums::wrap32(x * 65536),
        x << 24u32 == sums::wrap32(x * 16777216),
        (x >> 0u32) & 0xffu32 == x as int % 256,
        (x >> 8u32) & 0xffu32 == (x as int / 256) % 256,
        (x >> 16u32) & 0xffu32 == (x as int / 65536) % 256,
        (x >> 24u32) & 0xffu32 == (x as int / 16777216) % 256,
{
    assert(x << 8u32 == (x * 256) % 0x1_0000_0000 && x << 16u32 == (x * 65536) % 0x1_0000_0000 && x
        << 24u32 == (x * 16777216) % 0x1_0000_0000) by (bit_vector);
    assert((x >> 0u32) & 0xffu32 == x % 256 && (x >> 8u32) & 0xffu32 == (x / 256) % 256 && (x
        >> 16u32) & 0xffu32 == (x / 65536) % 256 && (x >> 24u32) & 0xffu32 == (x / 16777216) % 256)
        by (bit_vector);
}

/// Byte `b` of the packed offsets is the number of smaller classes plus the
/// number of earlier threads of class `b`, as long as that is below 256.
proof fn lemma_packed_offset(
    b: int,
    e0: int,
    e1: int,
    e2: int,
    e3: int,
    n0: int,
    n1: int,
    n2: int,
    n3: int,
    total: u32,
    exclusive: u32,
    local_sum: u32,
)
    requires
        0 <= b < 4,
        0 <= e0 <= n0,
        0 <= e1 <= n1,
        0 <= e2 <= n2,
        0 <= e3 <= n3,
        n0 + n1 + n2 + n3 == 256,
        b == 0 ==> e0 < n0,
        b == 1 ==> e1 < n1,
        b == 2 ==> e2 < n2,
        b == 3 ==> e3 < n3,
        e0 + e1 + e2 + e3 < 256,
        total == sums::wrap32(n0 + 256 * n1 + 65536 * n2 + 16777216 * n3),
        exclusive == sums::wrap32(e0 + 256 * e1 + 65536 * e2 + 16777216 * e3),
        local_sum == sums::wrap32(
            sums::wrap32(total * 256) + sums::wrap32(total * 65536) + sums::wrap32(
                total * 16777216,
            ) + exclusive,
        ),
    ensures
        b == 0 ==> local_sum as int % 256 == e0,
        b == 1 ==> (local_sum as int / 256) % 256 == n0 + e1,
        b == 2 ==> (local_sum as int / 65536) % 256 == n0 + n1 + e2,
        b == 3 ==> (local_sum as int / 16777216) % 256 == n0 + n1 + n2 + e3,
{
    let t = n0 + 256 * n1 + 65536 * n2 + 16777216 * n3;
    let a = 256 * n0 + 65536 * n1 + 16777216 * n2;
    let b2 = 65536 * n0 + 16777216 * n1;
    let b3 = 16777216 * n0;
    let e = e0 + 256 * e1 + 65536 * e2 + 16777216 * e3;
    let q = t / 0x1_0000_0000;
    assert(total == t - q * 0x1_0000_0000);
    assert(total * 256 == (n3 - 256 * q) * 0x1_0000_0000 + a);
    assert(total * 65536 == (n2 + 256 * n3 - 65536 * q) * 0x1_0000_0000 + b2);
    assert(total * 16777216 == (n1 + 256 * n2 + 65536 * n3 - 16777216 * q) * 0x1_0000_0000 + b3);
    vstd::arithmetic::div_mod::lemma_mod_multiples_vanish(n3 - 256 * q, a, 0x1_0000_0000);
    vstd::arithmetic::div_mod::lemma_mod_multiples_vanish(
        n2 + 256 * n3 - 65536 * q,
        b2,
        0x1_0000_0000,
    );
    vstd::arithmetic::div_mod::lemma_mod_multiples_vanish(
        n1 + 256 * n2 + 65536 * n3 - 16777216 * q,
        b3,
        0x1_0000_0000,
    );
    assert(sums::wrap32(total * 256) == sums::wrap32(a));
    assert(sums::wrap32(total * 65536) == sums::wrap32(b2));
    assert(sums::wrap32(total * 16777216) == sums::wrap32(b3));
    let s1 = sums::wrap32(a);
    let s2 = sums::wrap32(b2);
    let s3 = sums::wrap32(b3);
    sums::lemma_wrap_add(s1 + s2 + s3, e);
    sums::lemma_wrap_add(s1 + s2 + e, b3);
    sums::lemma_wrap_add(s1 + e + b3, b2);
    sums::lemma_wrap_add(e + b3 + b2, a);
    let x = e0 + 256 * (n0 + e1) + 65536 * (n0 + n1 + e2) + 16777216 * (n0 + n1 + n2 + e3);
    assert(x == e + b3 + b2 + a);
    assert(local_sum == sums::wrap32(x));
    lemma_byte_of_packed(b, e0, n0 + e1, n0 + n1 + e2, n0 + n1 + n2 + e3, local_sum);
}

proof fn lemma_byte_of_packed(b: int, x0: int, x1: int, x2: int, x3: int, word: u32)
    requires
        0 <= b < 4,
        0 <= x0 < 256,
        0 <= x1,
        0 <= x2,
        0 <= x3,
        b >= 1 ==> x1 < 256,
        b >= 2 ==> x2 < 256,
        b >= 3 ==> x3 < 256,
        word == sums::wrap32(x0 + 256 * x1 + 65536 * x2 + 16777216 * x3),
    ensures
        b == 0 ==> word as int % 256 == x0,
        b == 1 ==> (word as int / 256) % 256 == x1,
        b == 2 ==> (word as int / 65536) % 256 == x2,
        b == 3 ==> (word as int / 16777216) % 256 == x3,
{
    let x = x0 + 256 * x1 + 65536 * x2 + 16777216 * x3;
    let m = x / 0x1_0000_0000;
    let w = word as int;
    assert(w == x - m * 0x1_0000_0000);
    if b == 0 {
        assert(w == x0 + 256 * (x1 + 256 * x2 + 65536 * x3 - 16777216 * m));
    } else if b == 1 {
        assert(w == x0 + 256 * (x1 + 256 * (x2 + 256 * x3 - 65536 * m)));
        assert(w / 256 == x1 + 256 * (x2 + 256 * x3 - 65536 * m));
    } else if b == 2 {
        assert(w == (x0 + 256 * x1) + 65536 * (x2 + 256 * (x3 - 256 * m)));
        assert(w / 65536 == x2 + 256 * (x3 - 256 * m));
    } else {
        assert(w == x);
    }
}

/// Stable split of one value per thread by a pair of key bits, through a
/// cube-wide scan of counters packed into bytes.
fn split_by_bits(
    keys: &Vec<u32>,
    values: &Vec<u32>,
    shift: u32,
    bit_shift: u32,
    plane_dim: usize,
) -> (r: (Vec<u32>, Vec<u32>))
    requires
        keys.len() == 256,
        values.len() == 256,
        shift <= 28,
        bit_shift <= 2,
        scan::valid_plane_dim(scan::WG as int, plane_dim as int),
    ensures
        r.0@ == counting::reorder(
            keys@,
            counting::rank_order(bit_pairs(keys@, shift, bit_shift)),
        ),
        r.1@ == counting::reorder(
            values@,
            counting::rank_order(bit_pairs(keys@, shift, bit_shift)),
        ),
{
    let ghost c = bit_pairs(keys@, shift, bit_shift);
    let mut packed: Vec<u32> = Vec::new();
    let mut t: usize = 0;
    while t < 256
        invariant
            t <= 256,
            keys.len() == 256,
            shift <= 28,
            bit_shift <= 2,
            c == bit_pairs(keys@, shift, bit_shift),
            packed.len() == t,
            forall|i: int|
                0 <= i < t ==> 0 <= #[trigger] c[i] < 4 && packed[i] == packed_one(c[i]),
        decreases 256 - t,
    {
        let bit_key: u32 = (key_digit(keys[t], shift) >> bit_shift) & 3u32;
        proof {
            let x: u32 = ((keys[t as int] >> shift) & 0xfu32) >> bit_shift;
            assert(x & 3u32 < 4) by (bit_vector);
        }
        let byte: u32 = bit_key * 8;
        proof {
            assert(1u32 << byte == (if bit_key == 0 {
                1u32
            } else if bit_key == 1 {
                256u32
            } else if bit_key == 2 {
                65536u32
            } else {
                16777216u32
            })) by (bit_vector)
                requires
                    bit_key < 4,
                    byte == bit_key * 8,
            ;
        }
        packed.push(1u32 << byte);
        t = t + 1;
    }
    let (exclusive, total): (Vec<u32>, u32) = cube_exclusive_sum(&packed, plane_dim);
    let bins: u32 = (total << 8u32).wrapping_add(total << 16u32).wrapping_add(total << 24u32);
    proof {
        lemma_packed_sum(c, packed@, 256);
        lemma_shift_is_multiply(total);
    }
    let mut lds_keys: Vec<u32> = vec![0u32; 256];
    let mut lds_values: Vec<u32> = vec![0u32; 256];
    let mut u: usize = 0;
    while u < 256
        invariant
            u <= 256,
            keys.len() == 256,
            values.len() == 256,
            shift <= 28,
            bit_shift <= 2,
            c == bit_pairs(keys@, shift, bit_shift),
            packed.len() == 256,
            exclusive.len() == 256,
            lds_keys.len() == 256,
            lds_values.len() == 256,
            forall|i: int|
                0 <= i < 256 ==> 0 <= #[trigger] c[i] < 4 && packed[i] == packed_one(c[i]),
            forall|i: int|
                0 <= i < 256 ==> #[trigger] exclusive[i] == sums::wrap32(
                    sums::sum_range(packed@, 0, i),
                ),
            total == sums::wrap32(packed_counts(c, 256)),
            bins == (total << 8u32).wrapping_add(total << 16u32).wrapping_add(total << 24u32),
            forall|i: int|
                0 <= i < u ==> lds_keys[#[trigger] counting::rank(c, i)] == keys[i]
                    && lds_values[counting::rank(c, i)] == values[i],
        decreases 256 - u,
    {
        let bit_key: u32 = (key_digit(keys[u], shift) >> bit_shift) & 3u32;
        proof {
            assert(bit_key == c[u as int]);
        }
        let local_sum: u32 = bins.wrapping_add(exclusive[u]);
        let key_offset: u32 = (local_sum >> (bit_key * 8)) & 0xffu32;
        proof {
            lemma_split_offset(
                c,
                packed@,
                u as int,
                total,
                exclusive[u as int],
                bins,
                local_sum,
                bit_key,
                key_offset,
            );
            counting::lemma_rank_bounds(c, u as int);
            assert forall|i: int| 0 <= i < u implies 0 <= #[trigger] counting::rank(c, i) < 256
                && counting::rank(c, i) != counting::rank(c, u as int) by {
                counting::lemma_rank_bounds(c, i);
                if counting::rank(c, i) == counting::rank(c, u as int) {
                    counting::lemma_rank_injective(c, i, u as int);
                }
            }
        }
        lds_keys.set(key_offset as usize, keys[u]);
        lds_values.set(key_offset as usize, values[u]);
        u = u + 1;
    }
    proof {
        counting::lemma_rank_order_is_stable(c);
        let src = counting::rank_order(c);
        assert forall|k: int| 0 <= k < 256 implies lds_keys[k] == keys[#[trigger] src[k]]
            && lds_values[k] == values[src[k]] by {
            assert(counting::rank(c, src[k]) == k);
        }
        assert(lds_keys@ =~= counting::reorder(keys@, src));
        assert(lds_values@ =~= counting::reorder(values@, src));
    }
    (lds_keys, lds_values)
}

/// The byte that a thread reads out of the packed offsets is its stable rank.
proof fn lemma_split_offset(
    c: Seq<int>,
    packed: Seq<u32>,
    u: int,
    total: u32,
    exclusive: u32,
    bins: u32,
    local_sum: u32,
    bit_key: u32,
    key_offset: u32,
)
    requires
        c.len() == 256,
        packed.len() == 256,
        0 <= u < 256,
        forall|i: int| 0 <= i < 256 ==> 0 <= #[trigger] c[i] < 4 && packed[i] == packed_one(c[i]),
        bit_key == c[u],
        exclusive == sums::wrap32(sums::sum_range(packed, 0, u)),
        total == sums::wrap32(packed_counts(c, 256)),
        bins == (total << 8u32).wrapping_add(total << 16u32).wrapping_add(total << 24u32),
        local_sum == bins.wrapping_add(exclusive),
        key_offset == (local_sum >> ((bit_key * 8) as u32)) & 0xffu32,
    ensures
        key_offset == counting::rank(c, u),
{
    lemma_packed_sum(c, packed, u);
    lemma_packed_sum(c, packed, 256);
    lemma_shift_is_multiply(total);
    lemma_shift_is_multiply(local_sum);
    let b = c[u];
    let e0 = counting::count_class(c, 0, 0, u);
    let e1 = counting::count_class(c, 1, 0, u);
    let e2 = counting::count_class(c, 2, 0, u);
    let e3 = counting::count_class(c, 3, 0, u);
    let n0 = counting::count_class(c, 0, 0, 256);
    let n1 = counting::count_class(c, 1, 0, 256);
    let n2 = counting::count_class(c, 2, 0, 256);
    let n3 = counting::count_class(c, 3, 0, 256);
    lemma_class_progress(c, 0, u);
    lemma_class_progress(c, 1, u);
    lemma_class_progress(c, 2, u);
    lemma_class_progress(c, 3, u);
    let t8 = sums::wrap32(total * 256);
    let t16 = sums::wrap32(total * 65536);
    let t24 = sums::wrap32(total * 16777216);
    sums::lemma_wrapping_add(t8, t16);
    sums::lemma_wrapping_add(t8.wrapping_add(t16), t24);
    sums::lemma_wrapping_add(bins, exclusive);
    sums::lemma_wrap_add(t8 + t16, t24 as int);
    sums::lemma_wrap_add(t8 + t16 + t24, exclusive as int);
    lemma_packed_offset(b, e0, e1, e2, e3, n0, n1, n2, n3, total, exclusive, local_sum);
    lemma_nothing_below_zero(c, 256);
    counting::lemma_count_below_step(c, 0);
    counting::lemma_count_below_step(c, 1);
    counting::lemma_count_below_step(c, 2);
}

proof fn lemma_class_progress(c: Seq<int>, d: int, u: int)
    requires
        c.len() == 256,
        0 <= u < 256,
    ensures
        0 <= counting::count_class(c, d, 0, u) <= counting::count_class(c, d, 0, 256),
        c[u] == d ==> counting::count_class(c, d, 0, u) < counting::count_class(c, d, 0, 256),
{
    let p = counting::has_class(c, d);
    counting::lemma_count_bounds(p, 0, u);
    counting::lemma_count_split(p, 0, u + 1, 256);
    counting::lemma_count_bounds(p, u + 1, 256);
    assert(p(u) == (c[u] == d));
}

proof fn lemma_nothing_below_zero(c: Seq<int>, hi: int)
    requires
        0 <= hi <= c.len(),
        forall|i: int| 0 <= i < c.len() ==> 0 <= #[trigger] c[i],
    ensures
        counting::count_where(counting::below_class(c, 0), 0, hi) == 0,
    decreases hi,
{
    if hi > 0 {
        lemma_nothing_below_zero(c, hi - 1);
        assert(0 <= c[hi - 1]);
    }
}

/// Sorts one value per thread by digit, in two stable splits of two bits.
fn sort_round(keys: &Vec<u32>, values: &Vec<u32>, shift: u32, plane_dim: usize) -> (r: (
    Vec<u32>,
    Vec<u32>,
))
    requires
        keys.len() == 256,
        values.len() == 256,
        shift <= 28,
        scan::valid_plane_dim(scan::WG as int, plane_dim as int),
    ensures
        r.0@ == counting::reorder(keys@, counting::rank_order(digits(keys@, shift))),
        r.1@ == counting::reorder(values@, counting::rank_order(digits(keys@, shift))),
{
    let (keys1, values1): (Vec<u32>, Vec<u32>) = split_by_bits(keys, values, shift, 0, plane_dim);
    let (keys2, values2): (Vec<u32>, Vec<u32>) = split_by_bits(
        &keys1,
        &values1,
        shift,
        2,
        plane_dim,
    );
    proof {
        let low = bit_pairs(keys@, shift, 0);
        let high = bit_pairs(keys@, shift, 2);
        let both = digits(keys@, shift);
        let first = counting::rank_order(low);
        counting::lemma_rank_order_is_stable(low);
        assert(bit_pairs(keys1@, shift, 2) =~= counting::reorder(high, first));
        let second = counting::rank_order(counting::reorder(high, first));
        counting::lemma_rank_order_is_stable(counting::reorder(high, first));
        assert forall|i: int| 0 <= i < 256 implies #[trigger] both[i] == 4 * high[i] + low[i] && 0
            <= low[i] < 4 by {
            let x: u32 = keys[i] >> shift;
            let d: u32 = x & 0xfu32;
            assert(x & 0xfu32 < 16) by (bit_vector);
            assert(4 * ((d >> 2u32) & 3u32) + ((d >> 0u32) & 3u32) == d && (d >> 0u32) & 3u32 < 4)
                by (bit_vector)
                requires
                    d < 16,
            ;
        }
        counting::lemma_stable_orders_compose(low, high, both, first, second);
        counting::lemma_rank_order_is_stable(both);
        counting::stable_order_is_unique(
            both,
            counting::reorder(first, second),
            counting::rank_order(both),
        );
        assert(keys2@ =~= counting::reorder(keys@, counting::reorder(first, second)));
        assert(values2@ =~= counting::reorder(values@, counting::reorder(first, second)));
    }
    (keys2, values2)
}

/// Counts the digits of one value per thread.
fn digit_histogram(keys: &Vec<u32>, shift: u32) -> (histogram: Vec<u32>)
    requires
        keys.len() == 256,
        shift <= 28,
    ensures
        histogram.len() == 16,
        forall|d: int|
            0 <= d < 16 ==> #[trigger] histogram[d] == counting::count_class(
                digits(keys@, shift),
                d,
                0,
                256,
            ),
{
    let ghost ds = digits(keys@, shift);
    let mut histogram: Vec<u32> = vec![0u32; 16];
    let mut u: usize = 0;
    while u < 256
        invariant
            u <= 256,
            keys.len() == 256,
            shift <= 28,
            ds == digits(keys@, shift),
            histogram.len() == 16,
            forall|d: int|
                0 <= d < 16 ==> #[trigger] histogram[d] == counting::count_class(
                    ds,
                    d,
                    0,
                    u as int,
                ),
        decreases 256 - u,
    {
        let d: u32 = key_digit(keys[u], shift);
        proof {
            counting::lemma_count_bounds(counting::has_class(ds, d as int), 0, u as int);
        }
        let h: u32 = histogram[d as usize];
        histogram.set(d as usize, h + 1);
        u = u + 1;
    }
    histogram
}

/// Inclusive sums of a digit histogram: by one plane where it has a lane per
/// digit, serially otherwise.
fn inclusive_histogram(histogram: &Vec<u32>, plane_dim: usize) -> (out: Vec<u32>)
    requires
        histogram.len() == 16,
        plane_dim > 0,
    ensures
        out.len() == 16,
        forall|d: int|
            0 <= d < 16 ==> #[trigger] out[d] == sums::wrap32(
                sums::sum_range(histogram@, 0, d + 1),
            ),
{
    if plane_dim >= 16 {
        let out: Vec<u32> = scan::plane_inclusive_sum(histogram, plane_dim);
        proof {
            assert forall|d: int| 0 <= d < 16 implies #[trigger] out[d] == sums::wrap32(
                sums::sum_range(histogram@, 0, d + 1),
            ) by {
                vstd::arithmetic::div_mod::lemma_small_mod(d as nat, plane_dim as nat);
            }
        }
        out
    } else {
        let mut out: Vec<u32> = Vec::new();
        let mut acc: u32 = 0;
        let mut b: usize = 0;
        while b < 16
            invariant
                b <= 16,
                histogram.len() == 16,
                out.len() == b,
                acc == sums::wrap32(sums::sum_range(histogram@, 0, b as int)),
                forall|d: int|
                    0 <= d < b ==> #[trigger] out[d] == sums::wrap32(
                        sums::sum_range(histogram@, 0, d + 1),
                    ),
            decreases 16 - b,
        {
            proof {
                sums::lemma_wrapping_add(acc, histogram[b as int]);
                sums::lemma_wrap_add(
                    sums::sum_range(histogram@, 0, b as int),
                    histogram[b as int] as int,
                );
            }
            acc = acc.wrapping_add(histogram[b]);
            out.push(acc);
            b = b + 1;
        }
        out
    }
}

/// The keys filled up with all-ones keys to a whole number of blocks.
spec fn padded(src: Seq<u32>) -> Seq<u32> {
    Seq::new(
        (1024 * scan::block_count(src.len() as int)) as nat,
        |i: int|
            if i < src.len() {
                src[i]
            } else {
                0xFFFF_FFFFu32
            },
    )
}

/// Where element `i` of the padded keys goes.
spec fn target(src: Seq<u32>, shift: u32, i: int) -> int {
    let d = digit(padded(src)[i], shift);
    counting::count_below(digits(src, shift), d) + counting::count_class(
        digits(padded(src), shift),
        d,
        0,
        i,
    )
}

proof fn lemma_histogram_sum(c: Seq<int>, histogram: Seq<u32>, d: int)
    requires
        histogram.len() == 16,
        0 <= d <= 16,
        forall|i: int| 0 <= i < c.len() ==> 0 <= #[trigger] c[i],
        forall|e: int|
            0 <= e < 16 ==> #[trigger] histogram[e] == counting::count_class(
                c,
                e,
                0,
                c.len() as int,
            ),
    ensures
        sums::sum_range(histogram, 0, d) == counting::count_below(c, d),
    decreases d,
{
    if d == 0 {
        lemma_nothing_below_zero(c, c.len() as int);
    } else {
        lemma_histogram_sum(c, histogram, d - 1);
        counting::lemma_count_below_step(c, d - 1);
    }
}

proof fn lemma_digit_bounds(key: u32, shift: u32)
    ensures
        0 <= digit(key, shift) < 16,
{
    let x: u32 = key >> shift;
    assert(x & 0xfu32 < 16) by (bit_vector);
}

proof fn lemma_all_below_sixteen(src: Seq<u32>, shift: u32, hi: int)
    requires
        0 <= hi <= src.len(),
    ensures
        counting::count_where(counting::below_class(digits(src, shift), 16), 0, hi) == hi,
    decreases hi,
{
    if hi > 0 {
        lemma_all_below_sixteen(src, shift, hi - 1);
        lemma_digit_bounds(src[hi - 1], shift);
    }
}

/// Counting digits in the padded keys: real keys first, then only padding of
/// the largest digit.
proof fn lemma_padded_count(src: Seq<u32>, shift: u32, d: int, i: int)
    requires
        shift <= 28,
        0 <= i <= padded(src).len(),
        0 <= d < 16,
    ensures
        counting::count_class(digits(padded(src), shift), d, 0, i) == counting::count_class(
            digits(src, shift),
            d,
            0,
            if i < src.len() {
                i
            } else {
                src.len() as int
            },
        ) + if i > src.len() && d == 15 {
            i - src.len()
        } else {
            0
        },
    decreases i,
{
    if i > 0 {
        lemma_padded_count(src, shift, d, i - 1);
        let x = digits(padded(src), shift);
        if i - 1 < src.len() {
            assert(x[i - 1] == digits(src, shift)[i - 1]);
        } else {
            lemma_padding_digit(shift);
            assert(x[i - 1] == 15);
        }
    }
}

proof fn lemma_padding_digit(shift: u32)
    requires
        shift <= 28,
    ensures
        digit(0xFFFF_FFFFu32, shift) == 15,
{
    assert((0xFFFF_FFFFu32 >> shift) & 0xfu32 == 15) by (bit_vector)
        requires
            shift <= 28,
    ;
}

/// Real keys go to their rank, padding goes past the end.
proof fn lemma_target(src: Seq<u32>, shift: u32, i: int)
    requires
        shift <= 28,
        0 <= i < padded(src).len(),
    ensures
        i < src.len() ==> target(src, shift, i) == counting::rank(digits(src, shift), i) && 0
            <= target(src, shift, i) < src.len(),
        i >= src.len() ==> target(src, shift, i) == i,
        0 <= target(src, shift, i),
{
    let ds = digits(src, shift);
    let d = digit(padded(src)[i], shift);
    lemma_digit_bounds(padded(src)[i], shift);
    lemma_padded_count(src, shift, d, i);
    if i < src.len() {
        assert(ds[i] == d);
        counting::lemma_rank_bounds(ds, i);
    } else {
        lemma_padding_digit(shift);
        counting::lemma_count_below_step(ds, 15);
        lemma_all_below_sixteen(src, shift, src.len() as int);
    }
}

/// The running offset of a digit stays within one block of the key count.
proof fn lemma_cache_bounds(src: Seq<u32>, shift: u32, d: int, base: int)
    requires
        shift <= 28,
        0 <= d < 16,
        0 <= base <= padded(src).len(),
    ensures
        0 <= counting::count_below(digits(src, shift), d) + counting::count_class(
            digits(padded(src), shift),
            d,
            0,
            base,
        ) <= src.len() + 1023,
{
    lemma_padded_count(src, shift, d, base);
    lemma_offset_bounds(
        src,
        shift,
        d,
        if base < src.len() {
            base
        } else {
            src.len() as int
        },
    );
}

/// Every key before `hi` stands at its rank in the output, with its value.
spec fn placed(
    src: Seq<u32>,
    values: Seq<u32>,
    shift: u32,
    hi: int,
    out: Seq<u32>,
    out_values: Seq<u32>,
) -> bool {
    forall|i: int|
        0 <= i < hi && i < src.len() ==> out[#[trigger] counting::rank(digits(src, shift), i)]
            == src[i] && out_values[counting::rank(digits(src, shift), i)] == values[i]
}

/// The running offset of every digit for the keys from `base` on.
spec fn is_cache(src: Seq<u32>, shift: u32, base: int, cache: Seq<u32>) -> bool {
    &&& cache.len() == 16
    &&& forall|d: int|
        0 <= d < 16 ==> #[trigger] cache[d] == counting::count_below(digits(src, shift), d)
            + counting::count_class(digits(padded(src), shift), d, 0, base)
}

/// Scatters the 256 keys from `base` on and moves the running offsets past
/// them.
#[verifier::spinoff_prover]
#[verifier::rlimit(80)]
fn scatter_round(
    src: &Vec<u32>,
    values: &Vec<u32>,
    shift: u32,
    base: usize,
    cache: &mut Vec<u32>,
    out: &mut Vec<u32>,
    out_values: &mut Vec<u32>,
    plane_dim: usize,
)
    requires
        src.len() + 1023 <= u32::MAX,
        values.len() == src.len(),
        shift <= 28,
        base + 256 <= padded(src@).len(),
        scan::valid_plane_dim(scan::WG as int, plane_dim as int),
        is_cache(src@, shift, base as int, old(cache)@),
        old(out).len() == src.len(),
        old(out_values).len() == src.len(),
        placed(src@, values@, shift, base as int, old(out)@, old(out_values)@),
    ensures
        is_cache(src@, shift, base + 256, final(cache)@),
        final(out).len() == src.len(),
        final(out_values).len() == src.len(),
        placed(src@, values@, shift, base + 256, final(out)@, final(out_values)@),
{
    let num_keys: usize = src.len();
    let ghost n = num_keys as int;
    let ghost pad = padded(src@);
    let ghost ds = digits(src@, shift);
    let mut round_keys: Vec<u32> = Vec::new();
    let mut round_values: Vec<u32> = Vec::new();
    let mut t: usize = 0;
    while t < 256
        invariant
            t <= 256,
            num_keys == src.len(),
            num_keys + 1023 <= u32::MAX,
            values.len() == num_keys,
            pad == padded(src@),
            base + 256 <= pad.len(),
            round_keys.len() == t,
            round_values.len() == t,
            forall|k: int| 0 <= k < t ==> #[trigger] round_keys[k] == pad[base + k],
            forall|k: int|
                0 <= k < t && base + k < num_keys ==> #[trigger] round_values[k] == values[base + k],
        decreases 256 - t,
    {
        let data_index: usize = base + t;
        if data_index < num_keys {
            round_keys.push(src[data_index]);
            round_values.push(values[data_index]);
        } else {
            round_keys.push(0xFFFF_FFFF);
            round_values.push(0);
        }
        t = t + 1;
    }
    let (keys, vals): (Vec<u32>, Vec<u32>) = sort_round(
        &round_keys,
        &round_values,
        shift,
        plane_dim,
    );
    let ghost rd = digits(round_keys@, shift);
    let ghost order = counting::rank_order(rd);
    let histogram: Vec<u32> = digit_histogram(&keys, shift);
    let scratch: Vec<u32> = inclusive_histogram(&histogram, plane_dim);
    proof {
        counting::lemma_rank_order_is_stable(rd);
        counting::lemma_stable_order_no_duplicates(rd, order);
        assert(digits(keys@, shift) =~= counting::reorder(rd, order));
        assert forall|d: int| 0 <= d < 16 implies #[trigger] histogram[d] == counting::count_class(
            rd,
            d,
            0,
            256,
        ) by {
            counting::lemma_count_class_reorder(rd, order, d);
        }
        assert forall|i: int| 0 <= i < 256 implies 0 <= #[trigger] rd[i] by {
            lemma_digit_bounds(round_keys[i], shift);
        }
        assert forall|d: int| 0 <= d < 16 implies #[trigger] scratch[d] == counting::count_below(
            rd,
            d + 1,
        ) by {
            lemma_histogram_sum(rd, histogram@, d + 1);
            counting::lemma_count_bounds(counting::below_class(rd, d + 1), 0, 256);
            sums::lemma_wrap_small(counting::count_below(rd, d + 1));
        }
        assert forall|d: int, v: int| 0 <= v <= 256 implies #[trigger] counting::count_class(
            rd,
            d,
            0,
            v,
        ) == counting::count_class(digits(pad, shift), d, base as int, base + v) by {
            counting::lemma_count_shift(
                counting::has_class(rd, d),
                counting::has_class(digits(pad, shift), d),
                0,
                v,
                base as int,
            );
        }
    }
    let mut u: usize = 0;
    while u < 256
        invariant
            u <= 256,
            num_keys == src.len(),
            n == num_keys,
            num_keys + 1023 <= u32::MAX,
            values.len() == num_keys,
            shift <= 28,
            pad == padded(src@),
            ds == digits(src@, shift),
            base + 256 <= pad.len(),
            is_cache(src@, shift, base as int, cache@),
            round_keys.len() == 256,
            round_values.len() == 256,
            forall|k: int| 0 <= k < 256 ==> #[trigger] round_keys[k] == pad[base + k],
            forall|k: int|
                0 <= k < 256 && base + k < num_keys ==> #[trigger] round_values[k] == values[base
                    + k],
            rd == digits(round_keys@, shift),
            order == counting::rank_order(rd),
            order.len() == 256,
            forall|k: int| 0 <= k < 256 ==> 0 <= #[trigger] order[k] < 256,
            forall|k: int| 0 <= k < 256 ==> counting::rank(rd, #[trigger] order[k]) == k,
            keys.len() == 256,
            vals.len() == 256,
            keys@ == counting::reorder(round_keys@, order),
            vals@ == counting::reorder(round_values@, order),
            scratch.len() == 16,
            forall|d: int|
                0 <= d < 16 ==> #[trigger] scratch[d] == counting::count_below(rd, d + 1),
            forall|i: int| 0 <= i < 256 ==> 0 <= #[trigger] rd[i],
            forall|d: int, v: int|
                0 <= v <= 256 ==> #[trigger] counting::count_class(rd, d, 0, v)
                    == counting::count_class(digits(pad, shift), d, base as int, base + v),
            out.len() == num_keys,
            out_values.len() == num_keys,
            placed(src@, values@, shift, base as int, out@, out_values@),
            forall|k: int|
                0 <= k < u && base + #[trigger] order[k] < n ==> out[counting::rank(
                    ds,
                    base + order[k],
                )] == src[base + order[k]] && out_values[counting::rank(ds, base + order[k])]
                    == values[base + order[k]],
        decreases 256 - u,
    {
        let key_index: u32 = key_digit(keys[u], shift);
        let ghost v = order[u as int];
        let ghost i = base + v;
        let ghost d = key_index as int;
        proof {
            assert(keys[u as int] == round_keys[v]);
            assert(rd[v] == d);
            assert(pad[i] == keys[u as int]);
            assert(counting::rank(rd, v) == u);
            counting::lemma_count_bounds(counting::has_class(rd, d), 0, v);
            counting::lemma_count_bounds(counting::below_class(rd, d), 0, 256);
            if d == 0 {
                lemma_nothing_below_zero(rd, 256);
            }
        }
        let global_offset: u32 = cache[key_index as usize];
        let mut local_offset: u32 = u as u32;
        if key_index > 0 {
            assert(scratch[d - 1] == counting::count_below(rd, d));
            local_offset = local_offset - scratch[key_index as usize - 1];
        }
        proof {
            assert(local_offset == counting::count_class(rd, d, 0, v));
            counting::lemma_count_split(
                counting::has_class(digits(pad, shift), d),
                0,
                base as int,
                i,
            );
            lemma_cache_bounds(src@, shift, d, i);
            lemma_target(src@, shift, i);
            assert(global_offset + local_offset == target(src@, shift, i));
        }
        let total_offset: u32 = global_offset + local_offset;
        let ghost out0 = out@;
        let ghost vals0 = out_values@;
        if (total_offset as usize) < num_keys {
            proof {
                assert(i < n);
                assert(vals[u as int] == values[i]);
                assert forall|j: int| 0 <= j < n && j != i implies 0 <= #[trigger] counting::rank(
                    ds,
                    j,
                ) < n && counting::rank(ds, j) != total_offset by {
                    counting::lemma_rank_bounds(ds, j);
                    if counting::rank(ds, j) == counting::rank(ds, i) {
                        counting::lemma_rank_injective(ds, j, i);
                    }
                }
            }
            out.set(total_offset as usize, keys[u]);
            out_values.set(total_offset as usize, vals[u]);
            proof {
                assert forall|k: int|
                    0 <= k < u + 1 && base + #[trigger] order[k] < n implies out[counting::rank(
                    ds,
                    base + order[k],
                )] == src[base + order[k]] && out_values[counting::rank(ds, base + order[k])]
                    == values[base + order[k]] by {
                    if base + order[k] != i {
                        assert(k < u);
                    }
                }
            }
        }
        u = u + 1;
    }
    proof {
        assert forall|i: int| 0 <= i < base + 256 && i < n implies out[#[trigger] counting::rank(
            ds,
            i,
        )] == src[i] && out_values[counting::rank(ds, i)] == values[i] by {
            if i >= base {
                counting::lemma_rank_bounds(rd, i - base);
                let k = counting::rank(rd, i - base);
                assert(counting::rank(rd, order[k]) == k);
                counting::lemma_rank_injective(rd, order[k], i - base);
            }
        }
    }
    let mut bin: usize = 0;
    while bin < 16
        invariant
            bin <= 16,
            num_keys == src.len(),
            num_keys + 1023 <= u32::MAX,
            shift <= 28,
            pad == padded(src@),
            base + 256 <= pad.len(),
            cache.len() == 16,
            histogram.len() == 16,
            forall|d: int|
                0 <= d < 16 ==> #[trigger] histogram[d] == counting::count_class(
                    digits(pad, shift),
                    d,
                    base as int,
                    base + 256,
                ),
            forall|d: int|
                0 <= d < 16 ==> #[trigger] cache[d] == counting::count_below(
                    digits(src@, shift),
                    d,
                ) + counting::count_class(
                    digits(pad, shift),
                    d,
                    0,
                    if d < bin {
                        base + 256
                    } else {
                        base as int
                    },
                ),
        decreases 16 - bin,
    {
        proof {
            counting::lemma_count_split(
                counting::has_class(digits(pad, shift), bin as int),
                0,
                base as int,
                base + 256,
            );
            lemma_cache_bounds(src@, shift, bin as int, base + 256);
            assert(histogram[bin as int] == counting::count_class(
                digits(pad, shift),
                bin as int,
                base as int,
                base + 256,
            ));
        }
        let moved: u32 = cache[bin] + histogram[bin];
        cache.set(bin, moved);
        bin = bin + 1;
    }
}

/// Moves every key, with its value, to its stable rank by digit.
///
/// `counts` is the offset table of the keys: where the keys of each digit in
/// each block start.
pub fn sort_scatter_kernel(
    src: &Vec<u32>,
    values: &Vec<u32>,
    counts: &Vec<u32>,
    shift: u32,
    plane_dim: usize,
) -> (r: (Vec<u32>, Vec<u32>))
    requires
        src.len() + 1023 <= u32::MAX,
        values.len() == src.len(),
        shift <= 28,
        is_offset_table(src@, shift, counts@),
        scan::valid_plane_dim(scan::WG as int, plane_dim as int),
    ensures
        r.0.len() == src.len(),
        r.1.len() == src.len(),
        forall|i: int|
            0 <= i < src.len() ==> r.0[#[trigger] counting::rank(digits(src@, shift), i)] == src[i]
                && r.1[counting::rank(digits(src@, shift), i)] == values[i],
{
    let num_keys: usize = src.len();
    let num_wgs: usize = div_ceil(num_keys, 1024);
    let ghost nw = num_wgs as int;
    let mut out: Vec<u32> = vec![0u32; num_keys];
    let mut out_values: Vec<u32> = vec![0u32; num_keys];
    let mut group_id: usize = 0;
    while group_id < num_wgs
        invariant
            num_keys == src.len(),
            num_keys + 1023 <= u32::MAX,
            values.len() == num_keys,
            shift <= 28,
            nw == num_wgs,
            nw == scan::block_count(num_keys as int),
            group_id <= num_wgs,
            is_offset_table(src@, shift, counts@),
            scan::valid_plane_dim(scan::WG as int, plane_dim as int),
            out.len() == num_keys,
            out_values.len() == num_keys,
            placed(src@, values@, shift, 1024 * group_id, out@, out_values@),
        decreases num_wgs - group_id,
    {
        let mut cache: Vec<u32> = Vec::new();
        let mut bin: usize = 0;
        while bin < 16
            invariant
                bin <= 16,
                num_keys == src.len(),
                num_keys + 1023 <= u32::MAX,
                nw == num_wgs,
                nw == scan::block_count(num_keys as int),
                group_id < num_wgs,
                is_offset_table(src@, shift, counts@),
                cache.len() == bin,
                forall|d: int|
                    0 <= d < bin ==> #[trigger] cache[d] == counting::count_below(
                        digits(src@, shift),
                        d,
                    ) + counting::count_class(digits(src@, shift), d, 0, 1024 * group_id),
            decreases 16 - bin,
        {
            proof {
                lemma_bin_slot(nw, 16, bin as int, group_id as int);
            }
            cache.push(counts[bin * num_wgs + group_id]);
            bin = bin + 1;
        }
        let start: usize = 1024 * group_id;
        proof {
            assert forall|d: int| 0 <= d < 16 implies #[trigger] cache[d] == counting::count_below(
                digits(src@, shift),
                d,
            ) + counting::count_class(digits(padded(src@), shift), d, 0, start as int) by {
                lemma_padded_count(src@, shift, d, start as int);
            }
        }
        let mut round: usize = 0;
        while round < 4
            invariant
                round <= 4,
                num_keys == src.len(),
                num_keys + 1023 <= u32::MAX,
                values.len() == num_keys,
                shift <= 28,
                nw == num_wgs,
                nw == scan::block_count(num_keys as int),
                group_id < num_wgs,
                start == 1024 * group_id,
                scan::valid_plane_dim(scan::WG as int, plane_dim as int),
                is_cache(src@, shift, start + 256 * round, cache@),
                out.len() == num_keys,
                out_values.len() == num_keys,
                placed(src@, values@, shift, start + 256 * round, out@, out_values@),
            decreases 4 - round,
        {
            scatter_round(
                src,
                values,
                shift,
                start + 256 * round,
                &mut cache,
                &mut out,
                &mut out_values,
                plane_dim,
            );
            round = round + 1;
        }
        group_id = group_id + 1;
    }
    (out, out_values)
}

/// `16^passes`: the number of values that the sorted bits of a key can take.
pub open spec fn pow16(passes: int) -> int
    decreases passes,
{
    if passes <= 0 {
        1
    } else {
        16 * pow16(passes - 1)
    }
}

/// Digits that a sort by `sorting_bits` bits covers: whole digits, rounded up.
pub open spec fn pass_count(sorting_bits: u32) -> int {
    (sorting_bits as int + 3) / 4
}

/// The bits of every key that `passes` passes sort by.
pub open spec fn low_bits(keys: Seq<u32>, passes: int) -> Seq<int> {
    Seq::new(keys.len(), |i: int| keys[i] as int % pow16(passes))
}

/// The stable order of the keys by the digits that `sorting_bits` covers.
pub open spec fn sorted_order(keys: Seq<u32>, sorting_bits: u32) -> Seq<int> {
    counting::rank_order(low_bits(keys, pass_count(sorting_bits)))
}

proof fn lemma_digit_is_quotient(key: u32, pass: int)
    requires
        0 <= pass < 8,
    ensures
        digit(key, (4 * pass) as u32) == (key as int / pow16(pass)) % 16,
        pow16(pass) > 0,
{
    reveal_with_fuel(pow16, 9);
    assert((key >> 0u32) & 0xfu32 == key % 16 && (key >> 4u32) & 0xfu32 == (key / 16) % 16 && (key
        >> 8u32) & 0xfu32 == (key / 256) % 16 && (key >> 12u32) & 0xfu32 == (key / 4096) % 16 && (
    key >> 16u32) & 0xfu32 == (key / 65536) % 16 && (key >> 20u32) & 0xfu32 == (key / 1048576) % 16
        && (key >> 24u32) & 0xfu32 == (key / 16777216) % 16 && (key >> 28u32) & 0xfu32 == (key
        / 268435456) % 16) by (bit_vector);
}

/// One more digit splits the covered bits into that digit and the bits below.
proof fn lemma_low_bits_step(key: u32, pass: int)
    requires
        0 <= pass < 8,
    ensures
        key as int % pow16(pass + 1) == digit(key, (4 * pass) as u32) * pow16(pass) + key as int
            % pow16(pass),
        0 <= key as int % pow16(pass) < pow16(pass),
{
    lemma_digit_is_quotient(key, pass);
    vstd::arithmetic::div_mod::lemma_mod_breakdown(key as int, pow16(pass), 16);
    assert(pow16(pass + 1) == 16 * pow16(pass));
    assert(16 * pow16(pass) == pow16(pass) * 16) by (nonlinear_arith);
    let q = (key as int / pow16(pass)) % 16;
    assert(pow16(pass) * q == q * pow16(pass)) by (nonlinear_arith);
}

/// One pass of the sort: the keys sorted by the covered bits become sorted by
/// one digit more.
proof fn lemma_pass(
    keys: Seq<u32>,
    pass: int,
    order: Seq<int>,
    cur: Seq<u32>,
)
    requires
        0 <= pass < 8,
        counting::is_stable_order(low_bits(keys, pass), order),
        cur == counting::reorder(keys, order),
    ensures
        counting::is_stable_order(
            low_bits(keys, pass + 1),
            counting::reorder(order, counting::rank_order(digits(cur, (4 * pass) as u32))),
        ),
{
    let shift = (4 * pass) as u32;
    let low = low_bits(keys, pass);
    let high = digits(keys, shift);
    let both = low_bits(keys, pass + 1);
    assert(digits(cur, shift) =~= counting::reorder(high, order));
    let second = counting::rank_order(digits(cur, shift));
    counting::lemma_rank_order_is_stable(digits(cur, shift));
    let m = pow16(pass);
    assert forall|i: int| 0 <= i < keys.len() implies #[trigger] both[i] == high[i] * m + low[i]
        && 0 <= low[i] < m by {
        lemma_low_bits_step(keys[i], pass);
    }
    assert forall|i: int, j: int|
        0 <= i < low.len() && 0 <= j < low.len() && high[i] < high[j] implies #[trigger] both[i]
        < #[trigger] both[j] by {
        let (hi, hj, li, lj) = (high[i], high[j], low[i], low[j]);
        assert(both[i] == hi * m + li && both[j] == hj * m + lj);
        assert(hi * m + li < hj * m + lj) by (nonlinear_arith)
            requires
                hi < hj,
                0 <= li < m,
                0 <= lj < m,
        ;
    }
    assert forall|i: int, j: int|
        0 <= i < low.len() && 0 <= j < low.len() && high[i] == high[j] && low[i]
            < low[j] implies #[trigger] both[i] < #[trigger] both[j] by {}
    assert forall|i: int, j: int|
        0 <= i < low.len() && 0 <= j < low.len() && high[i] == high[j] && low[i]
            == low[j] implies #[trigger] both[i] == #[trigger] both[j] by {}
    counting::lemma_stable_orders_compose(low, high, both, order, second);
}

/// Sorts keys and their values together by the low `sorting_bits` bits of the
/// keys, rounded up to whole digits. Pairs with equal sorted bits keep their
/// order.
pub fn radix_argsort(
    input_keys: &Vec<u32>,
    input_values: &Vec<u32>,
    sorting_bits: u32,
    plane_dim: usize,
) -> (r: (Vec<u32>, Vec<u32>))
    requires
        input_keys.len() == input_values.len(),
        sorting_bits <= 32,
        input_keys.len() + 1023 <= u32::MAX,
        scan::valid_plane_dim(scan::WG as int, plane_dim as int),
    ensures
        r.0@ == counting::reorder(input_keys@, sorted_order(input_keys@, sorting_bits)),
        r.1@ == counting::reorder(input_values@, sorted_order(input_keys@, sorting_bits)),
{
    let passes: u32 = (sorting_bits + 3) / 4;
    let mut cur_keys: Vec<u32> = input_keys.clone();
    let mut cur_vals: Vec<u32> = input_values.clone();
    let ghost keys = input_keys@;
    let ghost vals = input_values@;
    let ghost mut order: Seq<int> = Seq::new(keys.len(), |k: int| k);
    proof {
        assert(cur_keys@ =~= keys);
        assert(cur_vals@ =~= vals);
        assert(cur_keys@ =~= counting::reorder(keys, order));
        assert(cur_vals@ =~= counting::reorder(vals, order));
        assert forall|a: int, b: int| 0 <= a < b < order.len() implies counting::precedes(
            low_bits(keys, 0),
            #[trigger] order[a],
            #[trigger] order[b],
        ) by {
            assert(pow16(0) == 1);
        }
    }
    let mut pass: u32 = 0;
    while pass < passes
        invariant
            pass <= passes,
            passes <= 8,
            keys.len() + 1023 <= u32::MAX,
            keys.len() == vals.len(),
            scan::valid_plane_dim(scan::WG as int, plane_dim as int),
            counting::is_stable_order(low_bits(keys, pass as int), order),
            cur_keys@ == counting::reorder(keys, order),
            cur_vals@ == counting::reorder(vals, order),
        decreases passes - pass,
    {
        let shift: u32 = pass * 4;
        let counts: Vec<u32> = bin_offsets(&cur_keys, shift, plane_dim);
        let (out, out_values): (Vec<u32>, Vec<u32>) = sort_scatter_kernel(
            &cur_keys,
            &cur_vals,
            &counts,
            shift,
            plane_dim,
        );
        proof {
            let ds = digits(cur_keys@, shift);
            let second = counting::rank_order(ds);
            counting::lemma_rank_order_is_stable(ds);
            lemma_pass(keys, pass as int, order, cur_keys@);
            let next = counting::reorder(order, second);
            assert forall|k: int| 0 <= k < keys.len() implies #[trigger] out[k] == keys[next[k]]
                && out_values[k] == vals[next[k]] by {
                assert(counting::rank(ds, second[k]) == k);
            }
            assert(out@ =~= counting::reorder(keys, next));
            assert(out_values@ =~= counting::reorder(vals, next));
            order = next;
        }
        cur_keys = out;
        cur_vals = out_values;
        pass = pass + 1;
    }
    proof {
        let low = low_bits(keys, passes as int);
        counting::lemma_rank_order_is_stable(low);
        counting::stable_order_is_unique(low, order, counting::rank_order(low));
    }
    (cur_keys, cur_vals)
}

/// The sorted keys ascend by their sorted bits, and pairs whose sorted bits are
/// equal stand in input order.
pub proof fn sorted_order_is_sorted_and_stable(
    keys: Seq<u32>,
    sorting_bits: u32,
    a: int,
    b: int,
)
    requires
        0 <= a < b < keys.len(),
    ensures
        ({
            let order = sorted_order(keys, sorting_bits);
            let low = low_bits(keys, pass_count(sorting_bits));
            &&& low[order[a]] <= low[order[b]]
            &&& low[order[a]] == low[order[b]] ==> order[a] < order[b]
        }),
{
    let low = low_bits(keys, pass_count(sorting_bits));
    counting::lemma_rank_order_is_stable(low);
    assert(counting::precedes(
        low,
        sorted_order(keys, sorting_bits)[a],
        sorted_order(keys, sorting_bits)[b],
    ));
}

/// The sort is a permutation: every input position occurs exactly once.
pub proof fn sorted_order_is_a_permutation(keys: Seq<u32>, sorting_bits: u32)
    ensures
        sorted_order(keys, sorting_bits).len() == keys.len(),
        sorted_order(keys, sorting_bits).no_duplicates(),
        forall|i: int|
            0 <= i < keys.len() ==> #[trigger] sorted_order(keys, sorting_bits).contains(i),
{
    let low = low_bits(keys, pass_count(sorting_bits));
    let order = sorted_order(keys, sorting_bits);
    counting::lemma_rank_order_is_stable(low);
    counting::lemma_stable_order_no_duplicates(low, order);
    assert forall|i: int| 0 <= i < keys.len() implies #[trigger] order.contains(i) by {
        counting::lemma_injective_is_onto(order, i);
    }
}

/// Sorting by all 32 bits sorts by the whole key.
pub proof fn full_width_sort_is_by_key(keys: Seq<u32>, a: int, b: int)
    requires
        0 <= a <= b < keys.len(),
    ensures
        keys[sorted_order(keys, 32)[a]] <= keys[sorted_order(keys, 32)[b]],
{
    reveal_with_fuel(pow16, 9);
    if a < b {
        sorted_order_is_sorted_and_stable(keys, 32, a, b);
        let low = low_bits(keys, 8);
        counting::lemma_rank_order_is_stable(low);
        let order = sorted_order(keys, 32);
        assert(0 <= order[a] < keys.len() && 0 <= order[b] < keys.len());
        assert(low[order[a]] == keys[order[a]] as int && low[order[b]] == keys[order[b]] as int);
    }
}

/// Sorting by no bits leaves the input as it is.
pub proof fn zero_bit_sort_is_identity(keys: Seq<u32>, k: int)
    requires
        0 <= k < keys.len(),
    ensures
        sorted_order(keys, 0)[k] == k,
{
    let low = low_bits(keys, 0);
    let id = Seq::new(keys.len(), |i: int| i);
    assert(pow16(0) == 1);
    assert forall|a: int, b: int| 0 <= a < b < id.len() implies counting::precedes(
        low,
        #[trigger] id[a],
        #[trigger] id[b],
    ) by {}
    counting::lemma_rank_order_is_stable(low);
    counting::stable_order_is_unique(low, id, counting::rank_order(low));
}

/// Sorting what is already in sorted order changes nothing.
pub proof fn sort_is_idempotent(keys: Seq<u32>, sorting_bits: u32)
    ensures
        ({
            let sorted = counting::reorder(keys, sorted_order(keys, sorting_bits));
            counting::reorder(sorted, sorted_order(sorted, sorting_bits)) == sorted
        }),
{
    let low = low_bits(keys, pass_count(sorting_bits));
    let order = sorted_order(keys, sorting_bits);
    counting::lemma_rank_order_is_stable(low);
    let sorted = counting::reorder(keys, order);
    let sorted_low = low_bits(sorted, pass_count(sorting_bits));
    let id = Seq::new(keys.len(), |i: int| i);
    assert forall|a: int, b: int| 0 <= a < b < id.len() implies counting::precedes(
        sorted_low,
        #[trigger] id[a],
        #[trigger] id[b],
    ) by {
        assert(counting::precedes(low, order[a], order[b]));
        assert(sorted_low[a] == low[order[a]] && sorted_low[b] == low[order[b]]);
    }
    counting::lemma_rank_order_is_stable(sorted_low);
    counting::stable_order_is_unique(sorted_low, id, counting::rank_order(sorted_low));
    assert(counting::reorder(sorted, id) =~= sorted);
}

} // verus!
