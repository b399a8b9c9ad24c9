//! Inclusive prefix sum over groups of 256 threads, with one pass per level of
//! group totals.

use crate::scan;
use crate::sums;
use vstd::prelude::*;

verus! {

/// Threads per group. 256 is the portable limit on invocations per group.
pub const THREADS_PER_GROUP: usize = 256;

/// Number of groups that `len` elements take.
pub open spec fn group_count(len: int) -> int {
    (len + 255) / 256
}

/// Inclusive scan of one group by doubling strides: after the stride `t` every
/// slot holds the sum of the last `2 * t` values up to it.
pub fn group_scan(values: &Vec<u32>) -> (bucket: Vec<u32>)
    requires
        values.len() == THREADS_PER_GROUP,
    ensures
        bucket.len() == THREADS_PER_GROUP,
        forall|i: int|
            0 <= i < 256 ==> #[trigger] bucket[i] == sums::wrap32(
                sums::sum_range(values@, 0, i + 1),
            ),
{
    let mut bucket: Vec<u32> = Vec::new();
    let mut g: usize = 0;
    while g < THREADS_PER_GROUP
        invariant
            g <= 256,
            values.len() == 256,
            bucket.len() == g,
            forall|i: int|
                0 <= i < g ==> #[trigger] bucket[i] == sums::wrap32(
                    sums::sum_range(values@, i, i + 1),
                ),
        decreases 256 - g,
    {
        proof {
            assert(sums::sum_range(values@, g as int, g as int) == 0);
        }
        bucket.push(values[g]);
        g = g + 1;
    }
    let mut t: usize = 1;
    while t < THREADS_PER_GROUP
        invariant
            t == 1 || t == 2 || t == 4 || t == 8 || t == 16 || t == 32 || t == 64 || t == 128 || t
                == 256,
            values.len() == 256,
            bucket.len() == 256,
            forall|i: int|
                0 <= i < 256 ==> #[trigger] bucket[i] == sums::wrap32(
                    sums::sum_range(
                        values@,
                        if i + 1 < t {
                            0
                        } else {
                            i + 1 - t
                        },
                        i + 1,
                    ),
                ),
        decreases 256 - t,
    {
        let mut next: Vec<u32> = Vec::new();
        let mut gi: usize = 0;
        while gi < THREADS_PER_GROUP
            invariant
                gi <= 256,
                1 <= t < 256,
                values.len() == 256,
                bucket.len() == 256,
                next.len() == gi,
                forall|i: int|
                    0 <= i < 256 ==> #[trigger] bucket[i] == sums::wrap32(
                        sums::sum_range(
                            values@,
                            if i + 1 < t {
                                0
                            } else {
                                i + 1 - t
                            },
                            i + 1,
                        ),
                    ),
                forall|i: int|
                    0 <= i < gi ==> #[trigger] next[i] == sums::wrap32(
                        sums::sum_range(
                            values@,
                            if i + 1 < 2 * t {
                                0
                            } else {
                                i + 1 - 2 * t
                            },
                            i + 1,
                        ),
                    ),
            decreases 256 - gi,
        {
            let mut temp: u32 = bucket[gi];
            if gi >= t {
                proof {
                    let lo: int = if gi + 1 < 2 * t {
                        0
                    } else {
                        gi + 1 - 2 * t
                    };
                    let mid = gi + 1 - t;
                    sums::lemma_sum_split(values@, lo, mid, gi + 1);
                    sums::lemma_wrapping_add(temp, bucket[gi - t]);
                    sums::lemma_wrap_add(
                        sums::sum_range(values@, mid, gi + 1),
                        sums::sum_range(values@, lo, mid),
                    );
                    assert(bucket[gi - t] == sums::wrap32(sums::sum_range(values@, lo, mid)));
                }
                temp = temp.wrapping_add(bucket[gi - t]);
            }
            next.push(temp);
            gi = gi + 1;
        }
        bucket = next;
        t = t * 2;
    }
    bucket
}

/// Scans every group of `xs` on its own.
fn scan_groups(xs: &Vec<u32>) -> (output: Vec<u32>)
    requires
        xs.len() + 255 <= u32::MAX,
    ensures
        output.len() == xs.len(),
        forall|i: int|
            0 <= i < xs.len() ==> #[trigger] output[i] == sums::wrap32(
                sums::sum_range(xs@, i - i % 256, i + 1),
            ),
{
    let n: usize = xs.len();
    let mut output: Vec<u32> = Vec::new();
    let mut base: usize = 0;
    while base < n
        invariant
            n == xs.len(),
            n + 255 <= u32::MAX,
            base % 256 == 0,
            base <= n + 255,
            output.len() == if base < n {
                base
            } else {
                n
            },
            forall|i: int|
                0 <= i < output.len() ==> #[trigger] output[i] == sums::wrap32(
                    sums::sum_range(xs@, i - i % 256, i + 1),
                ),
        decreases n + 255 - base,
    {
        let mut group: Vec<u32> = Vec::new();
        let mut gi: usize = 0;
        while gi < THREADS_PER_GROUP
            invariant
                n == xs.len(),
                n + 255 <= u32::MAX,
                base < n,
                gi <= 256,
                group.len() == gi,
                forall|k: int|
                    0 <= k < gi ==> #[trigger] group[k] == if base + k < n {
                        xs[base + k]
                    } else {
                        0
                    },
            decreases 256 - gi,
        {
            if base + gi < n {
                group.push(xs[base + gi]);
            } else {
                group.push(0);
            }
            gi = gi + 1;
        }
        let bucket: Vec<u32> = group_scan(&group);
        let mut id: usize = 0;
        while id < THREADS_PER_GROUP && base + id < n
            invariant
                n == xs.len(),
                n + 255 <= u32::MAX,
                base < n,
                base % 256 == 0,
                id <= 256,
                base + id <= n,
                group.len() == 256,
                bucket.len() == 256,
                output.len() == base + id,
                forall|k: int|
                    0 <= k < 256 ==> #[trigger] group[k] == if base + k < n {
                        xs[base + k]
                    } else {
                        0
                    },
                forall|k: int|
                    0 <= k < 256 ==> #[trigger] bucket[k] == sums::wrap32(
                        sums::sum_range(group@, 0, k + 1),
                    ),
                forall|i: int|
                    0 <= i < output.len() ==> #[trigger] output[i] == sums::wrap32(
                        sums::sum_range(xs@, i - i % 256, i + 1),
                    ),
            decreases 256 - id,
        {
            proof {
                sums::lemma_sum_eq(group@, xs@, 0, id + 1, base as int);
                let i = base + id;
                assert(i - i % 256 == base);
            }
            output.push(bucket[id]);
            id = id + 1;
        }
        base = base + THREADS_PER_GROUP;
    }
    output
}

/// Inclusive scan within each group of the input.
pub fn prefix_sum_scan_kernel(input: &Vec<u32>) -> (output: Vec<u32>)
    requires
        input.len() + 255 <= u32::MAX,
    ensures
        output.len() == input.len(),
        forall|i: int|
            0 <= i < input.len() ==> #[trigger] output[i] == sums::wrap32(
                sums::sum_range(input@, i - i % 256, i + 1),
            ),
{
    scan_groups(input)
}

/// The total of the group before each of `len` groups, zero for the first and
/// for groups that `level` does not reach.
pub open spec fn preceding_totals(level: Seq<u32>, len: int) -> Seq<u32> {
    Seq::new(
        len as nat,
        |id: int|
            if id != 0 && id * 256 - 1 < level.len() {
                level[id * 256 - 1]
            } else {
                0
            },
    )
}

/// Scans, group by group, the last value of every preceding group of `input`.
pub fn prefix_sum_scan_sums_kernel(input: &Vec<u32>, len: usize) -> (output: Vec<u32>)
    requires
        len + 255 <= u32::MAX,
        len * 256 <= usize::MAX,
    ensures
        output.len() == len,
        forall|i: int|
            0 <= i < len ==> #[trigger] output[i] == sums::wrap32(
                sums::sum_range(preceding_totals(input@, len as int), i - i % 256, i + 1),
            ),
{
    let mut xs: Vec<u32> = Vec::new();
    let mut id: usize = 0;
    while id < len
        invariant
            id <= len,
            len * 256 <= usize::MAX,
            xs.len() == id,
            forall|k: int|
                0 <= k < id ==> #[trigger] xs[k] == preceding_totals(input@, len as int)[k],
        decreases len - id,
    {
        let mut x: u32 = 0;
        if id != 0 {
            let idx: usize = id * THREADS_PER_GROUP - 1;
            if idx < input.len() {
                x = input[idx];
            }
        }
        xs.push(x);
        id = id + 1;
    }
    assert(xs@ =~= preceding_totals(input@, len as int));
    scan_groups(&xs)
}

/// Adds the offset of its group to every element of `output`.
pub fn prefix_sum_add_scanned_sums_kernel(input: &Vec<u32>, output: &mut Vec<u32>)
    requires
        old(output).len() <= 256 * input.len(),
    ensures
        final(output).len() == old(output).len(),
        forall|i: int|
            0 <= i < old(output).len() ==> #[trigger] final(output)[i] == sums::wrap32(
                old(output)[i] + input[i / 256],
            ),
{
    let ghost before = output@;
    let mut id: usize = 0;
    while id < output.len()
        invariant
            id <= output.len(),
            output.len() == before.len(),
            before.len() <= 256 * input.len(),
            forall|i: int|
                0 <= i < before.len() ==> #[trigger] output[i] == if i < id {
                    sums::wrap32(before[i] + input[i / 256])
                } else {
                    before[i]
                },
        decreases output.len() - id,
    {
        let group: usize = id / THREADS_PER_GROUP;
        let v: u32 = output[id];
        proof {
            sums::lemma_wrapping_add(v, input[group as int]);
        }
        output.set(id, v.wrapping_add(input[group]));
        id = id + 1;
    }
}

/// The offset of every group: the full prefix sum of the totals of the groups
/// before it, through as many levels as the totals take.
fn group_offsets(level: &Vec<u32>) -> (offsets: Vec<u32>)
    requires
        level.len() + 255 <= u32::MAX,
    ensures
        offsets.len() == group_count(level.len() as int),
        forall|j: int|
            0 <= j < offsets.len() ==> #[trigger] offsets[j] == sums::wrap32(
                sums::sum_range(
                    preceding_totals(level@, group_count(level.len() as int)),
                    0,
                    j + 1,
                ),
            ),
    decreases level.len(),
{
    let len: usize = level.len() / THREADS_PER_GROUP + if level.len() % THREADS_PER_GROUP != 0 {
        1usize
    } else {
        0usize
    };
    let mut buffer: Vec<u32> = prefix_sum_scan_sums_kernel(level, len);
    let ghost x = preceding_totals(level@, len as int);
    let ghost scanned = buffer@;
    if len > THREADS_PER_GROUP {
        let upper: Vec<u32> = group_offsets(&buffer);
        let ghost y = preceding_totals(scanned, group_count(len as int));
        prefix_sum_add_scanned_sums_kernel(&upper, &mut buffer);
        proof {
            assert forall|j: int| 0 <= j < len implies #[trigger] buffer[j] == sums::wrap32(
                sums::sum_range(x, 0, j + 1),
            ) by {
                let b = j / 256;
                assert(scanned[j] == sums::wrap32(sums::sum_range(x, j - j % 256, j + 1)));
                lemma_preceding_prefix(scanned, x, len as int, b);
                assert(upper[b] == sums::wrap32(sums::sum_range(y, 0, b + 1)));
                sums::lemma_sum_split(x, 0, 256 * b, j + 1);
                sums::lemma_wrap_add(
                    sums::sum_range(x, 256 * b, j + 1),
                    sums::sum_range(x, 0, 256 * b),
                );
                assert(j - j % 256 == 256 * b);
            }
        }
    }
    buffer
}

/// The preceding totals of a group-wise scan of `x` add up to prefixes of `x`.
proof fn lemma_preceding_prefix(scanned: Seq<u32>, x: Seq<u32>, len: int, b: int)
    requires
        scanned.len() == len,
        x.len() == len,
        0 <= b < group_count(len),
        forall|i: int|
            0 <= i < len ==> #[trigger] scanned[i] == sums::wrap32(
                sums::sum_range(x, i - i % 256, i + 1),
            ),
    ensures
        sums::wrap32(sums::sum_range(preceding_totals(scanned, group_count(len)), 0, b + 1))
            == sums::wrap32(sums::sum_range(x, 0, 256 * b)),
    decreases b,
{
    let y = preceding_totals(scanned, group_count(len));
    assert(sums::sum_range(y, 0, b + 1) == sums::sum_range(y, 0, b) + y[b]);
    if b == 0 {
        assert(y[0] == 0);
    } else {
        lemma_preceding_prefix(scanned, x, len, b - 1);
        let i = 256 * b - 1;
        assert(y[b] == scanned[i]);
        assert(i - i % 256 == 256 * (b - 1));
        sums::lemma_sum_split(x, 0, 256 * (b - 1), 256 * b);
        sums::lemma_wrap_add(sums::sum_range(y, 0, b), y[b] as int);
        sums::lemma_wrap_add(
            sums::sum_range(x, 0, 256 * (b - 1)),
            sums::sum_range(x, 256 * (b - 1), 256 * b),
        );
    }
}

/// Inclusive prefix sum.
pub fn prefix_sum(input: &Vec<u32>) -> (outputs: Vec<u32>)
    requires
        input.len() + 255 <= u32::MAX,
    ensures
        scan::is_prefix_sum(input@, outputs@),
{
    if input.len() == 0 {
        return Vec::new();
    }
    let mut outputs: Vec<u32> = prefix_sum_scan_kernel(input);
    if input.len() <= THREADS_PER_GROUP {
        return outputs;
    }
    let ghost scanned = outputs@;
    let offsets: Vec<u32> = group_offsets(&outputs);
    prefix_sum_add_scanned_sums_kernel(&offsets, &mut outputs);
    proof {
        let n = input.len() as int;
        assert forall|i: int| 0 <= i < n implies #[trigger] outputs[i] == sums::wrap32(
            sums::sum_range(input@, 0, i + 1),
        ) by {
            let b = i / 256;
            assert(scanned[i] == sums::wrap32(sums::sum_range(input@, i - i % 256, i + 1)));
            lemma_preceding_prefix(scanned, input@, n, b);
            assert(offsets[b] == sums::wrap32(
                sums::sum_range(preceding_totals(scanned, group_count(n)), 0, b + 1),
            ));
            sums::lemma_sum_split(input@, 0, 256 * b, i + 1);
            sums::lemma_wrap_add(
                sums::sum_range(input@, 256 * b, i + 1),
                sums::sum_range(input@, 0, 256 * b),
            );
            assert(i - i % 256 == 256 * b);
        }
    }
    outputs
}

/// An input has one prefix sum: whatever meets the contract of one scan equals
/// whatever meets the contract of another.
pub proof fn prefix_sums_agree(input: Seq<u32>, a: Seq<u32>, b: Seq<u32>)
    requires
        scan::is_prefix_sum(input, a),
        scan::is_prefix_sum(input, b),
    ensures
        a == b,
{
    assert(a =~= b);
}

/// The differences of neighbouring prefix sums give the input back.
pub proof fn prefix_sum_determines_input(input: Seq<u32>, out: Seq<u32>, i: int)
    requires
        scan::is_prefix_sum(input, out),
        0 < i < input.len(),
    ensures
        out[0] == input[0],
        out[i].wrapping_sub(out[i - 1]) == input[i],
{
    assert(sums::sum_range(input, 0, 1) == sums::sum_range(input, 0, 0) + input[0]);
    assert(out[0] == sums::wrap32(sums::sum_range(input, 0, 1)));
    let a = sums::sum_range(input, 0, i);
    assert(out[i] == sums::wrap32(sums::sum_range(input, 0, i + 1)));
    assert(out[i - 1] == sums::wrap32(sums::sum_range(input, 0, i)));
    sums::lemma_wrapping_sub(out[i], out[i - 1]);
    sums::lemma_wrap_sub(a + input[i], a);
}

/// The groups cover the elements, and with one fewer they would not.
pub proof fn groups_just_cover_the_elements(len: int)
    requires
        0 <= len,
    ensures
        len <= group_count(len) * THREADS_PER_GROUP,
        len > 0 ==> (group_count(len) - 1) * THREADS_PER_GROUP < len,
        len == 0 ==> group_count(len) == 0,
{
}

} // verus!
