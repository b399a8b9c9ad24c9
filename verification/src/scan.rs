//! Block scans over cubes of threads and the device-wide inclusive prefix sum
//! built from them.

use crate::sums;
use vstd::prelude::*;

verus! {

/// Threads per cube for the scan kernels.
pub const WG: u32 = 256;

/// Elements each thread scans locally before the cube-wide combine.
pub const ELEMENTS_PER_THREAD: u32 = 4;

/// Elements scanned by one cube.
pub const BLOCK_SIZE: u32 = 1024;

/// Upper bound on the number of planes inside a cube: 256 threads in planes of
/// at least 8 lanes.
pub const MAX_PLANES: usize = 32;

/// `plane_dim` is a plane width that divides a cube of `threads` threads into
/// at most [`MAX_PLANES`] planes.
pub open spec fn valid_plane_dim(threads: int, plane_dim: int) -> bool {
    &&& 0 < plane_dim <= threads
    &&& threads % plane_dim == 0
    &&& threads / plane_dim <= MAX_PLANES
}

/// Inclusive sum of every lane over its own plane.
pub fn plane_inclusive_sum(values: &Vec<u32>, plane_dim: usize) -> (out: Vec<u32>)
    requires
        plane_dim > 0,
    ensures
        out.len() == values.len(),
        forall|i: int|
            0 <= i < values.len() ==> #[trigger] out[i] == sums::wrap32(
                sums::sum_range(values@, i - i % (plane_dim as int), i + 1),
            ),
{
    let mut out: Vec<u32> = Vec::new();
    let mut acc: u32 = 0;
    let mut lane: usize = 0;
    let mut i: usize = 0;
    while i < values.len()
        invariant
            plane_dim > 0,
            i <= values.len(),
            out.len() == i,
            lane < plane_dim,
            lane <= i,
            lane as int == (i as int) % (plane_dim as int),
            acc == sums::wrap32(sums::sum_range(values@, i - lane, i as int)),
            forall|k: int|
                0 <= k < i ==> #[trigger] out[k] == sums::wrap32(
                    sums::sum_range(values@, k - k % (plane_dim as int), k + 1),
                ),
        decreases values.len() - i,
    {
        let v: u32 = values[i];
        proof {
            sums::lemma_wrapping_add(acc, v);
            sums::lemma_wrap_add(sums::sum_range(values@, i - lane, i as int), v as int);
        }
        acc = acc.wrapping_add(v);
        out.push(acc);
        proof {
            assert((i as int + 1) % (plane_dim as int) == if lane + 1 == plane_dim {
                0
            } else {
                lane + 1
            }) by {
                vstd::arithmetic::div_mod::lemma_add_mod_noop(
                    i as int,
                    1,
                    plane_dim as int,
                );
                if plane_dim == 1 {
                } else {
                    vstd::arithmetic::div_mod::lemma_small_mod(1, plane_dim as nat);
                    if lane + 1 < plane_dim {
                        vstd::arithmetic::div_mod::lemma_small_mod(
                            (lane + 1) as nat,
                            plane_dim as nat,
                        );
                    } else {
                        vstd::arithmetic::div_mod::lemma_mod_self_0(plane_dim as int);
                    }
                }
            }
        }
        i = i + 1;
        if lane + 1 == plane_dim {
            lane = 0;
            acc = 0;
        } else {
            lane = lane + 1;
        }
    }
    out
}

/// Exclusive sum of every lane over one plane.
pub fn plane_exclusive_sum(values: &Vec<u32>) -> (out: Vec<u32>)
    ensures
        out.len() == values.len(),
        forall|i: int|
            0 <= i < values.len() ==> #[trigger] out[i] == sums::wrap32(sums::sum_range(values@, 0, i)),
{
    let mut out: Vec<u32> = Vec::new();
    let mut acc: u32 = 0;
    let mut i: usize = 0;
    while i < values.len()
        invariant
            i <= values.len(),
            out.len() == i,
            acc == sums::wrap32(sums::sum_range(values@, 0, i as int)),
            forall|k: int| 0 <= k < i ==> #[trigger] out[k] == sums::wrap32(sums::sum_range(values@, 0, k)),
        decreases values.len() - i,
    {
        out.push(acc);
        proof {
            sums::lemma_wrapping_add(acc, values[i as int]);
            sums::lemma_wrap_add(sums::sum_range(values@, 0, i as int), values[i as int] as int);
        }
        acc = acc.wrapping_add(values[i]);
        i = i + 1;
    }
    out
}


/// Exclusive prefix sum of one value per thread over a whole cube, and the
/// cube total.
///
/// Every plane scans its own lanes; the plane totals are scanned by one plane,
/// or serially when there are more planes than a plane has lanes.
pub fn cube_exclusive_sum(values: &Vec<u32>, plane_dim: usize) -> (r: (Vec<u32>, u32))
    requires
        valid_plane_dim(values.len() as int, plane_dim as int),
    ensures
        r.0.len() == values.len(),
        forall|i: int|
            0 <= i < values.len() ==> #[trigger] r.0[i] == sums::wrap32(
                sums::sum_range(values@, 0, i),
            ),
        r.1 == sums::wrap32(sums::sum_range(values@, 0, values.len() as int)),
{
    let num_planes: usize = values.len() / plane_dim;
    let plane_inclusive: Vec<u32> = plane_inclusive_sum(values, plane_dim);
    let ghost d = plane_dim as int;
    let ghost n = values.len() as int;
    proof {
        vstd::arithmetic::div_mod::lemma_fundamental_div_mod(n, d);
        assert(d * num_planes == n);
        assert(num_planes >= 1) by (nonlinear_arith)
            requires
                d * num_planes == n,
                n > 0,
                d > 0,
                num_planes >= 0,
        ;
    }
    let mut partials: Vec<u32> = Vec::new();
    let mut p: usize = 0;
    while p < num_planes
        invariant
            d == plane_dim,
            d > 0,
            n == values.len(),
            d * num_planes == n,
            p <= num_planes,
            partials.len() == p,
            plane_inclusive.len() == n,
            forall|i: int|
                0 <= i < n ==> #[trigger] plane_inclusive[i] == sums::wrap32(
                    sums::sum_range(values@, i - i % d, i + 1),
                ),
            forall|q: int|
                0 <= q < p ==> #[trigger] partials[q] == sums::wrap32(
                    sums::sum_range(values@, d * q, d * q + d),
                ),
        decreases num_planes - p,
    {
        proof {
            assert(d * p + d <= n) by (nonlinear_arith)
                requires
                    d * num_planes == n,
                    p + 1 <= num_planes,
                    d > 0,
            ;
            assert(d * p == p * d) by (nonlinear_arith);
            assert((d * p + (d - 1)) % d == d - 1) by {
                vstd::arithmetic::div_mod::lemma_mod_multiples_vanish(p as int, d - 1, d);
                vstd::arithmetic::div_mod::lemma_small_mod((d - 1) as nat, d as nat);
            }
            assert(0 <= d * p) by (nonlinear_arith)
                requires
                    d > 0,
                    p >= 0,
            ;
        }
        let last: usize = p * plane_dim + (plane_dim - 1);
        partials.push(plane_inclusive[last]);
        p = p + 1;
    }
    let offsets: Vec<u32>;
    let total: u32;
    if num_planes <= plane_dim {
        let mut padded: Vec<u32> = Vec::new();
        let mut lane: usize = 0;
        while lane < plane_dim
            invariant
                lane <= plane_dim,
                num_planes <= plane_dim,
                partials.len() == num_planes,
                padded.len() == lane,
                forall|q: int|
                    0 <= q < lane ==> #[trigger] padded[q] == if q < num_planes {
                        partials[q]
                    } else {
                        0
                    },
            decreases plane_dim - lane,
        {
            if lane < num_planes {
                padded.push(partials[lane]);
            } else {
                padded.push(0);
            }
            lane = lane + 1;
        }
        let scanned: Vec<u32> = plane_exclusive_sum(&padded);
        proof {
            assert forall|q: int| 0 <= q <= num_planes implies sums::sum_range(padded@, 0, q)
                == #[trigger] sums::sum_range(partials@, 0, q) by {
                sums::lemma_sum_eq(padded@, partials@, 0, q, 0);
            }
            let k = num_planes - 1;
            sums::lemma_wrapping_add(scanned[k], padded[k]);
            sums::lemma_wrap_add(sums::sum_range(padded@, 0, k), padded[k] as int);
        }
        assert forall|q: int| 0 <= q < num_planes implies #[trigger] scanned[q] == sums::wrap32(
            sums::sum_range(partials@, 0, q),
        ) by {
            assert(sums::sum_range(padded@, 0, q) == sums::sum_range(partials@, 0, q));
        }
        total = scanned[num_planes - 1].wrapping_add(padded[num_planes - 1]);
        offsets = scanned;
    } else {
        let scanned: Vec<u32> = plane_exclusive_sum(&partials);
        proof {
            let k = num_planes - 1;
            sums::lemma_wrapping_add(scanned[k], partials[k]);
            sums::lemma_wrap_add(sums::sum_range(partials@, 0, k), partials[k] as int);
        }
        total = scanned[num_planes - 1].wrapping_add(partials[num_planes - 1]);
        offsets = scanned;
    }
    proof {
        assert forall|q: int| 0 <= q <= num_planes implies sums::wrap32(
            sums::sum_range(values@, 0, d * q),
        ) == sums::wrap32(#[trigger] sums::sum_range(partials@, 0, q)) by {
            sums::lemma_sum_of_groups(partials@, values@, d, q);
        }
        assert forall|q: int| 0 <= q < num_planes implies #[trigger] offsets[q] == sums::wrap32(
            sums::sum_range(values@, 0, d * q),
        ) by {
            assert(offsets[q] == sums::wrap32(sums::sum_range(partials@, 0, q)));
        }
        assert(sums::sum_range(partials@, 0, num_planes as int) == sums::sum_range(
            partials@,
            0,
            num_planes - 1,
        ) + partials[num_planes - 1]);
    }
    let mut exclusive: Vec<u32> = Vec::new();
    let mut i: usize = 0;
    while i < values.len()
        invariant
            d == plane_dim,
            d > 0,
            n == values.len(),
            d * num_planes == n,
            i <= values.len(),
            exclusive.len() == i,
            plane_inclusive.len() == n,
            offsets.len() >= num_planes,
            forall|k: int|
                0 <= k < n ==> #[trigger] plane_inclusive[k] == sums::wrap32(
                    sums::sum_range(values@, k - k % d, k + 1),
                ),
            forall|q: int|
                0 <= q < num_planes ==> #[trigger] offsets[q] == sums::wrap32(
                    sums::sum_range(values@, 0, d * q),
                ),
            forall|k: int|
                0 <= k < i ==> #[trigger] exclusive[k] == sums::wrap32(
                    sums::sum_range(values@, 0, k),
                ),
        decreases values.len() - i,
    {
        let plane: usize = i / plane_dim;
        proof {
            vstd::arithmetic::div_mod::lemma_fundamental_div_mod(i as int, d);
            assert(plane < num_planes) by (nonlinear_arith)
                requires
                    d * plane + i as int % d == i,
                    i < d * num_planes,
                    d > 0,
                    0 <= i as int % d,
            ;
            let start = i as int - i as int % d;
            assert(start == d * plane);
            let head = sums::sum_range(values@, 0, start);
            let body = sums::sum_range(values@, start, i + 1);
            sums::lemma_sum_split(values@, 0, start, i + 1);
            sums::lemma_wrapping_add(offsets[plane as int], plane_inclusive[i as int]);
            sums::lemma_wrap_add(head, body);
            sums::lemma_wrapping_sub(
                offsets[plane as int].wrapping_add(plane_inclusive[i as int]),
                values[i as int],
            );
            sums::lemma_wrap_sub(head + body, values[i as int] as int);
        }
        let e: u32 = offsets[plane].wrapping_add(plane_inclusive[i]).wrapping_sub(values[i]);
        exclusive.push(e);
        i = i + 1;
    }
    (exclusive, total)
}

/// Sum of one value per thread over a whole cube.
pub fn cube_sum(values: &Vec<u32>, plane_dim: usize) -> (total: u32)
    requires
        valid_plane_dim(values.len() as int, plane_dim as int),
    ensures
        total == sums::wrap32(sums::sum_range(values@, 0, values.len() as int)),
{
    let r: (Vec<u32>, u32) = cube_exclusive_sum(values, plane_dim);
    r.1
}

/// Buffer slot of the `lin`-th element of a block.
pub open spec fn lds_slot(lin: int) -> int {
    (lin % 4) * 256 + lin / 4
}

/// Where the `lin`-th element of a block lives in a block-scan buffer.
///
/// Consecutive threads load consecutive elements, stored transposed so that
/// each thread then owns [`ELEMENTS_PER_THREAD`] consecutive values at a
/// stride of [`WG`].
pub fn lds_index(lin: u32) -> (slot: u32)
    ensures
        slot == lds_slot(lin as int),
{
    (lin % ELEMENTS_PER_THREAD) * WG + lin / ELEMENTS_PER_THREAD
}

/// The block layout is a permutation of the buffer: every slot holds exactly
/// one element, and the element that a thread owns at `j * 256 + u` is element
/// `4 * u + j` of the block.
pub proof fn lds_layout_is_a_permutation()
    ensures
        forall|a: int| 0 <= a < BLOCK_SIZE ==> 0 <= #[trigger] lds_slot(a) < BLOCK_SIZE,
        forall|a: int, b: int|
            0 <= a < BLOCK_SIZE && 0 <= b < BLOCK_SIZE && #[trigger] lds_slot(a)
                == #[trigger] lds_slot(b) ==> a == b,
        forall|u: int, j: int|
            0 <= u < WG && 0 <= j < ELEMENTS_PER_THREAD ==> #[trigger] lds_slot(4 * u + j) == j
                * 256 + u,
{
}

/// The elements of a block-scan buffer in block order.
pub open spec fn block_order(lds: Seq<u32>) -> Seq<u32> {
    Seq::new(1024, |lin: int| lds[lds_slot(lin)])
}

proof fn lemma_block_order_update(lds: Seq<u32>, lin: int, v: u32)
    requires
        lds.len() == BLOCK_SIZE,
        0 <= lin < BLOCK_SIZE,
    ensures
        0 <= lds_slot(lin) < BLOCK_SIZE,
        block_order(lds.update(lds_slot(lin), v)) == block_order(lds).update(lin, v),
{
    lds_layout_is_a_permutation();
    let after = block_order(lds.update(lds_slot(lin), v));
    assert forall|k: int| 0 <= k < 1024 implies #[trigger] after[k] == block_order(lds).update(
        lin,
        v,
    )[k] by {
        assert(0 <= lds_slot(k) < BLOCK_SIZE);
        if k != lin {
            assert(lds_slot(k) != lds_slot(lin));
        }
    }
    assert(after =~= block_order(lds).update(lin, v));
}

/// Fills a block-scan buffer from `src[offset + base ..]`, element `lin` of the
/// block being zero where `base + lin` reaches `limit`.
pub(crate) fn load_block(src: &Vec<u32>, offset: usize, base: usize, limit: usize) -> (lds: Vec<u32>)
    requires
        offset + limit <= src.len(),
        base + 1024 <= usize::MAX,
    ensures
        lds.len() == BLOCK_SIZE,
        forall|lin: int|
            0 <= lin < 1024 ==> #[trigger] block_order(lds@)[lin] == if base + lin < limit {
                src[offset + base + lin]
            } else {
                0
            },
{
    let mut lds: Vec<u32> = vec![0u32; 1024];
    let mut lin: u32 = 0;
    while lin < BLOCK_SIZE
        invariant
            lin <= 1024,
            lds.len() == 1024,
            offset + limit <= src.len(),
            base + 1024 <= usize::MAX,
            forall|k: int|
                0 <= k < lin ==> #[trigger] block_order(lds@)[k] == if base + k < limit {
                    src[offset + base + k]
                } else {
                    0
                },
        decreases 1024 - lin,
    {
        let at: usize = base + lin as usize;
        let v: u32 = if at < limit {
            src[offset + at]
        } else {
            0
        };
        let slot: u32 = lds_index(lin);
        proof {
            lemma_block_order_update(lds@, lin as int, v);
        }
        lds.set(slot as usize, v);
        lin = lin + 1;
    }
    lds
}

/// Scans the [`BLOCK_SIZE`] values that a cube holds in `lds`, adds `base` to
/// every result, and returns the cube's total. `inclusive` picks whether an
/// element counts itself.
pub fn block_scan(lds: &mut Vec<u32>, base: u32, inclusive: bool, plane_dim: usize) -> (total: u32)
    requires
        old(lds).len() == BLOCK_SIZE,
        valid_plane_dim(WG as int, plane_dim as int),
    ensures
        final(lds).len() == BLOCK_SIZE,
        forall|lin: int|
            0 <= lin < 1024 ==> #[trigger] block_order(final(lds)@)[lin] == sums::wrap32(
                base + sums::sum_range(
                    block_order(old(lds)@),
                    0,
                    if inclusive {
                        lin + 1
                    } else {
                        lin
                    },
                ),
            ),
        total == sums::wrap32(sums::sum_range(block_order(old(lds)@), 0, 1024)),
{
    let ghost l = block_order(lds@);
    let ghost inc: int = if inclusive {
        1
    } else {
        0
    };
    let mut thread_sums: Vec<u32> = Vec::new();
    let mut u: u32 = 0;
    while u < WG
        invariant
            u <= 256,
            lds.len() == 1024,
            l.len() == 1024,
            inc == (if inclusive {
                1int
            } else {
                0int
            }),
            thread_sums.len() == u,
            forall|v: int|
                0 <= v < u ==> #[trigger] thread_sums[v] == sums::wrap32(
                    sums::sum_range(l, 4 * v, 4 * v + 4),
                ),
            forall|k: int|
                0 <= k < 1024 ==> #[trigger] block_order(lds@)[k] == if k < 4 * u {
                    sums::wrap32(sums::sum_range(l, 4 * (k / 4), k + inc))
                } else {
                    l[k]
                },
        decreases 256 - u,
    {
        let mut thread_sum: u32 = 0;
        let mut j: u32 = 0;
        while j < ELEMENTS_PER_THREAD
            invariant
                u < 256,
                j <= 4,
                lds.len() == 1024,
                l.len() == 1024,
                inc == (if inclusive {
                    1int
                } else {
                    0int
                }),
                thread_sum == sums::wrap32(sums::sum_range(l, 4 * u as int, 4 * u + j)),
                forall|k: int|
                    0 <= k < 1024 ==> #[trigger] block_order(lds@)[k] == if k < 4 * u + j {
                        sums::wrap32(sums::sum_range(l, 4 * (k / 4), k + inc))
                    } else {
                        l[k]
                    },
            decreases 4 - j,
        {
            let idx: usize = (j * WG + u) as usize;
            let ghost k = 4 * u + j;
            proof {
                lds_layout_is_a_permutation();
                assert(lds_slot(4 * (u as int) + j as int) == j * 256 + u);
                assert(block_order(lds@)[k] == l[k]);
                lemma_block_order_update(lds@, k, thread_sum);
                lemma_block_order_update(lds@, k, thread_sum.wrapping_add(l[k]));
                sums::lemma_wrapping_add(thread_sum, l[k]);
                sums::lemma_wrap_add(sums::sum_range(l, 4 * u as int, k), l[k] as int);
            }
            let v: u32 = lds[idx];
            if inclusive {
                thread_sum = thread_sum.wrapping_add(v);
                lds.set(idx, thread_sum);
            } else {
                lds.set(idx, thread_sum);
                thread_sum = thread_sum.wrapping_add(v);
            }
            j = j + 1;
        }
        thread_sums.push(thread_sum);
        u = u + 1;
    }
    let scanned: (Vec<u32>, u32) = cube_exclusive_sum(&thread_sums, plane_dim);
    let ghost mid = block_order(lds@);
    proof {
        assert forall|v: int| 0 <= v <= 256 implies sums::wrap32(
            #[trigger] sums::sum_range(thread_sums@, 0, v),
        ) == sums::wrap32(sums::sum_range(l, 0, 4 * v)) by {
            sums::lemma_sum_of_groups(thread_sums@, l, 4, v);
        }
    }
    let mut t: u32 = 0;
    while t < WG
        invariant
            t <= 256,
            lds.len() == 1024,
            l.len() == 1024,
            mid.len() == 1024,
            inc == (if inclusive {
                1int
            } else {
                0int
            }),
            scanned.0.len() == 256,
            forall|v: int|
                0 <= v < 256 ==> #[trigger] scanned.0[v] == sums::wrap32(
                    sums::sum_range(l, 0, 4 * v),
                ),
            forall|k: int|
                0 <= k < 1024 ==> #[trigger] mid[k] == sums::wrap32(
                    sums::sum_range(l, 4 * (k / 4), k + inc),
                ),
            forall|k: int|
                0 <= k < 1024 ==> #[trigger] block_order(lds@)[k] == if k < 4 * t {
                    sums::wrap32(base + sums::sum_range(l, 0, k + inc))
                } else {
                    mid[k]
                },
        decreases 256 - t,
    {
        let offset: u32 = base.wrapping_add(scanned.0[t as usize]);
        proof {
            sums::lemma_wrapping_add(base, scanned.0[t as int]);
            sums::lemma_wrap_add(base as int, sums::sum_range(l, 0, 4 * (t as int)));
        }
        let mut j: u32 = 0;
        while j < ELEMENTS_PER_THREAD
            invariant
                t < 256,
                j <= 4,
                lds.len() == 1024,
                l.len() == 1024,
                mid.len() == 1024,
                inc == (if inclusive {
                    1int
                } else {
                    0int
                }),
                offset == sums::wrap32(base + sums::sum_range(l, 0, 4 * (t as int))),
                forall|k: int|
                    0 <= k < 1024 ==> #[trigger] mid[k] == sums::wrap32(
                        sums::sum_range(l, 4 * (k / 4), k + inc),
                    ),
                forall|k: int|
                    0 <= k < 1024 ==> #[trigger] block_order(lds@)[k] == if k < 4 * t + j {
                        sums::wrap32(base + sums::sum_range(l, 0, k + inc))
                    } else {
                        mid[k]
                    },
            decreases 4 - j,
        {
            let idx: usize = (j * WG + t) as usize;
            let ghost k = 4 * t + j;
            let v: u32 = lds[idx];
            proof {
                lds_layout_is_a_permutation();
                assert(lds_slot(4 * (t as int) + j as int) == j * 256 + t);
                assert(block_order(lds@)[k] == mid[k]);
                lemma_block_order_update(lds@, k, v.wrapping_add(offset));
                sums::lemma_wrapping_add(v, offset);
                let head = base + sums::sum_range(l, 0, 4 * (t as int));
                let tail = sums::sum_range(l, 4 * (t as int), k + inc);
                sums::lemma_sum_split(l, 0, 4 * (t as int), k + inc);
                sums::lemma_wrap_add(tail, head);
                assert(k / 4 == t);
            }
            lds.set(idx, v.wrapping_add(offset));
            j = j + 1;
        }
        t = t + 1;
    }
    scanned.1
}

/// Number of blocks of [`BLOCK_SIZE`] elements that `len` elements take.
pub open spec fn block_count(len: int) -> int {
    (len + 1023) / 1024
}

/// Inclusive scan within each block of [`BLOCK_SIZE`] elements, and the total
/// of every block for the next level.
pub fn scan_blocks_kernel(input: &Vec<u32>, plane_dim: usize) -> (r: (Vec<u32>, Vec<u32>))
    requires
        input.len() + 1023 <= u32::MAX,
        valid_plane_dim(WG as int, plane_dim as int),
    ensures
        r.0.len() == input.len(),
        forall|i: int|
            0 <= i < input.len() ==> #[trigger] r.0[i] == sums::wrap32(
                sums::sum_range(input@, i - i % 1024, i + 1),
            ),
        r.1.len() == block_count(input.len() as int),
        forall|b: int|
            0 <= b < r.1.len() ==> #[trigger] r.1[b] == sums::wrap32(
                sums::sum_range(
                    input@,
                    1024 * b,
                    if 1024 * b + 1024 < input.len() {
                        1024 * b + 1024
                    } else {
                        input.len() as int
                    },
                ),
            ),
{
    let n: usize = input.len();
    let mut output: Vec<u32> = Vec::new();
    let mut block_sums: Vec<u32> = Vec::new();
    let mut base: usize = 0;
    while base < n
        invariant
            n == input.len(),
            n + 1023 <= u32::MAX,
            valid_plane_dim(WG as int, plane_dim as int),
            base == 1024 * block_sums.len(),
            base <= n + 1023,
            output.len() == if base < n {
                base
            } else {
                n
            },
            forall|i: int|
                0 <= i < output.len() ==> #[trigger] output[i] == sums::wrap32(
                    sums::sum_range(input@, i - i % 1024, i + 1),
                ),
            forall|b: int|
                0 <= b < block_sums.len() ==> #[trigger] block_sums[b] == sums::wrap32(
                    sums::sum_range(
                        input@,
                        1024 * b,
                        if 1024 * b + 1024 < input.len() {
                            1024 * b + 1024
                        } else {
                            input.len() as int
                        },
                    ),
                ),
        decreases n + 1023 - base,
    {
        let mut lds: Vec<u32> = load_block(input, 0, base, n);
        let ghost l = block_order(lds@);
        let total: u32 = block_scan(&mut lds, 0, true, plane_dim);
        let mut lin: u32 = 0;
        while lin < BLOCK_SIZE && base + (lin as usize) < n
            invariant
                n == input.len(),
                n + 1023 <= u32::MAX,
                base % 1024 == 0,
                base < n,
                lin <= 1024,
                base + lin <= n,
                lds.len() == 1024,
                l.len() == 1024,
                output.len() == base + lin,
                forall|k: int|
                    0 <= k < 1024 ==> #[trigger] l[k] == if base + k < n {
                        input[base + k]
                    } else {
                        0
                    },
                forall|k: int|
                    0 <= k < 1024 ==> #[trigger] block_order(lds@)[k] == sums::wrap32(
                        0 + sums::sum_range(l, 0, k + 1),
                    ),
                forall|i: int|
                    0 <= i < output.len() ==> #[trigger] output[i] == sums::wrap32(
                        sums::sum_range(input@, i - i % 1024, i + 1),
                    ),
            decreases 1024 - lin,
        {
            let slot: u32 = lds_index(lin);
            proof {
                lds_layout_is_a_permutation();
                assert(block_order(lds@)[lin as int] == lds[slot as int]);
                sums::lemma_sum_eq(l, input@, 0, lin + 1, base as int);
                let i = base + lin;
                assert(i - i % 1024 == base);
            }
            output.push(lds[slot as usize]);
            lin = lin + 1;
        }
        proof {
            let hi: int = if base + 1024 < n {
                1024
            } else {
                n - base
            };
            sums::lemma_sum_eq(l, input@, 0, hi, base as int);
            sums::lemma_sum_split(l, 0, hi, 1024);
            sums::lemma_sum_zero(l, hi, 1024);
        }
        block_sums.push(total);
        base = base + 1024;
    }
    (output, block_sums)
}

/// Adds each block's exclusive offset, taken from the inclusive scan of the
/// block sums, to every element of `output`.
pub fn add_block_offsets_kernel(scanned_sums: &Vec<u32>, output: &mut Vec<u32>)
    requires
        old(output).len() <= 1024 * (scanned_sums.len() + 1),
    ensures
        final(output).len() == old(output).len(),
        forall|i: int|
            0 <= i < old(output).len() ==> #[trigger] final(output)[i] == if i / 1024 > 0 {
                sums::wrap32(old(output)[i] + scanned_sums[i / 1024 - 1])
            } else {
                old(output)[i]
            },
{
    let ghost before = output@;
    let mut idx: usize = 0;
    while idx < output.len()
        invariant
            idx <= output.len(),
            output.len() == before.len(),
            before.len() <= 1024 * (scanned_sums.len() + 1),
            forall|i: int|
                0 <= i < before.len() ==> #[trigger] output[i] == if i < idx && i / 1024 > 0 {
                    sums::wrap32(before[i] + scanned_sums[i / 1024 - 1])
                } else {
                    before[i]
                },
        decreases output.len() - idx,
    {
        let block: usize = idx / 1024;
        if block > 0 {
            let v: u32 = output[idx];
            proof {
                sums::lemma_wrapping_add(v, scanned_sums[block - 1]);
            }
            output.set(idx, v.wrapping_add(scanned_sums[block - 1]));
        }
        idx = idx + 1;
    }
}

/// `out` is the inclusive prefix sum of `input` in 32-bit words.
pub open spec fn is_prefix_sum(input: Seq<u32>, out: Seq<u32>) -> bool {
    &&& out.len() == input.len()
    &&& forall|i: int|
        0 <= i < input.len() ==> #[trigger] out[i] == sums::wrap32(
            sums::sum_range(input, 0, i + 1),
        )
}

/// Inclusive prefix sum.
///
/// Each cube scans a block of [`BLOCK_SIZE`] elements and emits its total; the
/// totals are scanned the same way, level by level, and each level's offsets
/// are added back to the level below.
pub fn prefix_sum(input: &Vec<u32>, plane_dim: usize) -> (out: Vec<u32>)
    requires
        input.len() + 1023 <= u32::MAX,
        valid_plane_dim(WG as int, plane_dim as int),
    ensures
        is_prefix_sum(input@, out@),
    decreases input.len(),
{
    if input.len() == 0 {
        return Vec::new();
    }
    let (mut out, block_sums): (Vec<u32>, Vec<u32>) = scan_blocks_kernel(input, plane_dim);
    if block_sums.len() == 1 {
        return out;
    }
    let scanned: Vec<u32> = prefix_sum(&block_sums, plane_dim);
    let ghost blocks = out@;
    add_block_offsets_kernel(&scanned, &mut out);
    proof {
        assert forall|i: int| 0 <= i < input.len() implies #[trigger] out[i] == sums::wrap32(
            sums::sum_range(input@, 0, i + 1),
        ) by {
            let b = i / 1024;
            assert(blocks[i] == sums::wrap32(sums::sum_range(input@, i - i % 1024, i + 1)));
            assert(i - i % 1024 == 1024 * b);
            if b > 0 {
                assert forall|v: int| 0 <= v < b implies #[trigger] block_sums[v] == sums::wrap32(
                    sums::sum_range(input@, 1024 * v, 1024 * v + 1024),
                ) by {}
                sums::lemma_sum_of_groups(block_sums@, input@, 1024, b);
                assert(scanned[b - 1] == sums::wrap32(sums::sum_range(block_sums@, 0, b)));
                sums::lemma_sum_split(input@, 0, 1024 * b, i + 1);
                sums::lemma_wrap_add(
                    sums::sum_range(input@, 1024 * b, i + 1),
                    sums::sum_range(input@, 0, 1024 * b),
                );
            }
        }
    }
    out
}

} // verus!
