//! Rows of spherical-harmonic gradients, written by planes of 32 lanes: which
//! product, or exact zero, each element of a row holds.

use crate::float_bits;
use crate::sh;
use vstd::prelude::*;

verus! {

pub const PLANE_SIZE: u32 = 32;

pub const WG_SIZE: u32 = 256;

/// Splat rows that one cube writes.
pub const SPLATS_PER_WG: u32 = 8;

/// What one element of a gradient row holds.
#[derive(Clone, Copy, Debug, PartialEq, Eq, Structural)]
pub enum ShGradTerm {
    /// Exact zero: the row's splat does not contribute.
    Zero,
    /// Basis function `basis` times color channel `channel` of visible splat
    /// `compact_gid`.
    Product { compact_gid: u32, basis: u32, channel: u32 },
}

/// Elements of a row.
pub open spec fn row_len(degree: int) -> int {
    sh::coeffs_of_degree(degree) * 3
}

/// Element `i` of a row whose splat is given one past its compact index, zero
/// for none.
pub open spec fn term_at(compact_plus_one: u32, i: int) -> ShGradTerm {
    if compact_plus_one == 0 {
        ShGradTerm::Zero
    } else {
        ShGradTerm::Product {
            compact_gid: (compact_plus_one - 1) as u32,
            basis: (i / 3) as u32,
            channel: (i % 3) as u32,
        }
    }
}

/// The color gradient of a visible splat has a component other than zero.
pub open spec fn has_color_gradient(v_combined: Seq<u32>, compact_gid: int) -> bool {
    ||| !float_bits::is_zero(v_combined[compact_gid * 10 + 5])
    ||| !float_bits::is_zero(v_combined[compact_gid * 10 + 6])
    ||| !float_bits::is_zero(v_combined[compact_gid * 10 + 7])
}

/// Inverts the compact-to-global map for the visible splats with a color
/// gradient: each enters one past its compact index under its global index.
/// `v_combined` holds bit patterns.
pub fn build_compact_sh_map_kernel(
    global_from_compact_gid: &Vec<u32>,
    v_combined: &Vec<u32>,
    compact_plus_one_from_global: &mut Vec<u32>,
    num_visible: u32,
)
    requires
        num_visible < u32::MAX,
        num_visible <= global_from_compact_gid.len(),
        num_visible * 10 <= v_combined.len(),
        forall|c: int|
            0 <= c < num_visible ==> #[trigger] global_from_compact_gid[c]
                < old(compact_plus_one_from_global).len(),
        forall|a: int, b: int|
            0 <= a < b < num_visible ==> global_from_compact_gid[a] != global_from_compact_gid[b],
    ensures
        final(compact_plus_one_from_global).len() == old(compact_plus_one_from_global).len(),
        forall|c: int|
            0 <= c < num_visible ==> #[trigger] final(
                compact_plus_one_from_global
            )[global_from_compact_gid[c] as int] == if has_color_gradient(v_combined@, c) {
                (c + 1) as u32
            } else {
                old(compact_plus_one_from_global)[global_from_compact_gid[c] as int]
            },
        forall|g: int|
            0 <= g < old(compact_plus_one_from_global).len() && (forall|c: int|
                0 <= c < num_visible ==> #[trigger] global_from_compact_gid[c] != g)
                ==> #[trigger] final(compact_plus_one_from_global)[g] == old(
                compact_plus_one_from_global
            )[g],
{
    let ghost before = compact_plus_one_from_global@;
    let ghost globals = global_from_compact_gid@;
    let mut compact_gid: u32 = 0;
    while compact_gid < num_visible
        invariant
            compact_gid <= num_visible,
            num_visible < u32::MAX,
            globals == global_from_compact_gid@,
            num_visible <= global_from_compact_gid.len(),
            num_visible * 10 <= v_combined.len(),
            compact_plus_one_from_global.len() == before.len(),
            forall|c: int| 0 <= c < num_visible ==> #[trigger] globals[c] < before.len(),
            forall|a: int, b: int| 0 <= a < b < num_visible ==> globals[a] != globals[b],
            forall|c: int|
                0 <= c < num_visible ==> #[trigger] compact_plus_one_from_global[globals[c] as int]
                    == if c < compact_gid && has_color_gradient(v_combined@, c) {
                    (c + 1) as u32
                } else {
                    before[globals[c] as int]
                },
            forall|g: int|
                0 <= g < before.len() && (forall|c: int|
                    0 <= c < num_visible ==> #[trigger] globals[c] != g)
                    ==> #[trigger] compact_plus_one_from_global[g] == before[g],
        decreases num_visible - compact_gid,
    {
        let grad_base: usize = compact_gid as usize * 10;
        if !float_bits::zero(v_combined[grad_base + 5]) || !float_bits::zero(
            v_combined[grad_base + 6],
        ) || !float_bits::zero(v_combined[grad_base + 7]) {
            let global_gid: u32 = global_from_compact_gid[compact_gid as usize];
            assert(global_gid == globals[compact_gid as int]);
            compact_plus_one_from_global.set(global_gid as usize, compact_gid + 1);
        }
        compact_gid = compact_gid + 1;
    }
}

/// Stores what a lane writes: its element in each third of the plane's reach,
/// as far as the row goes.
fn store_lane(
    out: &mut Vec<ShGradTerm>,
    row_base: usize,
    elements: u32,
    compact_plus_one: u32,
    lane: u32,
)
    requires
        lane < 32,
        elements <= 96,
        row_base + elements <= old(out).len(),
    ensures
        final(out).len() == old(out).len(),
        forall|k: int|
            0 <= k < old(out).len() ==> #[trigger] final(out)[k] == if row_base <= k < row_base
                + elements && (k - row_base) % 32 == lane {
                term_at(compact_plus_one, k - row_base)
            } else {
                old(out)[k]
            },
{
    let mut third: u32 = 0;
    let ghost before = out@;
    while third < 3
        invariant
            third <= 3,
            lane < 32,
            elements <= 96,
            row_base + elements <= before.len(),
            out.len() == before.len(),
            forall|k: int|
                0 <= k < before.len() ==> #[trigger] out[k] == if row_base <= k < row_base
                    + elements && (k - row_base) % 32 == lane && k - row_base < 32 * third {
                    term_at(compact_plus_one, k - row_base)
                } else {
                    before[k]
                },
        decreases 3 - third,
    {
        let index: u32 = lane + third * PLANE_SIZE;
        if index < elements {
            let term: ShGradTerm = if compact_plus_one == 0 {
                ShGradTerm::Zero
            } else {
                ShGradTerm::Product {
                    compact_gid: compact_plus_one - 1,
                    basis: index / 3,
                    channel: index % 3,
                }
            };
            out.set(row_base + index as usize, term);
        }
        third = third + 1;
    }
}

/// Writes the rows of `sources`, one past the compact index of each row's splat
/// or zero. Every element of every row is written, by exactly one lane.
pub fn materialize_sh_grad_kernel(sources: &Vec<u32>, elements: u32) -> (out: Vec<ShGradTerm>)
    requires
        elements <= 96,
        sources.len() * elements <= usize::MAX,
    ensures
        out.len() == sources.len() * elements,
        forall|row: int, i: int|
            0 <= row < sources.len() && 0 <= i < elements ==> out[#[trigger] (row * elements + i)]
                == term_at(sources[row], i),
{
    let total: usize = sources.len() * elements as usize;
    let mut out: Vec<ShGradTerm> = vec![ShGradTerm::Zero; total];
    let ghost n = elements as int;
    let mut row: usize = 0;
    let mut row_base: usize = 0;
    proof {
        assert(0 * n == 0);
    }
    while row < sources.len()
        invariant
            row <= sources.len(),
            n == elements,
            elements <= 96,
            row_base == row * n,
            row_base <= total,
            total == sources.len() * elements,
            out.len() == total,
            forall|r: int, i: int|
                0 <= r < row && 0 <= i < n ==> out[#[trigger] (r * n + i)] == term_at(
                    sources[r],
                    i,
                ),
        decreases sources.len() - row,
    {
        proof {
            assert(row * n + n <= sources.len() * n) by (nonlinear_arith)
                requires
                    row + 1 <= sources.len(),
                    n >= 0,
            ;
        }
        let ghost before = out@;
        let source: u32 = sources[row];
        let mut lane: u32 = 0;
        while lane < PLANE_SIZE
            invariant
                lane <= 32,
                n == elements,
                elements <= 96,
                row_base + n <= total,
                out.len() == total,
                before.len() == total,
                forall|k: int|
                    0 <= k < total ==> #[trigger] out[k] == if row_base <= k < row_base + n && (k
                        - row_base) % 32 < lane {
                        term_at(source, k - row_base)
                    } else {
                        before[k]
                    },
            decreases 32 - lane,
        {
            store_lane(&mut out, row_base, elements, source, lane);
            lane = lane + 1;
        }
        proof {
            assert forall|r: int, i: int| 0 <= r < row + 1 && 0 <= i < n implies out[#[trigger] (r
                * n + i)] == term_at(sources[r], i) by {
                if r < row {
                    assert(0 <= r * n && r * n + i < row * n) by (nonlinear_arith)
                        requires
                            0 <= r < row,
                            0 <= i < n,
                    ;
                    assert(before[r * n + i] == term_at(sources[r], i));
                }
            }
            assert((row + 1) * n == row * n + n) by (nonlinear_arith);
        }
        row_base = row_base + elements as usize;
        row = row + 1;
    }
    out
}

/// The dense gradient: one row per splat, exact zeros for splats without a
/// contribution.
pub fn materialize_dense_sh_grad(
    compact_plus_one_from_global: &Vec<u32>,
    sh_degree: u32,
) -> (out: Vec<ShGradTerm>)
    requires
        sh_degree <= 4,
        compact_plus_one_from_global.len() * row_len(sh_degree as int) <= usize::MAX,
    ensures
        out.len() == compact_plus_one_from_global.len() * row_len(sh_degree as int),
        forall|row: int, i: int|
            0 <= row < compact_plus_one_from_global.len() && 0 <= i < row_len(sh_degree as int)
                ==> out[#[trigger] (row * row_len(sh_degree as int) + i)] == term_at(
                compact_plus_one_from_global[row],
                i,
            ),
{
    let elements: u32 = row_elements(sh_degree);
    materialize_sh_grad_kernel(compact_plus_one_from_global, elements)
}

/// The compact gradient: a row of zeros for culled splats, then one row per
/// visible splat.
pub fn materialize_compact_sh_grad(num_visible: u32, sh_degree: u32) -> (out: Vec<ShGradTerm>)
    requires
        sh_degree <= 4,
        num_visible < u32::MAX,
        (num_visible + 1) * row_len(sh_degree as int) <= usize::MAX,
    ensures
        out.len() == (num_visible + 1) * row_len(sh_degree as int),
        forall|row: int, i: int|
            0 <= row <= num_visible && 0 <= i < row_len(sh_degree as int) ==> out[#[trigger] (row
                * row_len(sh_degree as int) + i)] == term_at(row as u32, i),
{
    let elements: u32 = row_elements(sh_degree);
    let mut sources: Vec<u32> = Vec::new();
    let mut row: u32 = 0;
    while row <= num_visible
        invariant
            row <= num_visible + 1,
            num_visible < u32::MAX,
            sources.len() == row,
            forall|k: int| 0 <= k < row ==> #[trigger] sources[k] == k,
        decreases num_visible + 1 - row,
    {
        sources.push(row);
        row = row + 1;
    }
    materialize_sh_grad_kernel(&sources, elements)
}

fn row_elements(sh_degree: u32) -> (elements: u32)
    requires
        sh_degree <= 4,
    ensures
        elements == row_len(sh_degree as int),
        elements <= 75,
{
    let n: u32 = sh::num_sh_coeffs(sh_degree);
    proof {
        assert(n <= 25) by (nonlinear_arith)
            requires
                n == (sh_degree + 1) * (sh_degree + 1),
                0 <= sh_degree <= 4,
        ;
    }
    n * 3
}

/// A plane's three stores per lane reach every element of a row of any
/// supported degree, each by one lane and one store.
pub proof fn lanes_cover_a_row_once(degree: int, i: int)
    requires
        0 <= degree <= 4,
        0 <= i < row_len(degree),
    ensures
        row_len(degree) <= 3 * PLANE_SIZE,
        exists|lane: int, third: int|
            0 <= lane < PLANE_SIZE && 0 <= third < 3 && #[trigger] (lane + third * 32) == i,
        forall|a: int, s: int, b: int, t: int|
            0 <= a < PLANE_SIZE && 0 <= b < PLANE_SIZE && #[trigger] (a + s * 32)
                == #[trigger] (b + t * 32) ==> a == b && s == t,
{
    assert(row_len(degree) <= 75) by (nonlinear_arith)
        requires
            0 <= degree <= 4,
            row_len(degree) == (degree + 1) * (degree + 1) * 3,
    ;
    let lane = i % 32;
    let third = i / 32;
    assert(lane + third * 32 == i);
}

/// The color gradient is the sixth to the eighth of a splat's ten numbers, and
/// is there where one of them is not zero.
pub proof fn color_gradient_is_a_part_of_the_row(v_combined: Seq<u32>, compact_gid: int)
    requires
        0 <= compact_gid,
        10 * (compact_gid + 1) <= v_combined.len(),
    ensures
        ({
            let row = v_combined.subrange(10 * compact_gid, 10 * (compact_gid + 1));
            let color = row.subrange(5, 8);
            has_color_gradient(v_combined, compact_gid) <==> exists|k: int|
                0 <= k < 3 && !float_bits::is_zero(#[trigger] color[k])
        }),
{
    let row = v_combined.subrange(10 * compact_gid, 10 * (compact_gid + 1));
    let color = row.subrange(5, 8);
    assert(color[0] == v_combined[compact_gid * 10 + 5]);
    assert(color[1] == v_combined[compact_gid * 10 + 6]);
    assert(color[2] == v_combined[compact_gid * 10 + 7]);
}

} // verus!
