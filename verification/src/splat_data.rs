//! Raw splat data of an imported file: flat lists of values, one stride of
//! values per splat.

use crate::gaussian_splats;
use crate::gaussian_splats::{SplatRenderMode, Splats};
use crate::num::{deterministic, lit, Geometric};
use crate::scale_floor::inverse_sigmoid;
use vstd::prelude::*;

verus! {

/// Values of the rows of a file. Only positions are always present.
#[derive(Clone, Debug)]
pub struct SplatData<T> {
    /// Positions: three values per splat.
    pub means: Vec<T>,
    pub rotations: Option<Vec<T>>,
    pub log_scales: Option<Vec<T>>,
    pub sh_coeffs: Option<Vec<T>>,
    pub raw_opacities: Option<Vec<T>>,
}

/// Values that stand in for fields a file does not have.
pub struct SplatDefaults<T> {
    pub rotation: (T, T, T, T),
    pub log_scale: T,
    pub sh_coeff: T,
    pub raw_opacity: T,
}

impl<S: Geometric> SplatDefaults<S> {
    /// What splats get that come without a field.
    pub open spec fn standard_values() -> SplatDefaults<S> {
        SplatDefaults {
            rotation: (
                lit::<S>("1.0").value,
                lit::<S>("0.0").value,
                lit::<S>("0.0").value,
                lit::<S>("0.0").value,
            ),
            log_scale: lit::<S>("-4.0").value,
            sh_coeff: lit::<S>("0.5").value,
            raw_opacity: inverse_sigmoid(lit::<S>("0.5")).value,
        }
    }

    /// What splats get that come without a field: no rotation, a small scale, a
    /// gray color and an opacity of one half.
    pub fn standard() -> (d: SplatDefaults<S>)
        ensures
            deterministic::<S>() ==> d == Self::standard_values(),
    {
        SplatDefaults {
            rotation: (
                lit::<S>("1.0").value,
                lit::<S>("0.0").value,
                lit::<S>("0.0").value,
                lit::<S>("0.0").value,
            ),
            log_scale: lit::<S>("-4.0").value,
            sh_coeff: lit::<S>("0.5").value,
            raw_opacity: inverse_sigmoid(lit::<S>("0.5")).value,
        }
    }
}

/// Number of rows kept when every `step`-th of `rows` rows is kept.
pub open spec fn kept_rows(rows: int, step: int) -> int {
    (rows + step - 1) / step
}

/// `out` holds every `step`-th of the `rows` rows of `stride` values of `v`.
pub open spec fn is_strided<T>(v: Seq<T>, rows: int, stride: int, step: int, out: Seq<T>) -> bool {
    &&& out.len() == kept_rows(rows, step) * stride
    &&& forall|r: int, k: int|
        0 <= r < kept_rows(rows, step) && 0 <= k < stride ==> #[trigger] out[r * stride + k]
            == v[(r * step) * stride + k]
}

pub proof fn lemma_kept_rows(rows: int, step: int, r: int)
    requires
        0 <= rows,
        0 < step,
        0 <= r,
    ensures
        0 <= kept_rows(rows, step),
        r < kept_rows(rows, step) <==> r * step < rows,
{
    vstd::arithmetic::div_mod::lemma_fundamental_div_mod(rows + step - 1, step);
    let q = (rows + step - 1) / step;
    let m = (rows + step - 1) % step;
    assert(0 <= q) by (nonlinear_arith)
        requires
            rows + step - 1 == step * q + m,
            0 <= m < step,
            0 <= rows + step - 1,
    ;
    if r < q {
        assert(r * step < rows) by (nonlinear_arith)
            requires
                rows + step - 1 == step * q + m,
                0 <= m < step,
                r + 1 <= q,
        ;
    } else {
        assert(r * step >= rows) by (nonlinear_arith)
            requires
                rows + step - 1 == step * q + m,
                0 <= m < step,
                r >= q,
        ;
    }
}

/// Every `step`-th row of `stride` values.
fn pick<T: Copy>(v: &Vec<T>, stride: usize, step: usize) -> (out: Vec<T>)
    requires
        stride > 0,
        step > 0,
    ensures
        is_strided(v@, v.len() as int / stride as int, stride as int, step as int, out@),
{
    let rows: usize = v.len() / stride;
    let ghost s = stride as int;
    let ghost p = step as int;
    let mut out: Vec<T> = Vec::new();
    let mut row: usize = 0;
    let ghost mut r: int = 0;
    proof {
        vstd::arithmetic::div_mod::lemma_fundamental_div_mod(v.len() as int, s);
        assert(s * rows == rows * s) by (nonlinear_arith);
        assert(0 * p == 0 && 0 * s == 0);
    }
    let mut more: bool = rows > 0;
    while more
        invariant
            s == stride,
            p == step,
            stride > 0,
            step > 0,
            rows * s <= v.len(),
            0 <= r,
            more ==> row == r * p && row < rows,
            !more ==> r * p >= rows,
            (r == 0 || (r - 1) * p < rows),
            out.len() == r * s,
            forall|a: int, k: int|
                0 <= a < r && 0 <= k < s ==> #[trigger] out[a * s + k] == v[(a * p) * s + k],
        decreases rows - r,
    {
        let ghost before = out@;
        proof {
            assert(row * s + s <= rows * s && 0 <= row * s) by (nonlinear_arith)
                requires
                    row + 1 <= rows,
                    s > 0,
                    row >= 0,
            ;
        }
        let base: usize = row * stride;
        let mut k: usize = 0;
        while k < stride
            invariant
                s == stride,
                k <= stride,
                base == row * s,
                base + s <= v.len(),
                before.len() == r * s,
                out.len() == before.len() + k,
                forall|x: int| 0 <= x < before.len() ==> out[x] == before[x],
                forall|x: int| 0 <= x < k ==> out[before.len() + x] == #[trigger] v[base + x],
            decreases stride - k,
        {
            out.push(v[base + k]);
            k = k + 1;
        }
        proof {
            assert((r + 1) * s == r * s + s) by (nonlinear_arith);
            assert((r + 1) * p == r * p + p) by (nonlinear_arith);
            assert forall|a: int, k: int| 0 <= a < r + 1 && 0 <= k < s implies #[trigger] out[a * s
                + k] == v[(a * p) * s + k] by {
                if a < r {
                    assert(0 <= a * s && a * s + k < r * s) by (nonlinear_arith)
                        requires
                            0 <= a < r,
                            0 <= k < s,
                    ;
                    assert(before[a * s + k] == v[(a * p) * s + k]);
                } else {
                    assert(out[before.len() + k] == v[base + k]);
                }
            }
            assert(r < rows) by (nonlinear_arith)
                requires
                    r * p < rows,
                    p >= 1,
                    r >= 0,
            ;
            r = r + 1;
        }
        if rows - row > step {
            row = row + step;
        } else {
            more = false;
        }
    }
    proof {
        lemma_kept_rows(rows as int, p, r);
        if r > 0 {
            lemma_kept_rows(rows as int, p, r - 1);
        }
        assert(r == kept_rows(rows as int, p));
    }
    out
}

/// Row `i` of a list of rows of four values.
spec fn row4<T>(v: Seq<T>, i: int) -> (T, T, T, T) {
    (v[4 * i], v[4 * i + 1], v[4 * i + 2], v[4 * i + 3])
}

/// `count` copies of a row of four values.
fn repeat4<T: Copy>(row: (T, T, T, T), count: usize) -> (out: Vec<T>)
    requires
        count * 4 <= usize::MAX,
    ensures
        out.len() == count * 4,
        forall|i: int|
            0 <= i < count ==> #[trigger] row4(out@, i) == row,
{
    let mut out: Vec<T> = Vec::new();
    let mut i: usize = 0;
    while i < count
        invariant
            i <= count,
            out.len() == 4 * i,
            forall|k: int|
                0 <= k < i ==> #[trigger] row4(out@, k) == row,
        decreases count - i,
    {
        let ghost before = out@;
        out.push(row.0);
        out.push(row.1);
        out.push(row.2);
        out.push(row.3);
        proof {
            assert forall|k: int| 0 <= k < i + 1 implies #[trigger] row4(out@, k) == row by {
                if k < i {
                    assert(row4(before, k) == row);
                }
            }
        }
        i = i + 1;
    }
    out
}

/// `count` copies of a value.
fn repeat<T: Copy>(value: T, count: usize) -> (out: Vec<T>)
    ensures
        out.len() == count,
        forall|i: int| 0 <= i < count ==> #[trigger] out[i] == value,
{
    let mut out: Vec<T> = Vec::new();
    let mut i: usize = 0;
    while i < count
        invariant
            i <= count,
            out.len() == i,
            forall|k: int| 0 <= k < i ==> #[trigger] out[k] == value,
        decreases count - i,
    {
        out.push(value);
        i = i + 1;
    }
    out
}

impl<T: Copy> SplatData<T> {
    pub open spec fn count(&self) -> int {
        self.means.len() as int / 3
    }

    /// Values per splat in the coefficient list.
    pub open spec fn sh_stride(&self) -> int {
        self.sh_coeffs->0.len() as int / self.count()
    }

    /// Rows between two kept rows when at most `max_splats` are kept.
    pub open spec fn step_for(&self, max_splats: int) -> int {
        kept_rows(self.count(), max_splats)
    }

    pub fn num_splats(&self) -> (n: usize)
        ensures
            n == self.count(),
    {
        self.means.len() / 3
    }

    /// Keeps every so many rows, so that at most `max_splats` remain. Zero
    /// stands for no limit.
    pub fn subsample(self, max_splats: usize) -> (out: SplatData<T>)
        requires
            0 < max_splats < self.count() && self.sh_coeffs is Some ==> self.sh_stride() > 0,
        ensures
            max_splats == 0 || self.count() <= max_splats ==> out == self,
            0 < max_splats < self.count() ==> ({
                let step = self.step_for(max_splats as int);
                &&& is_strided(self.means@, self.count(), 3, step, out.means@)
                &&& match self.rotations {
                    Some(v) => out.rotations is Some && is_strided(
                        v@,
                        v.len() as int / 4,
                        4,
                        step,
                        out.rotations->0@,
                    ),
                    None => out.rotations is None,
                }
                &&& match self.log_scales {
                    Some(v) => out.log_scales is Some && is_strided(
                        v@,
                        v.len() as int / 3,
                        3,
                        step,
                        out.log_scales->0@,
                    ),
                    None => out.log_scales is None,
                }
                &&& match self.sh_coeffs {
                    Some(v) => out.sh_coeffs is Some && is_strided(
                        v@,
                        v.len() as int / self.sh_stride(),
                        self.sh_stride(),
                        step,
                        out.sh_coeffs->0@,
                    ),
                    None => out.sh_coeffs is None,
                }
                &&& match self.raw_opacities {
                    Some(v) => out.raw_opacities is Some && is_strided(
                        v@,
                        v.len() as int,
                        1,
                        step,
                        out.raw_opacities->0@,
                    ),
                    None => out.raw_opacities is None,
                }
            }),
    {
        let n: usize = self.num_splats();
        if max_splats == 0 || n <= max_splats {
            return self;
        }
        let step: usize = n / max_splats + if n % max_splats != 0 {
            1usize
        } else {
            0usize
        };
        proof {
            lemma_div_ceil(n as int, max_splats as int);
            lemma_kept_rows(n as int, max_splats as int, 0);
        }
        let means: Vec<T> = pick(&self.means, 3, step);
        let rotations: Option<Vec<T>> = match &self.rotations {
            Some(v) => Some(pick(v, 4, step)),
            None => None,
        };
        let log_scales: Option<Vec<T>> = match &self.log_scales {
            Some(v) => Some(pick(v, 3, step)),
            None => None,
        };
        let sh_coeffs: Option<Vec<T>> = match &self.sh_coeffs {
            Some(v) => Some(pick(v, v.len() / n, step)),
            None => None,
        };
        let raw_opacities: Option<Vec<T>> = match &self.raw_opacities {
            Some(v) => Some(pick(v, 1, step)),
            None => None,
        };
        SplatData { means, rotations, log_scales, sh_coeffs, raw_opacities }
    }

    /// Turns the data into splats. Missing fields get their defaults, missing
    /// colors one coefficient per channel.
    pub fn into_splats(self, defaults: SplatDefaults<T>, mode: SplatRenderMode) -> (s: Splats<T>)
        requires
            0 < self.count() <= u32::MAX,
            self.count() * 4 <= usize::MAX,
            self.means.len() == self.count() * 3,
            self.rotations is Some ==> self.rotations->0.len() == self.count() * 4,
            self.log_scales is Some ==> self.log_scales->0.len() == self.count() * 3,
            self.raw_opacities is Some ==> self.raw_opacities->0.len() == self.count(),
            self.sh_coeffs is Some ==> exists|c: u32|
                self.sh_coeffs->0.len() == self.count() * (#[trigger] (c * 3)),
        ensures
            s.wf(),
            s.count() == self.count(),
            s.render_mip == (mode == SplatRenderMode::Mip),
            s.min_scale is None,
            gaussian_splats::is_column_slice(s.transforms@, s.count(), 0, 3, self.means@),
            match self.rotations {
                Some(v) => gaussian_splats::is_column_slice(
                    s.transforms@,
                    s.count(),
                    3,
                    4,
                    v@,
                ),
                None => forall|i: int|
                    0 <= i < self.count() ==> {
                        &&& #[trigger] gaussian_splats::cell(s.transforms@, 10, i, 3)
                            == defaults.rotation.0
                        &&& gaussian_splats::cell(s.transforms@, 10, i, 4)
                            == defaults.rotation.1
                        &&& gaussian_splats::cell(s.transforms@, 10, i, 5)
                            == defaults.rotation.2
                        &&& gaussian_splats::cell(s.transforms@, 10, i, 6)
                            == defaults.rotation.3
                    },
            },
            match self.log_scales {
                Some(v) => gaussian_splats::is_column_slice(
                    s.transforms@,
                    s.count(),
                    7,
                    3,
                    v@,
                ),
                None => forall|i: int, k: int|
                    0 <= i < self.count() && 7 <= k < 10
                        ==> #[trigger] gaussian_splats::cell(s.transforms@, 10, i, k)
                        == defaults.log_scale,
            },
            match self.sh_coeffs {
                Some(v) => s.sh_coeffs@ == v@,
                None => s.sh_coeffs.len() == self.count() * 3 && forall|i: int|
                    0 <= i < self.count() * 3 ==> #[trigger] s.sh_coeffs[i] == defaults.sh_coeff,
            },
            match self.raw_opacities {
                Some(v) => s.raw_opacities@ == v@,
                None => forall|i: int|
                    0 <= i < self.count() ==> #[trigger] s.raw_opacities[i] == defaults.raw_opacity,
            },
    {
        let n: usize = self.num_splats();
        let ghost me = self;
        let rotations: Vec<T> = match self.rotations {
            Some(v) => v,
            None => repeat4(defaults.rotation, n),
        };
        let log_scales: Vec<T> = match self.log_scales {
            Some(v) => v,
            None => repeat(defaults.log_scale, n * 3),
        };
        let sh_coeffs: Vec<T> = match self.sh_coeffs {
            Some(v) => v,
            None => repeat(defaults.sh_coeff, n * 3),
        };
        let opacities: Vec<T> = match self.raw_opacities {
            Some(v) => v,
            None => repeat(defaults.raw_opacity, n),
        };
        proof {
            if me.sh_coeffs is None {
                assert(sh_coeffs.len() == opacities.len() * (1u32 * 3));
            }
        }
        let s: Splats<T> = Splats::from_raw(
            &self.means,
            &rotations,
            &log_scales,
            sh_coeffs,
            opacities,
            mode,
        );
        proof {
            let t = s.transforms@;
            if me.rotations is None {
                assert forall|i: int| 0 <= i < n implies {
                    &&& #[trigger] gaussian_splats::cell(t, 10, i, 3) == defaults.rotation.0
                    &&& gaussian_splats::cell(t, 10, i, 4) == defaults.rotation.1
                    &&& gaussian_splats::cell(t, 10, i, 5) == defaults.rotation.2
                    &&& gaussian_splats::cell(t, 10, i, 6) == defaults.rotation.3
                } by {
                    assert(row4(rotations@, i) == defaults.rotation);
                    assert(gaussian_splats::cell(rotations@, 4, i, 0)
                        == gaussian_splats::cell(t, 10, i, 3 + 0int));
                    assert(gaussian_splats::cell(rotations@, 4, i, 1)
                        == gaussian_splats::cell(t, 10, i, 3 + 1int));
                    assert(gaussian_splats::cell(rotations@, 4, i, 2)
                        == gaussian_splats::cell(t, 10, i, 3 + 2int));
                    assert(gaussian_splats::cell(rotations@, 4, i, 3)
                        == gaussian_splats::cell(t, 10, i, 3 + 3int));
                }
            }
            if me.log_scales is None {
                assert forall|i: int, k: int|
                    0 <= i < n && 7 <= k
                        < 10 implies #[trigger] gaussian_splats::cell(t, 10, i, k)
                    == defaults.log_scale by {
                    assert(gaussian_splats::cell(log_scales@, 3, i, k - 7)
                        == gaussian_splats::cell(t, 10, i, 7 + (k - 7)));
                    assert(log_scales[i * 3 + (k - 7)] == defaults.log_scale);
                }
            }
        }
        s
    }
}

pub proof fn lemma_div_ceil(n: int, d: int)
    requires
        0 <= n,
        0 < d,
    ensures
        kept_rows(n, d) == n / d + if n % d != 0 {
            1int
        } else {
            0int
        },
{
    vstd::arithmetic::div_mod::lemma_fundamental_div_mod(n, d);
    let q = n / d;
    let m = n % d;
    if m != 0 {
        assert(n + d - 1 == (q + 1) * d + (m - 1)) by (nonlinear_arith)
            requires
                n == d * q + m,
        ;
        vstd::arithmetic::div_mod::lemma_fundamental_div_mod_converse(
            n + d - 1,
            d,
            q + 1,
            m - 1,
        );
    } else {
        assert(n + d - 1 == q * d + (d - 1)) by (nonlinear_arith)
            requires
                n == d * q + m,
                m == 0,
        ;
        vstd::arithmetic::div_mod::lemma_fundamental_div_mod_converse(n + d - 1, d, q, d - 1);
    }
}

/// A subsample never exceeds its limit, and keeps the first row.
pub proof fn subsample_respects_the_limit(n: int, max_splats: int)
    requires
        0 < max_splats < n,
    ensures
        1 <= kept_rows(n, kept_rows(n, max_splats)) <= max_splats,
{
    let step = kept_rows(n, max_splats);
    lemma_kept_rows(n, max_splats, 0);
    lemma_kept_rows(n, max_splats, step);
    assert(0 < step);
    assert(step * max_splats >= n);
    assert(max_splats * step >= n) by (nonlinear_arith)
        requires
            step * max_splats >= n,
    ;
    lemma_kept_rows(n, step, max_splats);
    lemma_kept_rows(n, step, 0);
}

/// The color row of a splat: base color, then the rest with its channels
/// interleaved. The rest comes channel by channel.
pub open spec fn interleaved<T>(dc: (T, T, T), rest: Seq<T>, n: int) -> Seq<T> {
    let per_channel = n / 3;
    Seq::new(
        (3 + 3 * per_channel) as nat,
        |x: int|
            if x == 0 {
                dc.0
            } else if x == 1 {
                dc.1
            } else if x == 2 {
                dc.2
            } else {
                rest[((x - 3) % 3) * per_channel + (x - 3) / 3]
            },
    )
}

/// Appends the color row of a splat, from its base color and the first `n`
/// values of the rest.
pub fn interleave_coeffs<T: Copy>(dc: (T, T, T), rest: &Vec<T>, n: usize, result: &mut Vec<T>)
    requires
        n <= rest.len(),
    ensures
        final(result)@ == old(result)@ + interleaved(dc, rest@, n as int),
{
    let per_channel: usize = n / 3;
    let ghost start = result@;
    let ghost row = interleaved(dc, rest@, n as int);
    result.push(dc.0);
    result.push(dc.1);
    result.push(dc.2);
    let mut i: usize = 0;
    while i < per_channel
        invariant
            i <= per_channel,
            per_channel == n / 3,
            n <= rest.len(),
            row == interleaved(dc, rest@, n as int),
            result.len() == start.len() + 3 + 3 * i,
            forall|x: int| 0 <= x < start.len() ==> #[trigger] result[x] == start[x],
            forall|x: int|
                0 <= x < 3 + 3 * i ==> result[start.len() + x] == #[trigger] row[x],
        decreases per_channel - i,
    {
        let mut j: usize = 0;
        while j < 3
            invariant
                j <= 3,
                i < per_channel,
                per_channel == n / 3,
                n <= rest.len(),
                row == interleaved(dc, rest@, n as int),
                result.len() == start.len() + 3 + 3 * i + j,
                forall|x: int| 0 <= x < start.len() ==> #[trigger] result[x] == start[x],
                forall|x: int|
                    0 <= x < 3 + 3 * i + j ==> result[start.len() + x] == #[trigger] row[x],
            decreases 3 - j,
        {
            proof {
                let x = 3 + 3 * i + j;
                assert((x - 3) % 3 == j && (x - 3) / 3 == i);
                assert(j * per_channel + i < 3 * per_channel && 0 <= j * per_channel)
                    by (nonlinear_arith)
                    requires
                        0 <= j <= 2,
                        0 <= i < per_channel,
                ;
                assert(row[x] == rest[j * per_channel + i]);
            }
            let index: usize = j * per_channel + i;
            result.push(rest[index]);
            j = j + 1;
        }
        i = i + 1;
    }
    assert(result@ =~= start + row);
}

/// Interleaving moves every value of the rest to one place: channel `j` of
/// coefficient `i` stands third by third behind the base color.
pub proof fn interleaving_keeps_every_value<T>(dc: (T, T, T), rest: Seq<T>, n: int, i: int, j: int)
    requires
        0 <= n <= rest.len(),
        n % 3 == 0,
        0 <= i < n / 3,
        0 <= j < 3,
    ensures
        interleaved(dc, rest, n).len() == n + 3,
        interleaved(dc, rest, n)[3 + 3 * i + j] == rest[j * (n / 3) + i],
{
    let x = 3 + 3 * i + j;
    assert((x - 3) % 3 == j && (x - 3) / 3 == i);
}

} // verus!
