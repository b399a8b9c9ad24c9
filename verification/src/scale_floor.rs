//! The scale floor of splats: what folding it into scales and opacities gives,
//! and what splats with a floor look like.
use vstd::prelude::*;

use crate::gaussian_splats;
use crate::gaussian_splats::{
    display_pass, render_mode_of, RasterPass, SplatRenderMode, Splats, TextureMode,
};
use crate::num::{deterministic, lit, Geometric, Num, Vec3};

verus! {

pub open spec fn spec_inverse_sigmoid<S: Geometric>(x: Num<S>) -> Num<S> {
    (x / (lit("1.0") - x)).ln()
}

/// The number whose logistic function is `x`.
#[verifier::when_used_as_spec(spec_inverse_sigmoid)]
pub fn inverse_sigmoid<S: Geometric>(x: Num<S>) -> (out: Num<S>)
    ensures
        deterministic::<S>() ==> out == inverse_sigmoid(x),
{
    (x / (lit("1.0") - x)).ln()
}

pub open spec fn spec_folded_log_scale<S: Geometric>(log_scale: Num<S>, f: Num<S>) -> Num<S> {
    ((log_scale * lit("2.0")).exp() + f * f).ln() * lit("0.5")
}

/// The logarithm of a scale after the floor `f` is folded in:
/// `ln(sqrt(s^2 + f^2))`.
#[verifier::when_used_as_spec(spec_folded_log_scale)]
pub fn folded_log_scale<S: Geometric>(log_scale: Num<S>, f: Num<S>) -> (out: Num<S>)
    ensures
        deterministic::<S>() ==> out == folded_log_scale(log_scale, f),
{
    ((log_scale * lit("2.0")).exp() + f * f).ln() * lit("0.5")
}

pub open spec fn spec_folded_log_scales<S: Geometric>(log_scales: Vec3<S>, f: Num<S>) -> Vec3<S> {
    Vec3 {
        x: folded_log_scale(log_scales.x, f),
        y: folded_log_scale(log_scales.y, f),
        z: folded_log_scale(log_scales.z, f),
    }
}

/// The logarithms of a splat's scales after the floor is folded in.
#[verifier::when_used_as_spec(spec_folded_log_scales)]
pub fn folded_log_scales<S: Geometric>(log_scales: Vec3<S>, f: Num<S>) -> (out: Vec3<S>)
    ensures
        deterministic::<S>() ==> out == folded_log_scales(log_scales, f),
{
    Vec3 {
        x: folded_log_scale(log_scales.x, f),
        y: folded_log_scale(log_scales.y, f),
        z: folded_log_scale(log_scales.z, f),
    }
}

pub open spec fn spec_energy_ratio<S: Geometric>(log_scales: Vec3<S>, f: Num<S>) -> Num<S> {
    let folded = folded_log_scales(log_scales, f);
    ((log_scales.x - folded.x) + (log_scales.y - folded.y) + (log_scales.z - folded.z)).exp()
}

/// The factor by which the floor thins a splat, from the logarithms: the product of
/// tiny scales could underflow even where the ratio does not.
#[verifier::when_used_as_spec(spec_energy_ratio)]
pub fn energy_ratio<S: Geometric>(log_scales: Vec3<S>, f: Num<S>) -> (out: Num<S>)
    ensures
        deterministic::<S>() ==> out == energy_ratio(log_scales, f),
{
    let folded = folded_log_scales(log_scales, f);
    ((log_scales.x - folded.x) + (log_scales.y - folded.y) + (log_scales.z - folded.z)).exp()
}

pub open spec fn spec_folded_raw_opacity<S: Geometric>(
    log_scales: Vec3<S>,
    raw_opacity: Num<S>,
    f: Num<S>,
) -> Num<S> {
    let opacity = (raw_opacity.sigmoid() * energy_ratio(log_scales, f)).held(
        lit("1e-6"),
        lit("0.999999"),
    );
    (opacity / (opacity.opposite() + lit("1.0"))).ln()
}

/// The raw opacity of a splat after the floor is folded in.
#[verifier::when_used_as_spec(spec_folded_raw_opacity)]
pub fn folded_raw_opacity<S: Geometric>(
    log_scales: Vec3<S>,
    raw_opacity: Num<S>,
    f: Num<S>,
) -> (out: Num<S>)
    ensures
        deterministic::<S>() ==> out == folded_raw_opacity(log_scales, raw_opacity, f),
{
    let opacity = (raw_opacity.sigmoid() * energy_ratio(log_scales, f)).held(
        lit("1e-6"),
        lit("0.999999"),
    );
    (opacity / (opacity.opposite() + lit("1.0"))).ln()
}

/// The logarithms of the scales of splat `i`.
pub open spec fn log_scales_of<S>(transforms: Seq<S>, i: int) -> Vec3<S> {
    Vec3 {
        x: Num { value: transforms[10 * i + 7] },
        y: Num { value: transforms[10 * i + 8] },
        z: Num { value: transforms[10 * i + 9] },
    }
}

/// The parameters of splats after the floor was folded into those of the first
/// `n`: the logarithms of the scales and the raw opacities change, all else is
/// kept.
pub open spec fn is_folded<S: Geometric>(
    transforms: Seq<S>,
    raw_opac: Seq<S>,
    f: Seq<S>,
    n: int,
    out_transforms: Seq<S>,
    out_opac: Seq<S>,
) -> bool {
    &&& out_transforms.len() == transforms.len()
    &&& out_opac.len() == n
    &&& forall|i: int|
        0 <= i < n ==> #[trigger] log_scales_of(out_transforms, i) == folded_log_scales(
            log_scales_of(transforms, i),
            Num { value: f[i] },
        )
    &&& forall|i: int|
        0 <= i < n ==> #[trigger] out_opac[i] == folded_raw_opacity(
            log_scales_of(transforms, i),
            Num { value: raw_opac[i] },
            Num { value: f[i] },
        ).value
}

/// The values of a table of ten columns that are no scales.
pub open spec fn keeps_poses<S>(before: Seq<S>, after: Seq<S>) -> bool {
    &&& after.len() == before.len()
    &&& forall|k: int| 0 <= k < before.len() && k % 10 < 7 ==> #[trigger] after[k] == before[k]
}

/// Folds a world-space scale floor per splat into the splats' parameters: scales
/// become `sqrt(s^2 + f^2)`, and opacities are thinned by the same energy.
pub fn fold_min_scale<S: Geometric>(
    transforms: &Vec<S>,
    raw_opac: &Vec<S>,
    f: &Vec<S>,
) -> (r: (Vec<S>, Vec<S>))
    requires
        transforms.len() == 10 * raw_opac.len(),
        f.len() == raw_opac.len(),
    ensures
        r.0.len() == transforms.len(),
        r.1.len() == raw_opac.len(),
        keeps_poses(transforms@, r.0@),
        deterministic::<S>() ==> is_folded(
            transforms@,
            raw_opac@,
            f@,
            raw_opac.len() as int,
            r.0@,
            r.1@,
        ),
{
    let n: usize = raw_opac.len();
    let mut out: Vec<S> = Vec::new();
    let mut opac: Vec<S> = Vec::new();
    let mut i: usize = 0;
    while i < n
        invariant
            i <= n,
            n == raw_opac.len(),
            transforms.len() == 10 * n,
            f.len() == n,
            out.len() == 10 * i,
            opac.len() == i,
            forall|k: int| 0 <= k < 10 * i && k % 10 < 7 ==> #[trigger] out[k] == transforms[k],
            deterministic::<S>() ==> forall|j: int|
                0 <= j < i ==> #[trigger] log_scales_of(out@, j) == folded_log_scales(
                    log_scales_of(transforms@, j),
                    Num { value: f[j] },
                ),
            deterministic::<S>() ==> forall|j: int|
                0 <= j < i ==> #[trigger] opac[j] == folded_raw_opacity(
                    log_scales_of(transforms@, j),
                    Num { value: raw_opac[j] },
                    Num { value: f[j] },
                ).value,
        decreases n - i,
    {
        let at: usize = 10 * i;
        let ghost before = out@;
        let scales: Vec3<S> = Vec3 {
            x: Num { value: transforms[at + 7] },
            y: Num { value: transforms[at + 8] },
            z: Num { value: transforms[at + 9] },
        };
        let floor: Num<S> = Num { value: f[i] };
        let folded: Vec3<S> = folded_log_scales(scales, floor);
        let raw: Num<S> = folded_raw_opacity(scales, Num { value: raw_opac[i] }, floor);
        out.push(transforms[at]);
        out.push(transforms[at + 1]);
        out.push(transforms[at + 2]);
        out.push(transforms[at + 3]);
        out.push(transforms[at + 4]);
        out.push(transforms[at + 5]);
        out.push(transforms[at + 6]);
        out.push(folded.x.value);
        out.push(folded.y.value);
        out.push(folded.z.value);
        opac.push(raw.value);
        proof {
            assert forall|k: int| 0 <= k < before.len() implies out@[k] == before[k] by {}
            assert forall|j: int| 0 <= j < i implies #[trigger] log_scales_of(out@, j)
                == log_scales_of(before, j) by {}
            assert(log_scales_of(transforms@, i as int) == scales);
            assert(log_scales_of(out@, i as int) == folded);
        }
        i = i + 1;
    }
    (out, opac)
}

/// The opacity of splat `i`, with the floor where there is one.
pub open spec fn opacity_of<S: Geometric>(s: Splats<S>, i: int) -> Num<S> {
    let raw = Num { value: s.raw_opacities[i] };
    match s.min_scale {
        Some(f) => folded_raw_opacity(
            log_scales_of(s.transforms@, i),
            raw,
            Num { value: f[i] },
        ).sigmoid(),
        None => raw.sigmoid(),
    }
}

/// The logarithms of the scales of splat `i`, with the floor where there is one.
pub open spec fn real_log_scales<S: Geometric>(s: Splats<S>, i: int) -> Vec3<S> {
    match s.min_scale {
        Some(f) => folded_log_scales(log_scales_of(s.transforms@, i), Num { value: f[i] }),
        None => log_scales_of(s.transforms@, i),
    }
}

/// The scales of splat `i`, with the floor where there is one.
pub open spec fn scales_of<S: Geometric>(s: Splats<S>, i: int) -> Vec3<S> {
    let logs = real_log_scales(s, i);
    Vec3 { x: logs.x.exp(), y: logs.y.exp(), z: logs.z.exp() }
}

/// The three values of row `i`.
pub open spec fn row3<S>(values: Seq<S>, i: int) -> Vec3<S> {
    Vec3 {
        x: Num { value: values[3 * i] },
        y: Num { value: values[3 * i + 1] },
        z: Num { value: values[3 * i + 2] },
    }
}

fn sigmoids<S: Geometric>(raw: &Vec<S>) -> (out: Vec<S>)
    ensures
        out.len() == raw.len(),
        deterministic::<S>() ==> forall|i: int|
            0 <= i < raw.len() ==> #[trigger] out[i] == (Num { value: raw[i] }).sigmoid().value,
{
    let mut out: Vec<S> = Vec::new();
    let mut i: usize = 0;
    while i < raw.len()
        invariant
            i <= raw.len(),
            out.len() == i,
            deterministic::<S>() ==> forall|j: int|
                0 <= j < i ==> #[trigger] out[j] == (Num { value: raw[j] }).sigmoid().value,
        decreases raw.len() - i,
    {
        let v: Num<S> = Num { value: raw[i] };
        out.push(v.sigmoid().value);
        i = i + 1;
    }
    out
}

fn exponentials<S: Geometric>(transforms: &Vec<S>, n: usize) -> (out: Vec<S>)
    requires
        transforms.len() == 10 * n,
    ensures
        out.len() == 3 * n,
        deterministic::<S>() ==> forall|i: int|
            #![trigger row3(out@, i)]
            0 <= i < n ==> row3(out@, i).x == log_scales_of(transforms@, i).x.exp() && row3(
                out@,
                i,
            ).y == log_scales_of(transforms@, i).y.exp() && row3(out@, i).z == log_scales_of(
                transforms@,
                i,
            ).z.exp(),
{
    let mut out: Vec<S> = Vec::new();
    let mut i: usize = 0;
    while i < n
        invariant
            i <= n,
            transforms.len() == 10 * n,
            out.len() == 3 * i,
            deterministic::<S>() ==> forall|j: int|
                #![trigger row3(out@, j)]
                0 <= j < i ==> row3(out@, j).x == log_scales_of(transforms@, j).x.exp() && row3(
                    out@,
                    j,
                ).y == log_scales_of(transforms@, j).y.exp() && row3(out@, j).z == log_scales_of(
                    transforms@,
                    j,
                ).z.exp(),
        decreases n - i,
    {
        let at: usize = 10 * i;
        let ghost before = out@;
        let x: Num<S> = Num { value: transforms[at + 7] };
        let y: Num<S> = Num { value: transforms[at + 8] };
        let z: Num<S> = Num { value: transforms[at + 9] };
        out.push(x.exp().value);
        out.push(y.exp().value);
        out.push(z.exp().value);
        proof {
            assert forall|j: int| 0 <= j < i implies #[trigger] row3(out@, j) == row3(before, j) by {}
        }
        i = i + 1;
    }
    out
}

/// Splats without a floor that come of splats with one: the floor is folded into
/// scales and opacities, all else is kept. Splats without a floor stay as they
/// are.
pub open spec fn is_baked<S: Geometric>(s: Splats<S>, baked: Splats<S>) -> bool {
    &&& baked.min_scale is None
    &&& baked.count() == s.count()
    &&& baked.sh_coeffs == s.sh_coeffs
    &&& baked.coeffs_per_channel == s.coeffs_per_channel
    &&& baked.render_mip == s.render_mip
    &&& keeps_poses(s.transforms@, baked.transforms@)
    &&& s.min_scale is None ==> baked == s
    &&& deterministic::<S>() && s.min_scale is Some ==> is_folded(
        s.transforms@,
        s.raw_opacities@,
        s.min_scale->0@,
        s.count(),
        baked.transforms@,
        baked.raw_opacities@,
    )
}

impl<S: Geometric> Splats<S> {
    /// Opacities after activation, with the floor where there is one.
    pub fn opacities(&self) -> (out: Vec<S>)
        requires
            self.wf(),
        ensures
            out.len() == self.count(),
            deterministic::<S>() ==> forall|i: int|
                0 <= i < out.len() ==> #[trigger] out[i] == opacity_of(*self, i).value,
    {
        match &self.min_scale {
            Some(f) => {
                let folded: (Vec<S>, Vec<S>) = fold_min_scale(
                    &self.transforms,
                    &self.raw_opacities,
                    f,
                );
                sigmoids(&folded.1)
            },
            None => sigmoids(&self.raw_opacities),
        }
    }

    /// World-space scales, with the floor where there is one: three values per
    /// splat.
    pub fn scales(&self) -> (out: Vec<S>)
        requires
            self.wf(),
        ensures
            out.len() == 3 * self.count(),
            deterministic::<S>() ==> forall|i: int|
                0 <= i < self.count() ==> #[trigger] row3(out@, i) == scales_of(*self, i),
    {
        let n: usize = self.raw_opacities.len();
        match &self.min_scale {
            Some(f) => {
                let folded: (Vec<S>, Vec<S>) = fold_min_scale(
                    &self.transforms,
                    &self.raw_opacities,
                    f,
                );
                let out: Vec<S> = exponentials(&folded.0, n);
                proof {
                    if deterministic::<S>() {
                        assert forall|i: int| 0 <= i < self.count() implies #[trigger] row3(
                            out@,
                            i,
                        ) == scales_of(*self, i) by {
                            assert(log_scales_of(folded.0@, i) == real_log_scales(*self, i));
                        }
                    }
                }
                out
            },
            None => exponentials(&self.transforms, n),
        }
    }

    /// Folds the floor into the parameters for good.
    pub fn bake_min_scale(self) -> (s: Splats<S>)
        requires
            self.wf(),
        ensures
            s.wf(),
            is_baked(self, s),
    {
        match self.min_scale {
            Some(f) => {
                let folded: (Vec<S>, Vec<S>) = fold_min_scale(
                    &self.transforms,
                    &self.raw_opacities,
                    &f,
                );
                Splats {
                    transforms: folded.0,
                    sh_coeffs: self.sh_coeffs,
                    coeffs_per_channel: self.coeffs_per_channel,
                    raw_opacities: folded.1,
                    render_mip: self.render_mip,
                    min_scale: None,
                }
            },
            None => self,
        }
    }
}

/// Logarithms of scales after the scales were multiplied.
pub open spec fn grown<S: Geometric>(logs: Vec3<S>, scale: Option<S>) -> Vec3<S> {
    match scale {
        Some(factor) => {
            let by = (Num { value: factor }).ln();
            Vec3 { x: logs.x + by, y: logs.y + by, z: logs.z + by }
        },
        None => logs,
    }
}

fn grow<S: Geometric>(transforms: &mut Vec<S>, n: usize, factor: S)
    requires
        old(transforms).len() == 10 * n,
    ensures
        keeps_poses(old(transforms)@, final(transforms)@),
        deterministic::<S>() ==> forall|i: int|
            0 <= i < n ==> #[trigger] log_scales_of(final(transforms)@, i) == grown(
                log_scales_of(old(transforms)@, i),
                Some(factor),
            ),
{
    let ghost first = transforms@;
    let logarithm: Num<S> = Num { value: factor };
    let by: Num<S> = logarithm.ln();
    let mut i: usize = 0;
    while i < n
        invariant
            i <= n,
            first.len() == 10 * n,
            transforms.len() == 10 * n,
            deterministic::<S>() ==> by == (Num { value: factor }).ln(),
            forall|k: int| 0 <= k < 10 * n && k % 10 < 7 ==> #[trigger] transforms[k] == first[k],
            forall|k: int| 10 * i <= k < 10 * n ==> #[trigger] transforms[k] == first[k],
            deterministic::<S>() ==> forall|j: int|
                0 <= j < i ==> #[trigger] log_scales_of(transforms@, j) == grown(
                    log_scales_of(first, j),
                    Some(factor),
                ),
        decreases n - i,
    {
        let at: usize = 10 * i;
        let ghost before = transforms@;
        let x: Num<S> = Num { value: transforms[at + 7] };
        let y: Num<S> = Num { value: transforms[at + 8] };
        let z: Num<S> = Num { value: transforms[at + 9] };
        transforms.set(at + 7, (x + by).value);
        transforms.set(at + 8, (y + by).value);
        transforms.set(at + 9, (z + by).value);
        proof {
            assert forall|j: int| 0 <= j < i implies #[trigger] log_scales_of(transforms@, j)
                == log_scales_of(before, j) by {}
            assert(log_scales_of(first, i as int) == Vec3 { x, y, z });
        }
        i = i + 1;
    }
}

/// What a render for display is given.
pub struct DisplayInputs<S> {
    pub transforms: Vec<S>,
    pub sh_coeffs: Vec<S>,
    pub raw_opacities: Vec<S>,
    pub render_mode: SplatRenderMode,
    pub pass: RasterPass,
}

/// Prepares splats for display: the floor is folded in first, as it is part of
/// what the splats are, and then the scales are multiplied.
pub fn display_inputs<S: Geometric>(
    splats: Splats<S>,
    splat_scale: Option<S>,
    texture_mode: TextureMode,
) -> (r: DisplayInputs<S>)
    requires
        splats.wf(),
    ensures
        r.sh_coeffs == splats.sh_coeffs,
        keeps_poses(splats.transforms@, r.transforms@),
        splats.min_scale is None ==> r.raw_opacities == splats.raw_opacities,
        splats.min_scale is None && splat_scale is None ==> r.transforms == splats.transforms,
        r.raw_opacities.len() == splats.count(),
        deterministic::<S>() ==> forall|i: int|
            0 <= i < splats.count() ==> #[trigger] log_scales_of(r.transforms@, i) == grown(
                real_log_scales(splats, i),
                splat_scale,
            ),
        deterministic::<S>() && splats.min_scale is Some ==> forall|i: int|
            0 <= i < splats.count() ==> #[trigger] r.raw_opacities[i] == folded_raw_opacity(
                log_scales_of(splats.transforms@, i),
                Num { value: splats.raw_opacities[i] },
                Num { value: splats.min_scale->0[i] },
            ).value,
        r.render_mode == (if splats.render_mip {
            SplatRenderMode::Mip
        } else {
            SplatRenderMode::Default
        }),
        r.pass == (match texture_mode {
            TextureMode::Float => RasterPass::Backward,
            TextureMode::Packed => RasterPass::Forward,
        }),
{
    let n: usize = splats.raw_opacities.len();
    let baked: Splats<S> = splats.bake_min_scale();
    let render_mode: SplatRenderMode = render_mode_of(baked.render_mip);
    let mut transforms: Vec<S> = baked.transforms;
    proof {
        if deterministic::<S>() {
            assert forall|i: int| 0 <= i < splats.count() implies #[trigger] log_scales_of(
                transforms@,
                i,
            ) == real_log_scales(splats, i) by {}
        }
    }
    match splat_scale {
        Some(factor) => {
            grow(&mut transforms, n, factor);
        },
        None => {},
    }
    DisplayInputs {
        transforms,
        sh_coeffs: baked.sh_coeffs,
        raw_opacities: baked.raw_opacities,
        render_mode,
        pass: display_pass(texture_mode),
    }
}

/// Baking keeps what is seen: splats with or without a floor, and the splats that
/// they bake to, have the same opacities and scales, and the same means,
/// rotations and colors.
pub proof fn baking_keeps_what_is_seen<S: Geometric>(s: Splats<S>, baked: Splats<S>, i: int)
    requires
        deterministic::<S>(),
        s.wf(),
        is_baked(s, baked),
        0 <= i < s.count(),
    ensures
        opacity_of(baked, i) == opacity_of(s, i),
        scales_of(baked, i) == scales_of(s, i),
        forall|k: int| 0 <= k < 7 ==> #[trigger] gaussian_splats::cell(baked.transforms@, 10, i, k) == gaussian_splats::cell(
            s.transforms@,
            10,
            i,
            k,
        ),
        baked.sh_coeffs == s.sh_coeffs,
        baked.render_mip == s.render_mip,
{
    if s.min_scale is Some {
        assert(log_scales_of(baked.transforms@, i) == real_log_scales(s, i));
        assert(baked.raw_opacities@[i] == folded_raw_opacity(
            log_scales_of(s.transforms@, i),
            Num { value: s.raw_opacities@[i] },
            Num { value: s.min_scale->0@[i] },
        ).value);
    }
    assert forall|k: int| 0 <= k < 7 implies #[trigger] gaussian_splats::cell(baked.transforms@, 10, i, k) == gaussian_splats::cell(
        s.transforms@,
        10,
        i,
        k,
    ) by {
        let at = i * 10 + k;
        assert(at % 10 < 7);
        assert(baked.transforms@[at] == s.transforms@[at]);
    }
}

/// Baking twice is baking once.
pub proof fn baking_again_changes_nothing<S: Geometric>(
    s: Splats<S>,
    baked: Splats<S>,
    again: Splats<S>,
)
    requires
        is_baked(s, baked),
        is_baked(baked, again),
    ensures
        again == baked,
{
}

} // verus!
