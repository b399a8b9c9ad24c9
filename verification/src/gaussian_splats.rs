//! Splat parameters as rows of values, and the choices between render passes
//! and rasterizers.

use crate::sh;
use vstd::prelude::*;

verus! {

pub const TILE_WIDTH: u32 = 16;

pub const TILE_SIZE: u32 = 256;

pub const FINE_TILE_WIDTH: u32 = 16;

pub const FINE_TILE_HEIGHT: u32 = 8;

#[derive(Clone, Copy, Debug, PartialEq, Eq, Structural)]
pub enum SplatRenderMode {
    Default,
    Mip,
}

/// Forward/backward rasterizer mode.
#[derive(Copy, Clone, PartialEq, Eq, Hash, Debug, Structural)]
pub enum RasterPass {
    /// Forward only: no backward bookkeeping, hard cutoff.
    Forward,
    /// Forward with backward bookkeeping, hard cutoff.
    Backward,
    /// Backward with a smooth step around the cutoff.
    BackwardSmoothCutoff,
}

impl Default for RasterPass {
    fn default() -> (r: RasterPass)
        ensures
            r == RasterPass::Forward,
    {
        RasterPass::Forward
    }
}

impl RasterPass {
    /// Whether the pass keeps what a backward pass needs.
    pub fn bwd_info(self) -> (r: bool)
        ensures
            r == (self != RasterPass::Forward),
    {
        match self {
            RasterPass::Forward => false,
            RasterPass::Backward => true,
            RasterPass::BackwardSmoothCutoff => true,
        }
    }

    /// Whether the pass smooths the cutoff.
    pub fn smooth_cutoff(self) -> (r: bool)
        ensures
            r == (self == RasterPass::BackwardSmoothCutoff),
    {
        match self {
            RasterPass::Forward => false,
            RasterPass::Backward => false,
            RasterPass::BackwardSmoothCutoff => true,
        }
    }
}

/// Rasterizer implementation selector.
#[derive(Copy, Clone, PartialEq, Eq, Hash, Debug, Structural)]
pub enum Rasterizer {
    Legacy,
    Candidate,
}

impl Default for Rasterizer {
    fn default() -> (r: Rasterizer)
        ensures
            r == Rasterizer::Legacy,
    {
        Rasterizer::Legacy
    }
}

impl Rasterizer {
    pub open spec fn width(self) -> int {
        16
    }

    pub open spec fn height(self) -> int {
        match self {
            Rasterizer::Legacy => 16,
            Rasterizer::Candidate => 8,
        }
    }

    pub fn tile_width(self) -> (w: u32)
        ensures
            w == self.width(),
    {
        match self {
            Rasterizer::Legacy => TILE_WIDTH,
            Rasterizer::Candidate => FINE_TILE_WIDTH,
        }
    }

    pub fn tile_height(self) -> (h: u32)
        ensures
            h == self.height(),
    {
        match self {
            Rasterizer::Legacy => TILE_WIDTH,
            Rasterizer::Candidate => FINE_TILE_HEIGHT,
        }
    }

    /// Pixels per tile.
    pub fn tile_size(self) -> (s: u32)
        ensures
            s == self.width() * self.height(),
    {
        match self {
            Rasterizer::Legacy => self.tile_width() * self.tile_height(),
            Rasterizer::Candidate => self.tile_width() * self.tile_height(),
        }
    }
}

#[derive(Clone, Copy, Debug, PartialEq, Eq, Structural)]
pub enum TextureMode {
    Packed,
    Float,
}

impl Default for TextureMode {
    fn default() -> (r: TextureMode)
        ensures
            r == TextureMode::Float,
    {
        TextureMode::Float
    }
}

/// What the alpha channel of an image means.
#[derive(Clone, Copy, Debug, PartialEq, Eq, Structural)]
pub enum AlphaMode {
    Masked,
    Transparent,
}

/// The pass that an image for display needs: float images carry the per-splat
/// bookkeeping of a backward pass, packed images do not. Neither smooths the
/// cutoff.
pub fn display_pass(texture_mode: TextureMode) -> (pass: RasterPass)
    ensures
        pass == match texture_mode {
            TextureMode::Float => RasterPass::Backward,
            TextureMode::Packed => RasterPass::Forward,
        },
{
    match texture_mode {
        TextureMode::Float => RasterPass::Backward,
        TextureMode::Packed => RasterPass::Forward,
    }
}

/// The render mode of splats with or without the mip filter.
pub fn render_mode_of(render_mip: bool) -> (mode: SplatRenderMode)
    ensures
        mode == if render_mip {
            SplatRenderMode::Mip
        } else {
            SplatRenderMode::Default
        },
{
    if render_mip {
        SplatRenderMode::Mip
    } else {
        SplatRenderMode::Default
    }
}

/// Splat parameters.
///
/// `transforms` stores mean (3), rotation (4) and log scale (3) of every splat
/// as one row of 10 values. `sh_coeffs` stores `coeffs_per_channel`
/// coefficients of 3 channels per splat.
pub struct Splats<T> {
    pub transforms: Vec<T>,
    pub sh_coeffs: Vec<T>,
    pub coeffs_per_channel: u32,
    pub raw_opacities: Vec<T>,
    pub render_mip: bool,
    /// Optional world-space scale floor per splat.
    pub min_scale: Option<Vec<T>>,
}

/// `out` holds, row by row, `width` columns of the 10-column table `t`,
/// starting at column `lo`.
pub open spec fn is_column_slice<T>(t: Seq<T>, n: int, lo: int, width: int, out: Seq<T>) -> bool {
    &&& out.len() == n * width
    &&& forall|i: int, k: int|
        0 <= i < n && 0 <= k < width ==> #[trigger] cell(out, width, i, k) == cell(t, 10, i, lo + k)
}

/// Column `k` of row `i` of a table of `width` columns.
pub open spec fn cell<T>(t: Seq<T>, width: int, i: int, k: int) -> T {
    t[i * width + k]
}

impl<T: Copy> Splats<T> {
    pub open spec fn count(&self) -> int {
        self.raw_opacities.len() as int
    }

    /// Values per splat in the coefficient table.
    pub open spec fn sh_width(&self) -> int {
        self.coeffs_per_channel * 3
    }

    /// Every table has one row per splat.
    pub open spec fn wf(&self) -> bool {
        &&& self.transforms.len() == self.count() * 10
        &&& self.sh_coeffs.len() == self.count() * self.sh_width()
        &&& self.count() <= u32::MAX
        &&& self.min_scale is Some ==> self.min_scale->0.len() == self.count()
    }

    /// Joins the columns of means, rotations and log scales into rows.
    pub fn from_tensor_data(
        means: &Vec<T>,
        rotation: &Vec<T>,
        log_scales: &Vec<T>,
        sh_coeffs: Vec<T>,
        coeffs_per_channel: u32,
        raw_opacity: Vec<T>,
        mode: SplatRenderMode,
    ) -> (s: Splats<T>)
        requires
            raw_opacity.len() <= u32::MAX,
            means.len() == raw_opacity.len() * 3,
            rotation.len() == raw_opacity.len() * 4,
            log_scales.len() == raw_opacity.len() * 3,
            sh_coeffs.len() == raw_opacity.len() * (coeffs_per_channel * 3),
        ensures
            s.wf(),
            s.count() == raw_opacity.len(),
            s.raw_opacities@ == raw_opacity@,
            s.sh_coeffs@ == sh_coeffs@,
            s.coeffs_per_channel == coeffs_per_channel,
            s.render_mip == (mode == SplatRenderMode::Mip),
            s.min_scale is None,
            is_column_slice(s.transforms@, s.count(), 0, 3, means@),
            is_column_slice(s.transforms@, s.count(), 3, 4, rotation@),
            is_column_slice(s.transforms@, s.count(), 7, 3, log_scales@),
    {
        let n: usize = raw_opacity.len();
        let mut transforms: Vec<T> = Vec::new();
        let mut i: usize = 0;
        while i < n
            invariant
                i <= n,
                n <= u32::MAX,
                means.len() == n * 3,
                rotation.len() == n * 4,
                log_scales.len() == n * 3,
                transforms.len() == i * 10,
                forall|r: int, k: int|
                    0 <= r < i && 0 <= k < 3 ==> #[trigger] cell(means@, 3, r, k) == transforms@[r
                        * 10 + k],
                forall|r: int, k: int|
                    0 <= r < i && 0 <= k < 4 ==> #[trigger] cell(rotation@, 4, r, k)
                        == transforms@[r * 10 + 3 + k],
                forall|r: int, k: int|
                    0 <= r < i && 0 <= k < 3 ==> #[trigger] cell(log_scales@, 3, r, k)
                        == transforms@[r * 10 + 7 + k],
            decreases n - i,
        {
            transforms.push(means[i * 3]);
            transforms.push(means[i * 3 + 1]);
            transforms.push(means[i * 3 + 2]);
            transforms.push(rotation[i * 4]);
            transforms.push(rotation[i * 4 + 1]);
            transforms.push(rotation[i * 4 + 2]);
            transforms.push(rotation[i * 4 + 3]);
            transforms.push(log_scales[i * 3]);
            transforms.push(log_scales[i * 3 + 1]);
            transforms.push(log_scales[i * 3 + 2]);
            i = i + 1;
        }
        Splats {
            transforms,
            sh_coeffs,
            coeffs_per_channel,
            raw_opacities: raw_opacity,
            render_mip: match mode {
                SplatRenderMode::Mip => true,
                SplatRenderMode::Default => false,
            },
            min_scale: None,
        }
    }

    /// Builds splats from flat lists. The number of coefficients follows from
    /// the lengths.
    pub fn from_raw(
        pos_data: &Vec<T>,
        rot_data: &Vec<T>,
        scale_data: &Vec<T>,
        coeffs_data: Vec<T>,
        opac_data: Vec<T>,
        mode: SplatRenderMode,
    ) -> (s: Splats<T>)
        requires
            0 < opac_data.len() <= u32::MAX,
            pos_data.len() == opac_data.len() * 3,
            rot_data.len() == opac_data.len() * 4,
            scale_data.len() == opac_data.len() * 3,
            exists|c: u32| coeffs_data.len() == opac_data.len() * (#[trigger] (c * 3)),
        ensures
            s.wf(),
            s.count() == opac_data.len(),
            s.raw_opacities@ == opac_data@,
            s.sh_coeffs@ == coeffs_data@,
            s.render_mip == (mode == SplatRenderMode::Mip),
            s.min_scale is None,
            is_column_slice(s.transforms@, s.count(), 0, 3, pos_data@),
            is_column_slice(s.transforms@, s.count(), 3, 4, rot_data@),
            is_column_slice(s.transforms@, s.count(), 7, 3, scale_data@),
    {
        let n_splats: usize = pos_data.len() / 3;
        let n_coeffs: usize = coeffs_data.len() / n_splats;
        let ghost c = choose|c: u32| coeffs_data.len() == opac_data.len() * (#[trigger] (c * 3));
        proof {
            assert(n_splats == opac_data.len());
            let w = c * 3;
            assert(n_splats * w == w * n_splats) by (nonlinear_arith);
            vstd::arithmetic::div_mod::lemma_div_multiples_vanish(w, n_splats as int);
            assert(n_coeffs == w);
        }
        Self::from_tensor_data(
            pos_data,
            rot_data,
            scale_data,
            coeffs_data,
            (n_coeffs / 3) as u32,
            opac_data,
            mode,
        )
    }

    /// Three columns of the transforms.
    fn three_columns(&self, lo: usize) -> (out: Vec<T>)
        requires
            self.wf(),
            lo + 3 <= 10,
        ensures
            is_column_slice(self.transforms@, self.count(), lo as int, 3, out@),
    {
        let n: usize = self.raw_opacities.len();
        let mut out: Vec<T> = Vec::new();
        let mut i: usize = 0;
        while i < n
            invariant
                i <= n,
                n == self.count(),
                self.wf(),
                lo + 3 <= 10,
                out.len() == i * 3,
                forall|r: int, k: int|
                    0 <= r < i && 0 <= k < 3 ==> #[trigger] cell(out@, 3, r, k) == cell(
                        self.transforms@,
                        10,
                        r,
                        lo + k,
                    ),
            decreases n - i,
        {
            let ghost before = out@;
            out.push(self.transforms[i * 10 + lo]);
            out.push(self.transforms[i * 10 + lo + 1]);
            out.push(self.transforms[i * 10 + lo + 2]);
            proof {
                assert forall|r: int, k: int| 0 <= r < i + 1 && 0 <= k < 3 implies #[trigger] cell(
                    out@,
                    3,
                    r,
                    k,
                ) == cell(self.transforms@, 10, r, lo + k) by {
                    if r < i {
                        assert(cell(before, 3, r, k) == cell(self.transforms@, 10, r, lo + k));
                    }
                }
            }
            i = i + 1;
        }
        out
    }

    /// Positions.
    pub fn means(&self) -> (out: Vec<T>)
        requires
            self.wf(),
        ensures
            is_column_slice(self.transforms@, self.count(), 0, 3, out@),
    {
        self.three_columns(0)
    }

    /// Log-space scales.
    pub fn log_scales(&self) -> (out: Vec<T>)
        requires
            self.wf(),
        ensures
            is_column_slice(self.transforms@, self.count(), 7, 3, out@),
    {
        self.three_columns(7)
    }

    /// Rotation quaternions.
    pub fn rotations(&self) -> (out: Vec<T>)
        requires
            self.wf(),
        ensures
            is_column_slice(self.transforms@, self.count(), 3, 4, out@),
    {
        let n: usize = self.raw_opacities.len();
        let mut out: Vec<T> = Vec::new();
        let mut i: usize = 0;
        while i < n
            invariant
                i <= n,
                n == self.count(),
                self.wf(),
                out.len() == i * 4,
                forall|r: int, k: int|
                    0 <= r < i && 0 <= k < 4 ==> #[trigger] cell(out@, 4, r, k) == cell(
                        self.transforms@,
                        10,
                        r,
                        3 + k,
                    ),
            decreases n - i,
        {
            let ghost before = out@;
            out.push(self.transforms[i * 10 + 3]);
            out.push(self.transforms[i * 10 + 4]);
            out.push(self.transforms[i * 10 + 5]);
            out.push(self.transforms[i * 10 + 6]);
            proof {
                assert forall|r: int, k: int| 0 <= r < i + 1 && 0 <= k < 4 implies #[trigger] cell(
                    out@,
                    4,
                    r,
                    k,
                ) == cell(self.transforms@, 10, r, 3 + k) by {
                    if r < i {
                        assert(cell(before, 4, r, k) == cell(self.transforms@, 10, r, 3 + k));
                    }
                }
            }
            i = i + 1;
        }
        out
    }

    pub fn num_splats(&self) -> (n: u32)
        requires
            self.wf(),
        ensures
            n == self.count(),
    {
        self.raw_opacities.len() as u32
    }

    /// Degree of the coefficients.
    pub fn sh_degree(&self) -> (degree: u32)
        requires
            sh::is_coeff_count(self.coeffs_per_channel as int),
        ensures
            sh::coeffs_of_degree(degree as int) == self.coeffs_per_channel,
    {
        sh::sh_degree_from_coeffs(self.coeffs_per_channel)
    }

    /// Attaches a scale floor per splat.
    pub fn with_min_scale(self, f: Vec<T>) -> (s: Splats<T>)
        requires
            self.wf(),
            f.len() == self.count(),
        ensures
            s.wf(),
            s == (Splats { min_scale: Some(f), ..self }),
    {
        let mut out: Splats<T> = self;
        out.min_scale = Some(f);
        out
    }

    /// Sets the coefficients to those of a degree: missing ones become `zero`,
    /// surplus ones are dropped.
    pub fn with_sh_degree(self, sh_degree: u32, zero: T) -> (s: Splats<T>)
        requires
            self.wf(),
            sh_degree <= 65534,
            sh::coeffs_of_degree(sh_degree as int) * 3 <= usize::MAX,
            self.count() * (sh::coeffs_of_degree(sh_degree as int) * 3) <= usize::MAX,
        ensures
            s.wf(),
            s.transforms == self.transforms,
            s.raw_opacities == self.raw_opacities,
            s.render_mip == self.render_mip,
            s.min_scale == self.min_scale,
            s.coeffs_per_channel == sh::coeffs_of_degree(sh_degree as int),
            forall|i: int, j: int|
                0 <= i < self.count() && 0 <= j < s.sh_width() ==> #[trigger] cell(
                    s.sh_coeffs@,
                    s.sh_width(),
                    i,
                    j,
                ) == if j < self.sh_width() {
                    cell(self.sh_coeffs@, self.sh_width(), i, j)
                } else {
                    zero
                },
    {
        let n_coeffs: u32 = sh::sh_coeffs_for_degree(sh_degree);
        proof {
            assert(1 <= n_coeffs) by (nonlinear_arith)
                requires
                    n_coeffs == (sh_degree + 1) * (sh_degree + 1),
                    0 <= sh_degree,
            ;
        }
        let n: usize = self.raw_opacities.len();
        let width: usize = n_coeffs as usize * 3;
        let ghost w = width as int;
        let ghost old_w = self.sh_width();
        let old_coeffs: u64 = self.coeffs_per_channel as u64 * 3;
        let mut out: Vec<T> = Vec::new();
        let mut i: usize = 0;
        proof {
            assert(0 * w == 0);
        }
        while i < n
            invariant
                i <= n,
                n == self.count(),
                self.wf(),
                w == width,
                3 <= w,
                old_w == self.sh_width(),
                old_coeffs == old_w,
                out.len() == i * w,
                forall|r: int, j: int|
                    0 <= r < i && 0 <= j < w ==> #[trigger] cell(out@, w, r, j) == if j < old_w {
                        cell(self.sh_coeffs@, old_w, r, j)
                    } else {
                        zero
                    },
            decreases n - i,
        {
            let ghost before = out@;
            let mut j: usize = 0;
            while j < width
                invariant
                    i < n,
                    n == self.count(),
                    self.wf(),
                    w == width,
                    3 <= w,
                    j <= width,
                    old_w == self.sh_width(),
                    old_coeffs == old_w,
                    before.len() == i * w,
                    out.len() == i * w + j,
                    forall|k: int| 0 <= k < before.len() ==> out@[k] == before[k],
                    forall|k: int|
                        0 <= k < j ==> #[trigger] cell(out@, w, i as int, k) == if k < old_w {
                            cell(self.sh_coeffs@, old_w, i as int, k)
                        } else {
                            zero
                        },
                decreases width - j,
            {
                let ghost mid = out@;
                let v: T = if (j as u64) < old_coeffs {
                    proof {
                        assert(i * old_w + j < n * old_w && 0 <= i * old_w) by (nonlinear_arith)
                            requires
                                0 <= i < n,
                                0 <= j < old_w,
                        ;
                        assert(old_w <= n * old_w) by (nonlinear_arith)
                            requires
                                1 <= n,
                                0 <= old_w,
                        ;
                    }
                    let base: usize = i * (self.coeffs_per_channel as usize * 3);
                    self.sh_coeffs[base + j]
                } else {
                    zero
                };
                out.push(v);
                proof {
                    assert forall|k: int| 0 <= k < j + 1 implies #[trigger] cell(
                        out@,
                        w,
                        i as int,
                        k,
                    ) == if k < old_w {
                        cell(self.sh_coeffs@, old_w, i as int, k)
                    } else {
                        zero
                    } by {
                        if k < j {
                            assert(cell(mid, w, i as int, k) == cell(out@, w, i as int, k)) by {
                                assert(0 <= i * w) by (nonlinear_arith)
                                    requires
                                        0 <= i,
                                        0 <= w,
                                ;
                            }
                        }
                    }
                }
                j = j + 1;
            }
            proof {
                assert((i + 1) * w == i * w + w) by (nonlinear_arith);
                assert forall|r: int, j: int| 0 <= r < i + 1 && 0 <= j < w implies #[trigger] cell(
                    out@,
                    w,
                    r,
                    j,
                ) == if j < old_w {
                    cell(self.sh_coeffs@, old_w, r, j)
                } else {
                    zero
                } by {
                    if r < i {
                        assert(0 <= r * w && r * w + j < i * w) by (nonlinear_arith)
                            requires
                                0 <= r < i,
                                0 <= j < w,
                        ;
                        assert(cell(before, w, r, j) == cell(out@, w, r, j));
                    }
                }
            }
            i = i + 1;
        }
        Splats {
            transforms: self.transforms,
            sh_coeffs: out,
            coeffs_per_channel: n_coeffs,
            raw_opacities: self.raw_opacities,
            render_mip: self.render_mip,
            min_scale: self.min_scale,
        }
    }
}

/// Splitting rows into columns gives the columns that the rows were joined
/// from.
pub proof fn columns_are_recovered<T>(t: Seq<T>, n: int, lo: int, width: int, a: Seq<T>, b: Seq<T>)
    requires
        0 <= n,
        0 < width,
        is_column_slice(t, n, lo, width, a),
        is_column_slice(t, n, lo, width, b),
    ensures
        a == b,
{
    assert forall|x: int| 0 <= x < a.len() implies a[x] == b[x] by {
        vstd::arithmetic::div_mod::lemma_fundamental_div_mod(x, width);
        let i = x / width;
        let k = x % width;
        assert(width * i == i * width) by (nonlinear_arith);
        assert(0 <= i < n) by (nonlinear_arith)
            requires
                x == i * width + k,
                0 <= k < width,
                0 <= x < n * width,
        ;
        assert(cell(a, width, i, k) == cell(t, 10, i, lo + k));
        assert(cell(b, width, i, k) == cell(t, 10, i, lo + k));
    }
    assert(a =~= b);
}

/// Coarse tiles are square, and two fine tiles above each other make a coarse
/// one.
pub proof fn fine_tiles_halve_coarse_ones()
    ensures
        Rasterizer::Legacy.width() == Rasterizer::Legacy.height(),
        Rasterizer::Candidate.width() == Rasterizer::Legacy.width(),
        2 * Rasterizer::Candidate.height() == Rasterizer::Legacy.height(),
        Rasterizer::Legacy.width() * Rasterizer::Legacy.height() == 256,
{
    assert(16 * 16 == 256) by (nonlinear_arith);
}

} // verus!
