//! Reading the rows of a splat file chunk by chunk: which rows are kept, what
//! they add, and what to do after each chunk.

use crate::import;
use crate::import::{validate_sh_rest_properties, ElementDef, PlyHeader, PlyPlan};
use crate::num::{deterministic, lit, Geometric, Num};
use crate::splat_data;
use crate::splat_data::{interleave_coeffs, SplatData};
use crate::text;
use vstd::prelude::*;
use vstd::string::StringExecFns;

verus! {

/// Fraction of a file that is read.
#[derive(Clone, Copy, Debug, PartialEq, Eq, Structural)]
pub struct Progress {
    pub completed: usize,
    pub len: usize,
}

/// Progress after `completed` of `len` rows. An empty file is complete.
pub fn progress(completed: usize, len: usize) -> (p: Progress)
    ensures
        len == 0 ==> p == (Progress { completed: 1, len: 1 }),
        len > 0 ==> p.len == len && p.completed == (if completed < len {
            completed
        } else {
            len
        }),
        0 < p.len,
        p.completed <= p.len,
{
    if len == 0 {
        Progress { completed: 1, len: 1 }
    } else if completed < len {
        Progress { completed, len }
    } else {
        Progress { completed: len, len }
    }
}

/// The stride that a subsampling request asks for: one without a request, and
/// an error for zero.
pub fn subsample_stride(subsample_points: Option<u32>) -> (r: Result<usize, String>)
    ensures
        match subsample_points {
            Some(n) => if n == 0 {
                r is Err && r->Err_0@ == "subsample_points must be greater than zero"@
            } else {
                r is Ok && r->Ok_0 == n
            },
            None => r is Ok && r->Ok_0 == 1,
        },
        r is Ok ==> r->Ok_0 > 0,
{
    match subsample_points {
        Some(n) => if n == 0 {
            Err(String::from_str("subsample_points must be greater than zero"))
        } else {
            Ok(n as usize)
        },
        None => Ok(1),
    }
}

/// So much of a file is read that its end can be waited for.
pub open spec fn is_almost_read<S: Geometric>(done: Num<S>) -> bool {
    lit::<S>("0.95").at_most(done)
}

/// Whether so much of a file is read that its end can be waited for.
pub fn almost_read<S: Geometric>(done: Num<S>) -> (r: bool)
    ensures
        deterministic::<S>() ==> r == is_almost_read(done),
{
    lit::<S>("0.95").at_most(done)
}

/// The progress that the splats of a compressed file stand for.
pub open spec fn splat_share<S: Geometric>(done: Num<S>, has_rest: bool) -> Num<S> {
    done * if has_rest {
        lit::<S>("0.8")
    } else {
        lit::<S>("1.0")
    }
}

/// The progress that the splats of a compressed file stand for. A fifth is left
/// for the rest coefficients where the file has some.
pub fn splat_progress<S: Geometric>(done: Num<S>, has_rest: bool) -> (r: Num<S>)
    ensures
        deterministic::<S>() ==> r == splat_share(done, has_rest),
{
    let share: Num<S> = if has_rest {
        lit::<S>("0.8")
    } else {
        lit::<S>("1.0")
    };
    done * share
}

/// Whether a partial result is due: updates are wanted, enough time has passed
/// since the last one, and the file is not almost read.
pub fn should_update(almost_done: bool, update_every: Option<u64>, elapsed: u64) -> (r: bool)
    ensures
        r == (!almost_done && update_every is Some && elapsed >= update_every->0),
{
    match update_every {
        Some(every) => !almost_done && elapsed >= every,
        None => false,
    }
}

/// ASCII white space: blank, tab, line feed, form feed, carriage return.
pub open spec fn is_ascii_blank(b: u8) -> bool {
    b == 0x20 || b == 0x09 || b == 0x0a || b == 0x0c || b == 0x0d
}

/// Whether the buffer of a text file needs a line end at the end of the input,
/// so that its last token is complete.
pub fn needs_final_newline(bytes_read: usize, is_ascii: bool, last: Option<u8>) -> (r: bool)
    ensures
        r == (bytes_read == 0 && is_ascii && last is Some && !is_ascii_blank(last->0)),
{
    match last {
        Some(b) => bytes_read == 0 && is_ascii && !(b == 0x20 || b == 0x09 || b == 0x0a || b == 0x0c
            || b == 0x0d),
        None => false,
    }
}

/// What follows a chunk of rows.
#[derive(Clone, Copy, Debug, PartialEq, Eq, Structural)]
pub enum AfterChunk {
    /// All rows are read.
    Done,
    /// The input ended before all rows were read.
    UnexpectedEof,
    ReadMore,
}

/// What to do after a chunk of rows.
#[derive(Clone, Copy, Debug, PartialEq, Eq, Structural)]
pub struct ChunkStep {
    /// Hand out what is read so far.
    pub emit: bool,
    pub next: AfterChunk,
}

/// Decides what to do after a chunk of a plain file.
pub fn after_chunk(row_index: usize, total_splats: usize, bytes_read: usize, update_due: bool) -> (s:
    ChunkStep)
    ensures
        s.emit == (update_due || row_index == total_splats),
        s.next == if row_index == total_splats {
            AfterChunk::Done
        } else if bytes_read == 0 {
            AfterChunk::UnexpectedEof
        } else {
            AfterChunk::ReadMore
        },
{
    let complete: bool = row_index == total_splats;
    ChunkStep {
        emit: update_due || complete,
        next: if complete {
            AfterChunk::Done
        } else if bytes_read == 0 {
            AfterChunk::UnexpectedEof
        } else {
            AfterChunk::ReadMore
        },
    }
}

/// Decides whether an element of a compressed file goes on: it is over once
/// the reader has moved on, and truncated where the input ended before that.
pub fn after_element_chunk(bytes_read: usize, still_in_element: bool) -> (next: AfterChunk)
    ensures
        next == if !still_in_element {
            AfterChunk::Done
        } else if bytes_read == 0 {
            AfterChunk::UnexpectedEof
        } else {
            AfterChunk::ReadMore
        },
{
    if !still_in_element {
        AfterChunk::Done
    } else if bytes_read == 0 {
        AfterChunk::UnexpectedEof
    } else {
        AfterChunk::ReadMore
    }
}

/// The result of reading a whole file: what was handed out last.
pub fn last_message<T>(last: Option<T>) -> (r: Result<T, String>)
    ensures
        match last {
            Some(m) => r == Ok::<T, String>(m),
            None => r is Err && r->Err_0@ == "Couldn't load single splat from ply"@,
        },
{
    match last {
        Some(m) => Ok(m),
        None => Err(String::from_str("Couldn't load single splat from ply")),
    }
}

/// A row of a plain file. `rgb` holds the base coefficients that the color
/// channels of the row convert to, where the row has them.
pub struct PlyRow<T> {
    pub mean: (T, T, T),
    pub rotation: (T, T, T, T),
    pub log_scale: (T, T, T),
    pub opacity: T,
    pub dc: (T, T, T),
    pub rgb: (Option<T>, Option<T>, Option<T>),
    pub rest: Vec<T>,
}

impl<T: Copy> PlyRow<T> {
    /// The base color: the color channels where all three are there, else the
    /// base coefficients.
    pub open spec fn base_color(&self) -> (T, T, T) {
        if self.rgb.0 is Some && self.rgb.1 is Some && self.rgb.2 is Some {
            (self.rgb.0->0, self.rgb.1->0, self.rgb.2->0)
        } else {
            self.dc
        }
    }
}

/// What is kept of the rows read so far. Lists that a file does not have stay
/// empty.
#[verifier::ext_equal]
pub struct RowsView<T> {
    pub row_index: int,
    pub means: Seq<T>,
    pub rotations: Seq<T>,
    pub log_scales: Seq<T>,
    pub sh_coeffs: Seq<T>,
    pub raw_opacities: Seq<T>,
}

/// Nothing read yet.
pub open spec fn no_rows<T>() -> RowsView<T> {
    RowsView {
        row_index: 0,
        means: Seq::empty(),
        rotations: Seq::empty(),
        log_scales: Seq::empty(),
        sh_coeffs: Seq::empty(),
        raw_opacities: Seq::empty(),
    }
}

pub open spec fn seq3<T>(v: (T, T, T)) -> Seq<T> {
    seq![v.0, v.1, v.2]
}

pub open spec fn seq4<T>(v: (T, T, T, T)) -> Seq<T> {
    seq![v.0, v.1, v.2, v.3]
}

/// What is kept after one more row. Of every `subsample` rows only the first is
/// kept.
pub open spec fn with_row<T: Copy>(plan: PlyPlan, v: RowsView<T>, row: PlyRow<T>) -> RowsView<T> {
    if v.row_index % (plan.subsample as int) != 0 {
        RowsView { row_index: v.row_index + 1, ..v }
    } else {
        RowsView {
            row_index: v.row_index + 1,
            means: v.means + seq3(row.mean),
            rotations: if plan.has_rotations {
                v.rotations + seq4(row.rotation)
            } else {
                v.rotations
            },
            log_scales: if plan.has_scales {
                v.log_scales + seq3(row.log_scale)
            } else {
                v.log_scales
            },
            sh_coeffs: if plan.sh_count > 0 {
                v.sh_coeffs + splat_data::interleaved(
                    row.base_color(),
                    row.rest@,
                    plan.sh_count - 3,
                )
            } else {
                v.sh_coeffs
            },
            raw_opacities: if plan.has_opacities {
                v.raw_opacities.push(row.opacity)
            } else {
                v.raw_opacities
            },
        }
    }
}

/// What is kept of the first `k` rows.
pub open spec fn with_rows<T: Copy>(plan: PlyPlan, rows: Seq<PlyRow<T>>, k: int) -> RowsView<T>
    decreases k,
{
    if k <= 0 {
        no_rows()
    } else {
        with_row(plan, with_rows(plan, rows, k - 1), rows[k - 1])
    }
}

/// A plain file being read.
pub struct PlyImport<T> {
    pub plan: PlyPlan,
    pub row_index: usize,
    pub means: Vec<T>,
    pub rotations: Vec<T>,
    pub log_scales: Vec<T>,
    pub sh_coeffs: Vec<T>,
    pub raw_opacities: Vec<T>,
}

/// A plain file being read, as a value.
pub struct PlyImportView<T> {
    pub plan: PlyPlan,
    pub rows: RowsView<T>,
}

impl<T> View for PlyImport<T> {
    type V = PlyImportView<T>;

    open spec fn view(&self) -> PlyImportView<T> {
        PlyImportView {
            plan: self.plan,
            rows: RowsView {
                row_index: self.row_index as int,
                means: self.means@,
                rotations: self.rotations@,
                log_scales: self.log_scales@,
                sh_coeffs: self.sh_coeffs@,
                raw_opacities: self.raw_opacities@,
            },
        }
    }
}

fn copy_list<T: Copy>(v: &Vec<T>) -> (out: Vec<T>)
    ensures
        out@ == v@,
{
    let mut out: Vec<T> = Vec::new();
    let mut i: usize = 0;
    while i < v.len()
        invariant
            i <= v.len(),
            out@ == v@.take(i as int),
        decreases v.len() - i,
    {
        proof {
            assert(v@.take(i + 1) =~= v@.take(i as int).push(v[i as int]));
        }
        out.push(v[i]);
        i = i + 1;
    }
    assert(v@.take(v.len() as int) =~= v@);
    out
}

fn push3<T: Copy>(list: &mut Vec<T>, v: (T, T, T))
    ensures
        final(list)@ == old(list)@ + seq3(v),
{
    let ghost before = list@;
    list.push(v.0);
    list.push(v.1);
    list.push(v.2);
    assert(list@ =~= before + seq3(v));
}

fn push4<T: Copy>(list: &mut Vec<T>, v: (T, T, T, T))
    ensures
        final(list)@ == old(list)@ + seq4(v),
{
    let ghost before = list@;
    list.push(v.0);
    list.push(v.1);
    list.push(v.2);
    list.push(v.3);
    assert(list@ =~= before + seq4(v));
}

/// The data of rows read under a plan: lists that the file has, also where they
/// are still empty.
pub open spec fn is_data<T: Copy>(plan: PlyPlan, v: RowsView<T>, d: SplatData<T>) -> bool {
    &&& d.means@ == v.means
    &&& if plan.has_rotations {
        d.rotations is Some && d.rotations->0@ == v.rotations
    } else {
        d.rotations is None
    }
    &&& if plan.has_scales {
        d.log_scales is Some && d.log_scales->0@ == v.log_scales
    } else {
        d.log_scales is None
    }
    &&& if plan.sh_count > 0 {
        d.sh_coeffs is Some && d.sh_coeffs->0@ == v.sh_coeffs
    } else {
        d.sh_coeffs is None
    }
    &&& if plan.has_opacities {
        d.raw_opacities is Some && d.raw_opacities->0@ == v.raw_opacities
    } else {
        d.raw_opacities is None
    }
}

fn optional_list<T: Copy>(present: bool, v: &Vec<T>) -> (out: Option<Vec<T>>)
    ensures
        if present {
            out is Some && out->0@ == v@
        } else {
            out is None
        },
{
    if present {
        Some(copy_list(v))
    } else {
        None
    }
}

impl<T: Copy> PlyImport<T> {
    /// A file of which no row is read yet.
    pub fn new(plan: PlyPlan) -> (s: PlyImport<T>)
        ensures
            s@ == (PlyImportView { plan, rows: no_rows::<T>() }),
    {
        PlyImport {
            plan,
            row_index: 0,
            means: Vec::new(),
            rotations: Vec::new(),
            log_scales: Vec::new(),
            sh_coeffs: Vec::new(),
            raw_opacities: Vec::new(),
        }
    }

    /// Takes the next row.
    pub fn push_row(&mut self, row: &PlyRow<T>)
        requires
            old(self).plan.subsample > 0,
            old(self).row_index < old(self).plan.total_splats,
            old(self).plan.sh_count > 0 ==> 3 <= old(self).plan.sh_count && old(self).plan.sh_count
                - 3 <= row.rest.len(),
        ensures
            final(self)@ == (PlyImportView {
                rows: with_row(old(self)@.plan, old(self)@.rows, *row),
                ..old(self)@
            }),
    {
        let keep: bool = self.row_index % self.plan.subsample == 0;
        self.row_index = self.row_index + 1;
        if !keep {
            return;
        }
        push3(&mut self.means, row.mean);
        if self.plan.sh_count > 0 {
            let dc: (T, T, T) = match (row.rgb.0, row.rgb.1, row.rgb.2) {
                (Some(r), Some(g), Some(b)) => (r, g, b),
                _ => row.dc,
            };
            interleave_coeffs(dc, &row.rest, self.plan.sh_count - 3, &mut self.sh_coeffs);
        }
        if self.plan.has_scales {
            push3(&mut self.log_scales, row.log_scale);
        }
        if self.plan.has_rotations {
            push4(&mut self.rotations, row.rotation);
        }
        if self.plan.has_opacities {
            self.raw_opacities.push(row.opacity);
        }
    }

    /// Decides what to do after a chunk.
    pub fn after_chunk(&self, bytes_read: usize, update_due: bool) -> (s: ChunkStep)
        ensures
            s.emit == (update_due || self.row_index == self.plan.total_splats),
            s.next == if self.row_index == self.plan.total_splats {
                AfterChunk::Done
            } else if bytes_read == 0 {
                AfterChunk::UnexpectedEof
            } else {
                AfterChunk::ReadMore
            },
    {
        after_chunk(self.row_index, self.plan.total_splats, bytes_read, update_due)
    }

    /// The data of the rows read so far.
    pub fn data(&self) -> (d: SplatData<T>)
        ensures
            is_data(self@.plan, self@.rows, d),
    {
        SplatData {
            means: copy_list(&self.means),
            rotations: optional_list(self.plan.has_rotations, &self.rotations),
            log_scales: optional_list(self.plan.has_scales, &self.log_scales),
            sh_coeffs: optional_list(self.plan.sh_count > 0, &self.sh_coeffs),
            raw_opacities: optional_list(self.plan.has_opacities, &self.raw_opacities),
        }
    }
}

/// What every `step`-th of the first `k` rows adds, one behind the other.
pub open spec fn every_nth<T>(row: spec_fn(int) -> Seq<T>, step: int, k: int) -> Seq<T>
    decreases k,
{
    if k <= 0 {
        Seq::empty()
    } else if (k - 1) % step == 0 {
        every_nth(row, step, k - 1) + row(k - 1)
    } else {
        every_nth(row, step, k - 1)
    }
}

/// Values of row `r` of a table of `width` columns.
pub open spec fn row_of<T>(table: Seq<T>, width: int, r: int) -> Seq<T> {
    table.subrange(r * width, r * width + width)
}

proof fn lemma_every_nth_len<T>(row: spec_fn(int) -> Seq<T>, step: int, width: int, k: int)
    requires
        0 < step,
        0 <= k,
        forall|i: int| 0 <= i < k ==> (#[trigger] row(i)).len() == width,
    ensures
        every_nth(row, step, k).len() == splat_data::kept_rows(k, step) * width,
    decreases k,
{
    if k > 0 {
        lemma_every_nth_len(row, step, width, k - 1);
        lemma_kept_step(k - 1, step);
        let n = splat_data::kept_rows(k - 1, step);
        assert((n + 1) * width == n * width + width) by (nonlinear_arith);
        assert(row(k - 1).len() == width);
    } else {
        splat_data::lemma_kept_rows(0, step, 0);
        assert(0 * step == 0);
        assert(splat_data::kept_rows(0, step) == 0);
        assert(0 * width == 0);
    }
}

/// Row `r` of what is kept is row `r * step`.
proof fn lemma_every_nth<T>(row: spec_fn(int) -> Seq<T>, step: int, width: int, k: int, r: int)
    requires
        0 < step,
        0 <= width,
        0 <= k,
        forall|i: int| 0 <= i < k ==> (#[trigger] row(i)).len() == width,
        0 <= r < splat_data::kept_rows(k, step),
    ensures
        every_nth(row, step, k).len() == splat_data::kept_rows(k, step) * width,
        0 <= r * step < k,
        row_of(every_nth(row, step, k), width, r) == row(r * step),
    decreases k,
{
    splat_data::lemma_kept_rows(k, step, r);
    assert(0 <= r * step) by (nonlinear_arith)
        requires
            0 <= r,
            0 < step,
    ;
    lemma_every_nth_len(row, step, width, k);
    lemma_every_nth_len(row, step, width, k - 1);
    lemma_kept_step(k - 1, step);
    let before = every_nth(row, step, k - 1);
    let after = every_nth(row, step, k);
    let n = splat_data::kept_rows(k - 1, step);
    if r < n {
        lemma_every_nth(row, step, width, k - 1, r);
        assert(0 <= r * width && r * width + width <= n * width) by (nonlinear_arith)
            requires
                0 <= r < n,
                0 <= width,
        ;
        assert(row_of(after, width, r) =~= row_of(before, width, r));
    } else {
        splat_data::lemma_kept_rows(k - 1, step, r);
        assert(r == n);
        assert(r * step == k - 1);
        assert(0 <= n * width) by (nonlinear_arith)
            requires
                0 <= n,
                0 <= width,
        ;
        assert(after =~= before + row(k - 1));
        assert(row_of(after, width, r) =~= row(k - 1));
    }
}

/// Coefficients of a color row with `n` values beside the base color.
pub open spec fn color_width(n: int) -> int {
    3 + 3 * (n / 3)
}

/// The rows of a plain file as they are kept, column by column.
pub open spec fn mean_rows<T>(rows: Seq<PlyRow<T>>) -> spec_fn(int) -> Seq<T> {
    |i: int| seq3(rows[i].mean)
}

pub open spec fn rotation_rows<T>(rows: Seq<PlyRow<T>>) -> spec_fn(int) -> Seq<T> {
    |i: int| seq4(rows[i].rotation)
}

pub open spec fn scale_rows<T>(rows: Seq<PlyRow<T>>) -> spec_fn(int) -> Seq<T> {
    |i: int| seq3(rows[i].log_scale)
}

pub open spec fn opacity_rows<T>(rows: Seq<PlyRow<T>>) -> spec_fn(int) -> Seq<T> {
    |i: int| seq![rows[i].opacity]
}

pub open spec fn color_rows<T: Copy>(rows: Seq<PlyRow<T>>, n: int) -> spec_fn(int) -> Seq<T> {
    |i: int| splat_data::interleaved(rows[i].base_color(), rows[i].rest@, n)
}

proof fn lemma_rows_kept<T: Copy>(plan: PlyPlan, rows: Seq<PlyRow<T>>, k: int)
    requires
        plan.subsample > 0,
        0 <= k <= rows.len(),
    ensures
        ({
            let v = with_rows(plan, rows, k);
            let step = plan.subsample as int;
            let none = Seq::<T>::empty();
            &&& v.row_index == k
            &&& v.means == every_nth(mean_rows(rows), step, k)
            &&& v.rotations == (if plan.has_rotations {
                every_nth(rotation_rows(rows), step, k)
            } else {
                none
            })
            &&& v.log_scales == (if plan.has_scales {
                every_nth(scale_rows(rows), step, k)
            } else {
                none
            })
            &&& v.raw_opacities == (if plan.has_opacities {
                every_nth(opacity_rows(rows), step, k)
            } else {
                none
            })
            &&& v.sh_coeffs == (if plan.sh_count > 0 {
                every_nth(color_rows(rows, plan.sh_count - 3), step, k)
            } else {
                none
            })
        }),
    decreases k,
{
    if k > 0 {
        lemma_rows_kept(plan, rows, k - 1);
        let v = with_rows(plan, rows, k - 1);
        assert(v.raw_opacities.push(rows[k - 1].opacity) =~= v.raw_opacities + seq![
            rows[k - 1].opacity,
        ]);
    }
}

/// Of `k` rows of a plain file, every `subsample`-th is kept from the first on:
/// row `r` of every list that the file has is row `r * subsample` of the file,
/// and lists that it does not have stay empty.
pub proof fn kept_rows_are_every_nth<T: Copy>(
    plan: PlyPlan,
    rows: Seq<PlyRow<T>>,
    k: int,
    r: int,
)
    requires
        plan.subsample > 0,
        0 <= k <= rows.len(),
        0 <= r < splat_data::kept_rows(k, plan.subsample as int),
    ensures
        ({
            let v = with_rows(plan, rows, k);
            let kept = splat_data::kept_rows(k, plan.subsample as int);
            let row = rows[r * plan.subsample];
            let width = color_width(plan.sh_count - 3);
            &&& v.row_index == k
            &&& 0 <= r * plan.subsample < k
            &&& v.means.len() == kept * 3
            &&& row_of(v.means, 3, r) == seq3(row.mean)
            &&& if plan.has_rotations {
                v.rotations.len() == kept * 4 && row_of(v.rotations, 4, r) == seq4(row.rotation)
            } else {
                v.rotations.len() == 0
            }
            &&& if plan.has_scales {
                v.log_scales.len() == kept * 3 && row_of(v.log_scales, 3, r) == seq3(row.log_scale)
            } else {
                v.log_scales.len() == 0
            }
            &&& if plan.has_opacities {
                v.raw_opacities.len() == kept && v.raw_opacities[r] == row.opacity
            } else {
                v.raw_opacities.len() == 0
            }
            &&& plan.sh_count == 0 ==> v.sh_coeffs.len() == 0
            &&& plan.sh_count >= 3 ==> v.sh_coeffs.len() == kept * width && row_of(
                v.sh_coeffs,
                width,
                r,
            ) == splat_data::interleaved(row.base_color(), row.rest@, plan.sh_count - 3)
        }),
{
    let step = plan.subsample as int;
    lemma_rows_kept(plan, rows, k);
    lemma_every_nth(mean_rows(rows), step, 3, k, r);
    lemma_every_nth(rotation_rows(rows), step, 4, k, r);
    lemma_every_nth(scale_rows(rows), step, 3, k, r);
    lemma_every_nth(opacity_rows(rows), step, 1, k, r);
    let opacities = every_nth(opacity_rows(rows), step, k);
    assert(row_of(opacities, 1, r)[0] == opacities[r]);
    if plan.sh_count >= 3 {
        lemma_every_nth(
            color_rows(rows, plan.sh_count - 3),
            step,
            color_width(plan.sh_count - 3),
            k,
            r,
        );
    }
}

/// One more row is kept exactly where its index is a multiple of the step.
pub proof fn lemma_kept_step(k: int, step: int)
    requires
        0 <= k,
        0 < step,
    ensures
        splat_data::kept_rows(k + 1, step) == splat_data::kept_rows(k, step) + if k % step == 0 {
            1int
        } else {
            0int
        },
{
    splat_data::lemma_div_ceil(k, step);
    splat_data::lemma_div_ceil(k + 1, step);
    vstd::arithmetic::div_mod::lemma_fundamental_div_mod(k, step);
    let q = k / step;
    let m = k % step;
    if m + 1 < step {
        assert(k + 1 == q * step + (m + 1)) by (nonlinear_arith)
            requires
                k == step * q + m,
        ;
        vstd::arithmetic::div_mod::lemma_fundamental_div_mod_converse(k + 1, step, q, m + 1);
    } else {
        assert(k + 1 == (q + 1) * step + 0) by (nonlinear_arith)
            requires
                k == step * q + m,
                m + 1 == step,
        ;
        vstd::arithmetic::div_mod::lemma_fundamental_div_mod_converse(k + 1, step, q + 1, 0);
    }
}

/// Index of the first element from the `from`-th on that holds no quantization
/// chunks.
pub open spec fn after_chunks(h: import::HeaderView, from: int) -> Option<int>
    decreases h.elements.len() - from,
{
    if from >= h.elements.len() {
        None
    } else if h.elements[from].name != "chunk"@ {
        Some(from)
    } else {
        after_chunks(h, from + 1)
    }
}

/// How the rows of a compressed file are read.
#[derive(Clone, Copy, Debug, PartialEq, Eq, Structural)]
pub struct CompressedPlan {
    pub total_splats: usize,
    pub max_splats: usize,
    pub subsample: usize,
    /// Rows of quantization bounds that were read.
    pub chunk_rows: usize,
    /// Rest coefficients per splat, where the file has them.
    pub sh_rest: Option<usize>,
}

/// Rows of quantization bounds that `total` splats need.
pub open spec fn chunks_needed(total: int) -> int {
    (total + 255) / 256
}

/// What a compressed file fails with before its splats are read, if it fails.
pub open spec fn compressed_error(h: import::HeaderView, chunk_rows: int) -> Option<Seq<char>> {
    match after_chunks(h, 0) {
        None => Some("Unknown format"@),
        Some(v) => {
            let total = h.elements[v].count;
            if h.elements[v].name != "vertex"@ {
                Some("Unknown format"@)
            } else if total == 0 {
                Some("PLY contains no vertices"@)
            } else if chunk_rows < chunks_needed(total) {
                Some(
                    "Compressed PLY has "@ + text::decimal_text(chunk_rows)
                        + " chunk rows but needs at least "@ + text::decimal_text(
                        chunks_needed(total),
                    ) + " for "@ + text::decimal_text(total) + " vertices"@,
                )
            } else if h.elements.len() <= 2 {
                None
            } else if h.elements[2].name != "sh"@ || h.elements[2].count != total {
                Some(
                    "Invalid compressed PLY SH element: expected "@ + text::decimal_text(total)
                        + " rows"@,
                )
            } else {
                import::rest_error(h.elements[2].properties)
            }
        },
    }
}

/// The plan for a compressed file.
pub open spec fn is_compressed_plan(
    h: import::HeaderView,
    chunk_rows: int,
    subsample: int,
    p: CompressedPlan,
) -> bool {
    let total = h.elements[after_chunks(h, 0)->0].count;
    &&& p.total_splats == total
    &&& p.max_splats == splat_data::kept_rows(total, subsample)
    &&& p.subsample == subsample
    &&& p.chunk_rows == chunk_rows
    &&& if h.elements.len() > 2 {
        p.sh_rest is Some && p.sh_rest->0 == h.elements[2].properties.len()
    } else {
        p.sh_rest is None
    }
}

fn skip_chunks(header: &PlyHeader) -> (r: Option<usize>)
    ensures
        match r {
            Some(i) => i < header.elements.len() && after_chunks(header@, 0) == Some(i as int),
            None => after_chunks(header@, 0) is None,
        },
{
    let mut i: usize = 0;
    while i < header.elements.len()
        invariant
            i <= header.elements.len(),
            after_chunks(header@, 0) == after_chunks(header@, i as int),
        decreases header.elements.len() - i,
    {
        assert(header@.elements[i as int].name == header.elements[i as int].name@);
        if !text::same_text(header.elements[i].name.as_str(), "chunk") {
            return Some(i);
        }
        i = i + 1;
    }
    None
}

/// Plans how the splats of a compressed file are read, once its quantization
/// bounds are read.
pub fn plan_compressed(
    header: &PlyHeader,
    chunk_rows: usize,
    subsample: usize,
) -> (r: Result<CompressedPlan, String>)
    requires
        subsample > 0,
    ensures
        match r {
            Err(e) => compressed_error(header@, chunk_rows as int) == Some(e@),
            Ok(p) => compressed_error(header@, chunk_rows as int) is None && is_compressed_plan(
                header@,
                chunk_rows as int,
                subsample as int,
                p,
            ) && chunks_needed(p.total_splats as int) <= p.chunk_rows,
        },
{
    let v: usize = match skip_chunks(header) {
        None => {
            return Err(String::from_str("Unknown format"));
        },
        Some(v) => v,
    };
    assert(header@.elements[v as int] == header.elements[v as int]@);
    let vertex: &ElementDef = &header.elements[v];
    if !text::same_text(vertex.name.as_str(), "vertex") {
        return Err(String::from_str("Unknown format"));
    }
    let total_splats: usize = vertex.count;
    let max_splats: usize = import::rows_kept(total_splats, subsample);
    if total_splats == 0 {
        return Err(String::from_str("PLY contains no vertices"));
    }
    let required: usize = (total_splats - 1) / import::SPLATS_PER_CHUNK + 1;
    if chunk_rows < required {
        let mut e: String = String::from_str("Compressed PLY has ");
        text::push_decimal(&mut e, chunk_rows as u64);
        e.append(" chunk rows but needs at least ");
        text::push_decimal(&mut e, required as u64);
        e.append(" for ");
        text::push_decimal(&mut e, total_splats as u64);
        e.append(" vertices");
        return Err(e);
    }
    let mut sh_rest: Option<usize> = None;
    if header.elements.len() > 2 {
        assert(header@.elements[2] == header.elements[2]@);
        let sh: &ElementDef = &header.elements[2];
        if !text::same_text(sh.name.as_str(), "sh") || sh.count != total_splats {
            let mut e: String = String::from_str("Invalid compressed PLY SH element: expected ");
            text::push_decimal(&mut e, total_splats as u64);
            e.append(" rows");
            return Err(e);
        }
        match validate_sh_rest_properties(&sh.properties) {
            Err(e) => {
                return Err(e);
            },
            Ok(n) => {
                sh_rest = Some(n);
            },
        }
    }
    Ok(CompressedPlan { total_splats, max_splats, subsample, chunk_rows, sh_rest })
}

/// The element that the reader of a compressed file is at.
#[derive(Clone, Copy, Debug, PartialEq, Eq, Structural)]
pub enum Element {
    Chunk,
    Vertex,
    Sh,
    /// Another one, or the end.
    Other,
}

/// How far a compressed file is read.
#[derive(Clone, Copy, Debug, PartialEq, Eq, Structural)]
pub enum Stage {
    /// Quantization bounds are being read.
    Bounds,
    /// Splats are being read.
    Splats,
    /// Rest coefficients are being read.
    Rest,
    /// All is read.
    Done,
}

/// What to do next with a compressed file.
#[derive(Clone, Copy, Debug, PartialEq, Eq, Structural)]
pub enum CompressedStep {
    /// Take the rows that are there, of bounds, splats or rest coefficients;
    /// before that, read on if `fill`.
    TakeRows { fill: bool },
    /// Plan how the splats are read.
    Plan,
    /// Hand out all splats with all of their colors.
    HandOutAll,
    /// The file is read.
    Finish,
}

impl Stage {
    pub open spec fn order(self) -> int {
        match self {
            Stage::Bounds => 0,
            Stage::Splats => 1,
            Stage::Rest => 2,
            Stage::Done => 3,
        }
    }

    /// The element whose rows a stage takes.
    pub open spec fn rows(self) -> Element {
        match self {
            Stage::Bounds => Element::Chunk,
            Stage::Splats => Element::Vertex,
            Stage::Rest => Element::Sh,
            Stage::Done => Element::Other,
        }
    }
}

/// What follows in a compressed file that is read up to `stage`, with the reader
/// at an element of `count` rows. An element without rows is passed without
/// reading on, but for the splats, of which there is at least one.
pub open spec fn step_at(stage: Stage, at: Element, count: usize, has_rest: bool) -> (
    Stage,
    CompressedStep,
) {
    match stage {
        Stage::Bounds => if at == Element::Chunk {
            (Stage::Bounds, CompressedStep::TakeRows { fill: count > 0 })
        } else {
            (Stage::Splats, CompressedStep::Plan)
        },
        Stage::Splats => if at == Element::Vertex {
            (Stage::Splats, CompressedStep::TakeRows { fill: true })
        } else if !has_rest {
            (Stage::Done, CompressedStep::Finish)
        } else if at == Element::Sh {
            (Stage::Rest, CompressedStep::TakeRows { fill: count > 0 })
        } else {
            (Stage::Done, CompressedStep::HandOutAll)
        },
        Stage::Rest => if at == Element::Sh {
            (Stage::Rest, CompressedStep::TakeRows { fill: count > 0 })
        } else {
            (Stage::Done, CompressedStep::HandOutAll)
        },
        Stage::Done => (Stage::Done, CompressedStep::Finish),
    }
}

/// Decides what to do next with a compressed file.
pub fn compressed_step(stage: Stage, at: Element, count: usize, has_rest: bool) -> (r: (
    Stage,
    CompressedStep,
))
    ensures
        r == step_at(stage, at, count, has_rest),
{
    match stage {
        Stage::Bounds => if at == Element::Chunk {
            (Stage::Bounds, CompressedStep::TakeRows { fill: count > 0 })
        } else {
            (Stage::Splats, CompressedStep::Plan)
        },
        Stage::Splats => if at == Element::Vertex {
            (Stage::Splats, CompressedStep::TakeRows { fill: true })
        } else if !has_rest {
            (Stage::Done, CompressedStep::Finish)
        } else if at == Element::Sh {
            (Stage::Rest, CompressedStep::TakeRows { fill: count > 0 })
        } else {
            (Stage::Done, CompressedStep::HandOutAll)
        },
        Stage::Rest => if at == Element::Sh {
            (Stage::Rest, CompressedStep::TakeRows { fill: count > 0 })
        } else {
            (Stage::Done, CompressedStep::HandOutAll)
        },
        Stage::Done => (Stage::Done, CompressedStep::Finish),
    }
}

/// Decides whether a compressed file goes on after the rows of a stage were
/// taken, with the reader at `at`.
pub fn after_rows(stage: Stage, bytes_read: usize, at: Element) -> (next: AfterChunk)
    ensures
        next == if stage == Stage::Done || at != stage.rows() {
            AfterChunk::Done
        } else if bytes_read == 0 {
            AfterChunk::UnexpectedEof
        } else {
            AfterChunk::ReadMore
        },
{
    let still: bool = match stage {
        Stage::Bounds => at == Element::Chunk,
        Stage::Splats => at == Element::Vertex,
        Stage::Rest => at == Element::Sh,
        Stage::Done => false,
    };
    after_element_chunk(bytes_read, still)
}

/// The stages of a compressed file only go forward, and rows are taken only at
/// the stage's own element.
pub proof fn stages_go_forward(stage: Stage, at: Element, count: usize, has_rest: bool)
    ensures
        ({
            let r = step_at(stage, at, count, has_rest);
            &&& stage.order() <= r.0.order()
            &&& r.1 is TakeRows ==> at == r.0.rows()
        }),
{
}

/// A file with rest coefficients ends by handing out all splats with all of
/// their colors, once; one without ends without that.
pub proof fn full_colors_are_handed_out_last(stage: Stage, at: Element, count: usize, has_rest: bool)
    requires
        stage != Stage::Done,
        stage == Stage::Rest ==> has_rest,
    ensures
        ({
            let r = step_at(stage, at, count, has_rest);
            r.0 == Stage::Done <==> r.1 == (if has_rest {
                CompressedStep::HandOutAll
            } else {
                CompressedStep::Finish
            })
        }),
        step_at(Stage::Done, at, count, has_rest).1 == CompressedStep::Finish,
{
}

/// A decoded splat of a compressed file. The rotation is in the order w, x, y,
/// z; `dc` holds the base coefficients of its color.
pub struct CompressedRow<T> {
    pub mean: (T, T, T),
    pub log_scale: (T, T, T),
    pub rotation: (T, T, T, T),
    pub raw_opacity: T,
    pub dc: (T, T, T),
}

/// What is kept after one more splat of a compressed file.
pub open spec fn with_splat<T: Copy>(
    subsample: int,
    v: RowsView<T>,
    row: CompressedRow<T>,
) -> RowsView<T> {
    if v.row_index % subsample != 0 {
        RowsView { row_index: v.row_index + 1, ..v }
    } else {
        RowsView {
            row_index: v.row_index + 1,
            means: v.means + seq3(row.mean),
            rotations: v.rotations + seq4(row.rotation),
            log_scales: v.log_scales + seq3(row.log_scale),
            sh_coeffs: v.sh_coeffs + seq3(row.dc),
            raw_opacities: v.raw_opacities.push(row.raw_opacity),
        }
    }
}

/// What is kept of the first `k` splats of a compressed file.
pub open spec fn with_splats<T: Copy>(
    subsample: int,
    rows: Seq<CompressedRow<T>>,
    k: int,
) -> RowsView<T>
    decreases k,
{
    if k <= 0 {
        no_rows()
    } else {
        with_splat(subsample, with_splats(subsample, rows, k - 1), rows[k - 1])
    }
}

/// All colors after one more row of `n` rest coefficients, the one behind `k`
/// others. A kept row appends the colors of its splat, whose base color stands
/// among the kept ones.
pub open spec fn with_rest<T>(
    subsample: int,
    n: int,
    base: Seq<T>,
    colors: Seq<T>,
    k: int,
    rest: Seq<T>,
) -> Seq<T> {
    let r = k / subsample;
    if k % subsample == 0 {
        colors + splat_data::interleaved((base[3 * r], base[3 * r + 1], base[3 * r + 2]), rest, n)
    } else {
        colors
    }
}

/// All colors after the first `k` rows of rest coefficients.
pub open spec fn with_rests<T>(
    subsample: int,
    n: int,
    base: Seq<T>,
    rests: Seq<Seq<T>>,
    k: int,
) -> Seq<T>
    decreases k,
{
    if k <= 0 {
        Seq::empty()
    } else {
        with_rest(
            subsample,
            n,
            base,
            with_rests(subsample, n, base, rests, k - 1),
            k - 1,
            rests[k - 1],
        )
    }
}

/// A compressed file being read. `sh_coeffs` holds base colors only; the rows
/// of rest coefficients that follow the splats build `total_coeffs`.
pub struct CompressedImport<T> {
    pub plan: CompressedPlan,
    pub row_index: usize,
    pub means: Vec<T>,
    pub rotations: Vec<T>,
    pub log_scales: Vec<T>,
    pub sh_coeffs: Vec<T>,
    pub raw_opacities: Vec<T>,
    pub sh_row_index: usize,
    pub total_coeffs: Vec<T>,
}

/// A compressed file being read, as a value.
pub struct CompressedImportView<T> {
    pub plan: CompressedPlan,
    pub rows: RowsView<T>,
    pub sh_row_index: int,
    pub total_coeffs: Seq<T>,
}

impl<T> View for CompressedImport<T> {
    type V = CompressedImportView<T>;

    open spec fn view(&self) -> CompressedImportView<T> {
        CompressedImportView {
            plan: self.plan,
            rows: RowsView {
                row_index: self.row_index as int,
                means: self.means@,
                rotations: self.rotations@,
                log_scales: self.log_scales@,
                sh_coeffs: self.sh_coeffs@,
                raw_opacities: self.raw_opacities@,
            },
            sh_row_index: self.sh_row_index as int,
            total_coeffs: self.total_coeffs@,
        }
    }
}

/// The data of a compressed file: every list is there, with `coeffs` for its
/// colors.
pub open spec fn is_full_data<T>(v: RowsView<T>, coeffs: Seq<T>, d: SplatData<T>) -> bool {
    &&& d.means@ == v.means
    &&& d.rotations is Some && d.rotations->0@ == v.rotations
    &&& d.log_scales is Some && d.log_scales->0@ == v.log_scales
    &&& d.sh_coeffs is Some && d.sh_coeffs->0@ == coeffs
    &&& d.raw_opacities is Some && d.raw_opacities->0@ == v.raw_opacities
}

impl<T: Copy> CompressedImport<T> {
    /// Kept rows, their colors, and the bounds on what is read.
    pub open spec fn wf(&self) -> bool {
        let kept = splat_data::kept_rows(self.row_index as int, self.plan.subsample as int);
        &&& self.plan.subsample > 0
        &&& chunks_needed(self.plan.total_splats as int) <= self.plan.chunk_rows
        &&& self.row_index <= self.plan.total_splats
        &&& self.sh_row_index <= self.plan.total_splats
        &&& self.means.len() == 3 * kept
        &&& self.rotations.len() == 4 * kept
        &&& self.log_scales.len() == 3 * kept
        &&& self.sh_coeffs.len() == 3 * kept
        &&& self.raw_opacities.len() == kept
    }

    /// A file of which no splat is read yet.
    pub fn new(plan: CompressedPlan) -> (s: CompressedImport<T>)
        requires
            plan.subsample > 0,
            chunks_needed(plan.total_splats as int) <= plan.chunk_rows,
        ensures
            s.wf(),
            s@ == (CompressedImportView {
                plan,
                rows: no_rows::<T>(),
                sh_row_index: 0,
                total_coeffs: Seq::<T>::empty(),
            }),
    {
        proof {
            splat_data::lemma_kept_rows(0, plan.subsample as int, 0);
            assert(0 * (plan.subsample as int) == 0);
        }
        CompressedImport {
            plan,
            row_index: 0,
            means: Vec::new(),
            rotations: Vec::new(),
            log_scales: Vec::new(),
            sh_coeffs: Vec::new(),
            raw_opacities: Vec::new(),
            sh_row_index: 0,
            total_coeffs: Vec::new(),
        }
    }

    /// The row of quantization bounds that the next splat uses.
    pub fn next_chunk(&self) -> (c: usize)
        requires
            self.wf(),
            self.row_index < self.plan.total_splats,
        ensures
            c == self.row_index / 256,
            c < self.plan.chunk_rows,
    {
        self.row_index / import::SPLATS_PER_CHUNK
    }

    /// Takes the next splat.
    pub fn push_splat(&mut self, row: &CompressedRow<T>)
        requires
            old(self).wf(),
            old(self).row_index < old(self).plan.total_splats,
        ensures
            final(self).wf(),
            final(self)@ == (CompressedImportView {
                rows: with_splat(old(self)@.plan.subsample as int, old(self)@.rows, *row),
                ..old(self)@
            }),
    {
        proof {
            lemma_kept_step(self.row_index as int, self.plan.subsample as int);
        }
        let keep: bool = self.row_index % self.plan.subsample == 0;
        self.row_index = self.row_index + 1;
        if keep {
            push3(&mut self.means, row.mean);
            push3(&mut self.log_scales, row.log_scale);
            push4(&mut self.rotations, row.rotation);
            self.raw_opacities.push(row.raw_opacity);
            push3(&mut self.sh_coeffs, row.dc);
        }
    }

    /// Takes the next row of rest coefficients, which belongs to the splat of
    /// the same row. A kept row appends the colors of its splat.
    pub fn push_sh(&mut self, rest: &Vec<T>)
        requires
            old(self).wf(),
            old(self).row_index == old(self).plan.total_splats,
            old(self).sh_row_index < old(self).plan.total_splats,
            old(self).plan.sh_rest is Some,
            old(self).plan.sh_rest->0 <= rest.len(),
        ensures
            final(self).wf(),
            final(self)@ == (CompressedImportView {
                sh_row_index: old(self)@.sh_row_index + 1,
                total_coeffs: with_rest(
                    old(self)@.plan.subsample as int,
                    old(self)@.plan.sh_rest->0 as int,
                    old(self)@.rows.sh_coeffs,
                    old(self)@.total_coeffs,
                    old(self)@.sh_row_index,
                    rest@,
                ),
                ..old(self)@
            }),
    {
        let step: usize = self.plan.subsample;
        let keep: bool = self.sh_row_index % step == 0;
        if keep {
            let splat_index: usize = self.sh_row_index / step;
            proof {
                let k = self.sh_row_index as int;
                vstd::arithmetic::div_mod::lemma_fundamental_div_mod(k, step as int);
                assert(step * splat_index == splat_index * step) by (nonlinear_arith);
                splat_data::lemma_kept_rows(
                    self.plan.total_splats as int,
                    step as int,
                    splat_index as int,
                );
            }
            let dc: (T, T, T) = (
                self.sh_coeffs[splat_index * 3],
                self.sh_coeffs[splat_index * 3 + 1],
                self.sh_coeffs[splat_index * 3 + 2],
            );
            let count: usize = match self.plan.sh_rest {
                Some(n) => n,
                None => 0,
            };
            interleave_coeffs(dc, rest, count, &mut self.total_coeffs);
        }
        self.sh_row_index = self.sh_row_index + 1;
    }

    /// Whether a result is due after a chunk of splats.
    pub fn emit_after_chunk(&self, update_due: bool) -> (r: bool)
        ensures
            r == (update_due || self.row_index == self.plan.total_splats),
    {
        update_due || self.row_index == self.plan.total_splats
    }

    /// The data of the splats read so far, with their base colors.
    pub fn base_data(&self) -> (d: SplatData<T>)
        ensures
            is_full_data(self@.rows, self@.rows.sh_coeffs, d),
    {
        SplatData {
            means: copy_list(&self.means),
            rotations: Some(copy_list(&self.rotations)),
            log_scales: Some(copy_list(&self.log_scales)),
            sh_coeffs: Some(copy_list(&self.sh_coeffs)),
            raw_opacities: Some(copy_list(&self.raw_opacities)),
        }
    }

    /// The data of all splats, with all of their colors.
    pub fn full_data(self) -> (d: SplatData<T>)
        ensures
            is_full_data(self@.rows, self@.total_coeffs, d),
    {
        SplatData {
            means: self.means,
            rotations: Some(self.rotations),
            log_scales: Some(self.log_scales),
            sh_coeffs: Some(self.total_coeffs),
            raw_opacities: Some(self.raw_opacities),
        }
    }
}

/// The columns of the splats of a compressed file as they are kept.
pub open spec fn splat_means<T>(rows: Seq<CompressedRow<T>>) -> spec_fn(int) -> Seq<T> {
    |i: int| seq3(rows[i].mean)
}

pub open spec fn splat_rotations<T>(rows: Seq<CompressedRow<T>>) -> spec_fn(int) -> Seq<T> {
    |i: int| seq4(rows[i].rotation)
}

pub open spec fn splat_scales<T>(rows: Seq<CompressedRow<T>>) -> spec_fn(int) -> Seq<T> {
    |i: int| seq3(rows[i].log_scale)
}

pub open spec fn splat_opacities<T>(rows: Seq<CompressedRow<T>>) -> spec_fn(int) -> Seq<T> {
    |i: int| seq![rows[i].raw_opacity]
}

pub open spec fn splat_colors<T>(rows: Seq<CompressedRow<T>>) -> spec_fn(int) -> Seq<T> {
    |i: int| seq3(rows[i].dc)
}

pub open spec fn full_colors<T>(
    rows: Seq<CompressedRow<T>>,
    rests: Seq<Seq<T>>,
    n: int,
) -> spec_fn(int) -> Seq<T> {
    |i: int| splat_data::interleaved(rows[i].dc, rests[i], n)
}

proof fn lemma_splats_kept<T: Copy>(subsample: int, rows: Seq<CompressedRow<T>>, k: int)
    requires
        subsample > 0,
        0 <= k <= rows.len(),
    ensures
        ({
            let v = with_splats(subsample, rows, k);
            &&& v.row_index == k
            &&& v.means == every_nth(splat_means(rows), subsample, k)
            &&& v.rotations == every_nth(splat_rotations(rows), subsample, k)
            &&& v.log_scales == every_nth(splat_scales(rows), subsample, k)
            &&& v.raw_opacities == every_nth(splat_opacities(rows), subsample, k)
            &&& v.sh_coeffs == every_nth(splat_colors(rows), subsample, k)
        }),
    decreases k,
{
    if k > 0 {
        lemma_splats_kept(subsample, rows, k - 1);
        let v = with_splats(subsample, rows, k - 1);
        assert(v.raw_opacities.push(rows[k - 1].raw_opacity) =~= v.raw_opacities + seq![
            rows[k - 1].raw_opacity,
        ]);
    }
}

/// Of `k` splats of a compressed file, every `subsample`-th is kept from the
/// first on: row `r` of every list is splat `r * subsample` of the file.
pub proof fn kept_splats_are_every_nth<T: Copy>(
    subsample: int,
    rows: Seq<CompressedRow<T>>,
    k: int,
    r: int,
)
    requires
        subsample > 0,
        0 <= k <= rows.len(),
        0 <= r < splat_data::kept_rows(k, subsample),
    ensures
        ({
            let v = with_splats(subsample, rows, k);
            let kept = splat_data::kept_rows(k, subsample);
            let row = rows[r * subsample];
            &&& v.row_index == k
            &&& 0 <= r * subsample < k
            &&& v.means.len() == kept * 3
            &&& v.rotations.len() == kept * 4
            &&& v.log_scales.len() == kept * 3
            &&& v.raw_opacities.len() == kept
            &&& v.sh_coeffs.len() == kept * 3
            &&& row_of(v.means, 3, r) == seq3(row.mean)
            &&& row_of(v.rotations, 4, r) == seq4(row.rotation)
            &&& row_of(v.log_scales, 3, r) == seq3(row.log_scale)
            &&& v.raw_opacities[r] == row.raw_opacity
            &&& row_of(v.sh_coeffs, 3, r) == seq3(row.dc)
        }),
{
    lemma_splats_kept(subsample, rows, k);
    lemma_every_nth(splat_means(rows), subsample, 3, k, r);
    lemma_every_nth(splat_rotations(rows), subsample, 4, k, r);
    lemma_every_nth(splat_scales(rows), subsample, 3, k, r);
    lemma_every_nth(splat_opacities(rows), subsample, 1, k, r);
    lemma_every_nth(splat_colors(rows), subsample, 3, k, r);
    let opacities = every_nth(splat_opacities(rows), subsample, k);
    assert(row_of(opacities, 1, r)[0] == opacities[r]);
}

proof fn lemma_rests_kept<T: Copy>(
    subsample: int,
    n: int,
    rows: Seq<CompressedRow<T>>,
    rests: Seq<Seq<T>>,
    k: int,
)
    requires
        subsample > 0,
        0 <= k <= rows.len(),
    ensures
        with_rests(
            subsample,
            n,
            with_splats(subsample, rows, rows.len() as int).sh_coeffs,
            rests,
            k,
        ) == every_nth(full_colors(rows, rests, n), subsample, k),
    decreases k,
{
    if k > 0 {
        lemma_rests_kept(subsample, n, rows, rests, k - 1);
        if (k - 1) % subsample == 0 {
            let total = rows.len() as int;
            let base = with_splats(subsample, rows, total).sh_coeffs;
            let r = (k - 1) / subsample;
            vstd::arithmetic::div_mod::lemma_fundamental_div_mod(k - 1, subsample);
            assert(r * subsample == subsample * r) by (nonlinear_arith);
            assert(0 <= r) by (nonlinear_arith)
                requires
                    k - 1 == subsample * r,
                    0 <= k - 1,
                    0 < subsample,
            ;
            splat_data::lemma_kept_rows(total, subsample, r);
            kept_splats_are_every_nth(subsample, rows, total, r);
            let dc = row_of(base, 3, r);
            let kept = splat_data::kept_rows(total, subsample);
            assert(r * 3 + 3 <= kept * 3);
            assert(dc[0] == base[3 * r] && dc[1] == base[3 * r + 1] && dc[2] == base[3 * r + 2]);
            assert(dc == seq3(rows[k - 1].dc));
            assert(dc[0] == rows[k - 1].dc.0 && dc[1] == rows[k - 1].dc.1 && dc[2]
                == rows[k - 1].dc.2);
        }
    }
}

/// Once all splats of a compressed file are read, the full colors of its kept
/// splats are those of every `subsample`-th row of rest coefficients, each with
/// the base color of the splat in the same row of the file.
pub proof fn kept_colors_are_every_nth<T: Copy>(
    subsample: int,
    n: int,
    rows: Seq<CompressedRow<T>>,
    rests: Seq<Seq<T>>,
    k: int,
    r: int,
)
    requires
        subsample > 0,
        0 <= n,
        0 <= k <= rows.len(),
        0 <= r < splat_data::kept_rows(k, subsample),
    ensures
        ({
            let base = with_splats(subsample, rows, rows.len() as int).sh_coeffs;
            let colors = with_rests(subsample, n, base, rests, k);
            &&& 0 <= r * subsample < k
            &&& colors.len() == splat_data::kept_rows(k, subsample) * color_width(n)
            &&& row_of(colors, color_width(n), r) == splat_data::interleaved(
                rows[r * subsample].dc,
                rests[r * subsample],
                n,
            )
        }),
{
    lemma_rests_kept(subsample, n, rows, rests, k);
    lemma_every_nth(full_colors(rows, rests, n), subsample, color_width(n), k, r);
}

/// Every splat of a planned file finds its quantization bounds.
pub proof fn every_splat_has_bounds(total: int, chunk_rows: int, row: int)
    requires
        0 <= row < total,
        chunks_needed(total) <= chunk_rows,
    ensures
        0 <= row / 256 < chunk_rows,
{
}

/// The rows of bounds that splats need hold all of them, and with one row fewer
/// they would not: a row serves 256 splats.
pub proof fn chunks_just_cover_the_splats(total: int)
    requires
        0 < total,
    ensures
        total <= 256 * chunks_needed(total),
        256 * (chunks_needed(total) - 1) < total,
{
}

/// A row adds its numbers in their order to the lists that they belong to.
pub proof fn rows_keep_the_order_of_numbers<T: Copy>(
    rows: Seq<PlyRow<T>>,
    packed: Seq<CompressedRow<T>>,
    i: int,
)
    ensures
        ({
            let (r, c) = (rows[i], packed[i]);
            let (m, n) = (mean_rows(rows)(i), splat_means(packed)(i));
            let (s, t) = (scale_rows(rows)(i), splat_scales(packed)(i));
            let (q, p) = (rotation_rows(rows)(i), splat_rotations(packed)(i));
            let (o, d) = (opacity_rows(rows)(i), splat_opacities(packed)(i));
            let k = splat_colors(packed)(i);
            &&& m.len() == 3 && m[0] == r.mean.0 && m[1] == r.mean.1 && m[2] == r.mean.2
            &&& n.len() == 3 && n[0] == c.mean.0 && n[1] == c.mean.1 && n[2] == c.mean.2
            &&& s.len() == 3 && s[0] == r.log_scale.0 && s[1] == r.log_scale.1 && s[2]
                == r.log_scale.2
            &&& t.len() == 3 && t[0] == c.log_scale.0 && t[1] == c.log_scale.1 && t[2]
                == c.log_scale.2
            &&& q.len() == 4 && q[0] == r.rotation.0 && q[1] == r.rotation.1 && q[2]
                == r.rotation.2 && q[3] == r.rotation.3
            &&& p.len() == 4 && p[0] == c.rotation.0 && p[1] == c.rotation.1 && p[2]
                == c.rotation.2 && p[3] == c.rotation.3
            &&& o.len() == 1 && o[0] == r.opacity
            &&& d.len() == 1 && d[0] == c.raw_opacity
            &&& k.len() == 3 && k[0] == c.dc.0 && k[1] == c.dc.1 && k[2] == c.dc.2
        }),
{
}

/// Blanks are the white space of ASCII, without the vertical tab.
pub proof fn blanks_are_white_space(b: u8)
    ensures
        is_ascii_blank(b) <==> b < 0x80 && text::is_white_space(b as char) && b != 0x0b,
{
}

} // verus!
