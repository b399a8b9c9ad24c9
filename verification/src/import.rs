//! Import of splat files: what a PLY header promises, which rows are kept, and
//! when a partial or the final result is due.

use crate::counting;
use crate::gaussian_splats::SplatRenderMode;
use crate::sh;
use crate::splat_data;
use crate::text;
use vstd::prelude::*;
use vstd::string::StringExecFns;

verus! {

/// Splats that share one row of quantization bounds in a compressed file.
pub const SPLATS_PER_CHUNK: usize = 256;

/// Encoding of the rows of a file.
#[derive(Clone, Copy, Debug, PartialEq, Eq, Structural)]
pub enum PlyEncoding {
    Ascii,
    BinaryLittleEndian,
    BinaryBigEndian,
}

/// An element of a file: its name, its number of rows, and its properties.
#[derive(Debug)]
pub struct ElementDef {
    pub name: String,
    pub count: usize,
    pub properties: Vec<String>,
}

/// Header of a file.
#[derive(Debug)]
pub struct PlyHeader {
    pub encoding: PlyEncoding,
    pub elements: Vec<ElementDef>,
    pub comments: Vec<String>,
}

/// An element as text.
#[verifier::ext_equal]
pub struct ElementView {
    pub name: Seq<char>,
    pub count: int,
    pub properties: Seq<Seq<char>>,
}

/// A header as text.
#[verifier::ext_equal]
pub struct HeaderView {
    pub encoding: PlyEncoding,
    pub elements: Seq<ElementView>,
    pub comments: Seq<Seq<char>>,
}

impl View for ElementDef {
    type V = ElementView;

    open spec fn view(&self) -> ElementView {
        ElementView {
            name: self.name@,
            count: self.count as int,
            properties: text::texts(self.properties@),
        }
    }
}

impl View for PlyHeader {
    type V = HeaderView;

    open spec fn view(&self) -> HeaderView {
        HeaderView {
            encoding: self.encoding,
            elements: Seq::new(self.elements@.len(), |i: int| self.elements@[i]@),
            comments: text::texts(self.comments@),
        }
    }
}

/// The header at the front of a buffer, if the buffer holds all of a valid one.
pub uninterp spec fn buffered_header(buffer: Seq<u8>) -> Option<HeaderView>;

/// Calls `serde_ply::PlyChunkedReader::header` on a fresh reader that holds
/// `buffer`. The contract says that the result, field for field, is a function
/// of the buffered bytes.
#[verifier::external_body]
fn ply_header(buffer: &Vec<u8>) -> (r: Option<PlyHeader>)
    ensures
        match r {
            Some(h) => buffered_header(buffer@) == Some(h@),
            None => buffered_header(buffer@) is None,
        },
{
    let mut reader = serde_ply::PlyChunkedReader::new();
    reader.buffer_mut().extend_from_slice(buffer);
    let header = reader.header()?;
    let encoding = match header.format {
        serde_ply::PlyFormat::Ascii => PlyEncoding::Ascii,
        serde_ply::PlyFormat::BinaryLittleEndian => PlyEncoding::BinaryLittleEndian,
        serde_ply::PlyFormat::BinaryBigEndian => PlyEncoding::BinaryBigEndian,
    };
    let names = |e: &serde_ply::ElementDef| e.properties.iter().map(|p| p.name.clone()).collect();
    let element = |e: &serde_ply::ElementDef| {
        ElementDef { name: e.name.clone(), count: e.count, properties: names(e) }
    };
    let elements = header.elem_defs.iter().map(element).collect();
    Some(PlyHeader { encoding, elements, comments: header.comments.clone() })
}

/// What a comment says about the vertical axis. The parts of an axis given by
/// its components are of type `P`.
#[derive(Debug)]
pub enum AxisComment<P> {
    /// Nothing.
    Silent,
    X,
    NegY,
    NegZ,
    Parts(Vec<P>),
}

/// A vertical axis.
#[derive(Clone, Copy, Debug, PartialEq, Eq)]
pub enum UpAxis<T> {
    X,
    NegY,
    NegZ,
    Custom(T, T, T),
}

/// What follows `prefix` in `s`, without white space around it.
pub open spec fn tagged(s: Seq<char>, prefix: Seq<char>) -> Option<Seq<char>> {
    if prefix.is_prefix_of(s) {
        Some(text::trimmed(s.skip(prefix.len() as int)))
    } else {
        None
    }
}

fn tag_of<'a>(s: &'a str, prefix: &str) -> (r: Option<&'a str>)
    ensures
        match r {
            Some(t) => tagged(s@, prefix@) == Some(t@),
            None => tagged(s@, prefix@) is None,
        },
{
    match text::strip_prefix(s, prefix) {
        Some(rest) => Some(text::trim(rest)),
        None => None,
    }
}

/// `axis` is what a comment in lower case says about the vertical axis.
pub open spec fn is_axis_of(lower: Seq<char>, axis: AxisComment<String>) -> bool {
    match tagged(lower, "vertical axis: "@) {
        None => axis is Silent,
        Some(t) => if t == "x"@ {
            axis is X
        } else if t == "y"@ {
            axis is NegY
        } else if t == "z"@ {
            axis is NegZ
        } else {
            axis matches AxisComment::Parts(parts) && text::texts(parts@) == text::pieces(t, true)
        },
    }
}

/// Reads the vertical axis from a comment in lower case. An axis given by
/// components comes as the texts between commas, brackets and white space.
pub fn axis_of_lowercase(lower: &str) -> (axis: AxisComment<String>)
    ensures
        is_axis_of(lower@, axis),
{
    match tag_of(lower, "vertical axis: ") {
        None => AxisComment::Silent,
        Some(t) => if text::same_text(t, "x") {
            AxisComment::X
        } else if text::same_text(t, "y") {
            AxisComment::NegY
        } else if text::same_text(t, "z") {
            AxisComment::NegZ
        } else {
            AxisComment::Parts(text::split_pieces(t, true))
        },
    }
}

/// Reads the vertical axis from a comment of any case.
pub fn axis_of_comment(comment: &str) -> (axis: AxisComment<String>)
    ensures
        is_axis_of(text::lowercased(comment@), axis),
{
    let lower: String = text::to_lowercase(comment);
    axis_of_lowercase(lower.as_str())
}

/// The axis that a comment settles: components only where there are three.
pub open spec fn settled_axis<T>(axis: AxisComment<T>) -> Option<UpAxis<T>> {
    match axis {
        AxisComment::Silent => None,
        AxisComment::X => Some(UpAxis::X),
        AxisComment::NegY => Some(UpAxis::NegY),
        AxisComment::NegZ => Some(UpAxis::NegZ),
        AxisComment::Parts(parts) => if parts.len() == 3 {
            Some(UpAxis::Custom(parts[0], parts[1], parts[2]))
        } else {
            None
        },
    }
}

/// The axis that the last of the first `k` comments to settle one gives.
pub open spec fn last_axis<T>(axes: Seq<AxisComment<T>>, k: int) -> Option<UpAxis<T>>
    decreases k,
{
    if k <= 0 {
        None
    } else if settled_axis(axes[k - 1]) is Some {
        settled_axis(axes[k - 1])
    } else {
        last_axis(axes, k - 1)
    }
}

/// The vertical axis of a file: what its last comment on it says.
pub fn up_axis_of<T: Copy>(axes: &Vec<AxisComment<T>>) -> (r: Option<UpAxis<T>>)
    ensures
        r == last_axis(axes@, axes.len() as int),
{
    let mut k: usize = axes.len();
    while k > 0
        invariant
            k <= axes.len(),
            last_axis(axes@, axes.len() as int) == last_axis(axes@, k as int),
        decreases k,
    {
        k = k - 1;
        match &axes[k] {
            AxisComment::Silent => {},
            AxisComment::X => {
                return Some(UpAxis::X);
            },
            AxisComment::NegY => {
                return Some(UpAxis::NegY);
            },
            AxisComment::NegZ => {
                return Some(UpAxis::NegZ);
            },
            AxisComment::Parts(parts) => {
                if parts.len() == 3 {
                    return Some(UpAxis::Custom(parts[0], parts[1], parts[2]));
                }
            },
        }
    }
    None
}

/// The render mode that a comment in lower case names.
pub open spec fn mode_in(lower: Seq<char>) -> Option<SplatRenderMode> {
    match tagged(lower, "splatrendermode: "@) {
        None => None,
        Some(t) => if t == "mip"@ {
            Some(SplatRenderMode::Mip)
        } else if t == "default"@ {
            Some(SplatRenderMode::Default)
        } else {
            None
        },
    }
}

/// Reads the render mode from a comment in lower case.
pub fn mode_of_lowercase(lower: &str) -> (mode: Option<SplatRenderMode>)
    ensures
        mode == mode_in(lower@),
{
    match tag_of(lower, "splatrendermode: ") {
        None => None,
        Some(t) => if text::same_text(t, "mip") {
            Some(SplatRenderMode::Mip)
        } else if text::same_text(t, "default") {
            Some(SplatRenderMode::Default)
        } else {
            None
        },
    }
}

/// The render mode that the last of the first `k` comments to name one gives.
pub open spec fn last_mode(comments: Seq<Seq<char>>, k: int) -> Option<SplatRenderMode>
    decreases k,
{
    if k <= 0 {
        None
    } else if mode_in(text::lowercased(comments[k - 1])) is Some {
        mode_in(text::lowercased(comments[k - 1]))
    } else {
        last_mode(comments, k - 1)
    }
}

/// The render mode of a file: what its last comment on it says.
pub fn render_mode_of(comments: &Vec<String>) -> (mode: Option<SplatRenderMode>)
    ensures
        mode == last_mode(text::texts(comments@), comments.len() as int),
{
    let mut k: usize = comments.len();
    while k > 0
        invariant
            k <= comments.len(),
            last_mode(text::texts(comments@), comments.len() as int) == last_mode(
                text::texts(comments@),
                k as int,
            ),
        decreases k,
    {
        k = k - 1;
        let lower: String = text::to_lowercase(comments[k].as_str());
        let mode: Option<SplatRenderMode> = mode_of_lowercase(lower.as_str());
        if mode.is_some() {
            return mode;
        }
    }
    None
}

/// Layout of a file.
#[derive(Clone, Copy, Debug, PartialEq, Eq, Structural)]
pub enum PlyFormat {
    Ply,
    SuperSplatCompressed,
}

/// The file has an element of that name.
pub open spec fn has_element(h: HeaderView, name: Seq<char>) -> bool {
    exists|i: int| 0 <= i < h.elements.len() && (#[trigger] h.elements[i]).name == name
}

/// The layout of a file: compressed where quantization chunks come first, and
/// none without vertices.
pub open spec fn format_of(h: HeaderView) -> Option<PlyFormat> {
    if !has_element(h, "vertex"@) {
        None
    } else if h.elements[0].name == "chunk"@ {
        Some(PlyFormat::SuperSplatCompressed)
    } else {
        Some(PlyFormat::Ply)
    }
}

/// Index of the first element of that name, from the `from`-th on.
pub open spec fn element_from(h: HeaderView, name: Seq<char>, from: int) -> Option<int>
    decreases h.elements.len() - from,
{
    if from >= h.elements.len() {
        None
    } else if h.elements[from].name == name {
        Some(from)
    } else {
        element_from(h, name, from + 1)
    }
}

fn find_element(header: &PlyHeader, name: &str) -> (r: Option<usize>)
    ensures
        match r {
            Some(i) => i < header.elements.len() && element_from(header@, name@, 0) == Some(
                i as int,
            ) && header.elements[i as int].name@ == name@,
            None => element_from(header@, name@, 0) is None,
        },
        r is Some <==> has_element(header@, name@),
{
    let mut i: usize = 0;
    while i < header.elements.len()
        invariant
            i <= header.elements.len(),
            element_from(header@, name@, 0) == element_from(header@, name@, i as int),
            forall|k: int| 0 <= k < i ==> (#[trigger] header@.elements[k]).name != name@,
        decreases header.elements.len() - i,
    {
        assert(header@.elements[i as int].name == header.elements[i as int].name@);
        if text::same_text(header.elements[i].name.as_str(), name) {
            return Some(i);
        }
        i = i + 1;
    }
    None
}

/// Decides the layout of a file.
pub fn ply_format(header: &PlyHeader) -> (r: Option<PlyFormat>)
    ensures
        r == format_of(header@),
{
    match find_element(header, "vertex") {
        None => None,
        Some(_) => {
            assert(header@.elements[0].name == header.elements[0].name@);
            if text::same_text(header.elements[0].name.as_str(), "chunk") {
                Some(PlyFormat::SuperSplatCompressed)
            } else {
                Some(PlyFormat::Ply)
            }
        },
    }
}

/// The index that the name of a rest coefficient carries.
pub open spec fn rest_index(name: Seq<char>) -> Option<int> {
    if "f_rest_"@.is_prefix_of(name) {
        text::parsed_unsigned(name.skip("f_rest_"@.len() as int), usize::MAX as int)
    } else {
        None
    }
}

/// First name from the `from`-th on that is no rest coefficient.
pub open spec fn first_bad_name(names: Seq<Seq<char>>, from: int) -> Option<int>
    decreases names.len() - from,
{
    if from >= names.len() {
        None
    } else if rest_index(names[from]) is None {
        Some(from)
    } else {
        first_bad_name(names, from + 1)
    }
}

/// The `i`-th name carries index `k`.
pub open spec fn carries(names: Seq<Seq<char>>, i: int, k: int) -> bool {
    rest_index(names[i]) == Some(k)
}

/// Some name carries index `k`.
pub open spec fn is_carried(names: Seq<Seq<char>>, k: int) -> bool {
    exists|i: int| 0 <= i < names.len() && #[trigger] carries(names, i, k)
}

/// The names carry the indices `0..names.len()`, in some order.
pub open spec fn is_contiguous(names: Seq<Seq<char>>) -> bool {
    forall|k: int| 0 <= k < names.len() ==> #[trigger] is_carried(names, k)
}

/// Rest coefficients of the degrees zero to four.
pub open spec fn is_rest_count(n: int) -> bool {
    n == 0 || n == 9 || n == 24 || n == 45 || n == 72
}

/// What is wrong with the rest coefficients of a file, if anything.
pub open spec fn rest_error(names: Seq<Seq<char>>) -> Option<Seq<char>> {
    match first_bad_name(names, 0) {
        Some(i) => Some("Invalid SH property name: "@ + names[i]),
        None => if !is_contiguous(names) {
            Some("SH rest properties must be contiguous from f_rest_0"@)
        } else if !is_rest_count(names.len() as int) {
            Some(
                "Unsupported SH rest property count: "@ + text::decimal_text(names.len() as int),
            )
        } else {
            None
        },
    }
}

fn rest_index_of(name: &str) -> (r: Option<u64>)
    ensures
        match r {
            Some(k) => rest_index(name@) == Some(k as int) && k <= usize::MAX,
            None => rest_index(name@) is None,
        },
{
    match text::strip_prefix(name, "f_rest_") {
        Some(suffix) => text::parse_unsigned(suffix, usize::MAX as u64),
        None => None,
    }
}

/// Checks the rest coefficients of a file: their names carry the indices from
/// zero on without a gap, and their number belongs to a degree.
pub fn validate_sh_rest_properties(names: &Vec<String>) -> (r: Result<usize, String>)
    ensures
        match r {
            Ok(n) => rest_error(text::texts(names@)) is None && n == names.len(),
            Err(e) => rest_error(text::texts(names@)) == Some(e@),
        },
{
    let ghost all = text::texts(names@);
    let n: usize = names.len();
    let mut seen: Vec<bool> = vec![false; n];
    let mut i: usize = 0;
    proof {
        assert forall|k: int| 0 <= k < n implies #[trigger] seen[k] == (exists|j: int|
            0 <= j < 0 && #[trigger] carries(all, j, k)) by {}
    }
    while i < n
        invariant
            i <= n,
            n == names.len(),
            all == text::texts(names@),
            seen.len() == n,
            first_bad_name(all, 0) == first_bad_name(all, i as int),
            forall|k: int|
                0 <= k < n ==> #[trigger] seen[k] == (exists|j: int|
                    0 <= j < i && #[trigger] carries(all, j, k)),
        decreases n - i,
    {
        assert(all[i as int] == names[i as int]@);
        match rest_index_of(names[i].as_str()) {
            None => {
                let mut e: String = String::from_str("Invalid SH property name: ");
                e.append(names[i].as_str());
                return Err(e);
            },
            Some(k) => {
                let ghost before = seen@;
                assert(carries(all, i as int, k as int));
                if k < n as u64 {
                    seen.set(k as usize, true);
                }
                proof {
                    assert forall|m: int| 0 <= m < n implies #[trigger] seen[m] == (exists|j: int|
                        0 <= j < i + 1 && #[trigger] carries(all, j, m)) by {
                        if before[m] {
                            let j = choose|j: int| 0 <= j < i && #[trigger] carries(all, j, m);
                            assert(0 <= j < i + 1 && carries(all, j, m));
                        }
                        if m == k {
                            assert(0 <= i < i + 1 && carries(all, i as int, m));
                        }
                        if exists|j: int| 0 <= j < i + 1 && #[trigger] carries(all, j, m) {
                            let j = choose|j: int| 0 <= j < i + 1 && #[trigger] carries(all, j, m);
                            if j == i {
                                assert(m == k);
                            } else {
                                assert(0 <= j < i && carries(all, j, m));
                            }
                        }
                    }
                }
            },
        }
        i = i + 1;
    }
    let mut k: usize = 0;
    while k < n
        invariant
            k <= n,
            n == all.len(),
            all == text::texts(names@),
            seen.len() == n,
            first_bad_name(all, 0) is None,
            forall|m: int|
                0 <= m < n ==> #[trigger] seen[m] == (exists|j: int|
                    0 <= j < n && #[trigger] carries(all, j, m)),
            forall|m: int| 0 <= m < k ==> #[trigger] is_carried(all, m),
        decreases n - k,
    {
        if !seen[k] {
            proof {
                assert(!is_carried(all, k as int));
            }
            return Err(String::from_str("SH rest properties must be contiguous from f_rest_0"));
        }
        proof {
            assert(is_carried(all, k as int));
        }
        k = k + 1;
    }
    if n != 0 && n != 9 && n != 24 && n != 45 && n != 72 {
        let mut e: String = String::from_str("Unsupported SH rest property count: ");
        text::push_decimal(&mut e, n as u64);
        return Err(e);
    }
    Ok(n)
}

/// The names among the first `k` that start like a rest coefficient.
pub open spec fn rest_names(names: Seq<Seq<char>>, k: int) -> Seq<Seq<char>>
    decreases k,
{
    if k <= 0 {
        Seq::empty()
    } else if "f_rest_"@.is_prefix_of(names[k - 1]) {
        rest_names(names, k - 1).push(names[k - 1])
    } else {
        rest_names(names, k - 1)
    }
}

fn rest_names_of(names: &Vec<String>) -> (out: Vec<String>)
    ensures
        text::texts(out@) == rest_names(text::texts(names@), names.len() as int),
{
    let mut out: Vec<String> = Vec::new();
    let mut i: usize = 0;
    proof {
        assert(text::texts(out@) =~= rest_names(text::texts(names@), 0));
    }
    while i < names.len()
        invariant
            i <= names.len(),
            text::texts(out@) == rest_names(text::texts(names@), i as int),
        decreases names.len() - i,
    {
        assert(text::texts(names@)[i as int] == names[i as int]@);
        if text::strip_prefix(names[i].as_str(), "f_rest_").is_some() {
            let ghost before = text::texts(out@);
            out.push(names[i].clone());
            proof {
                assert(text::texts(out@) =~= before.push(names[i as int]@));
            }
        }
        i = i + 1;
    }
    out
}

/// Properties named `a` or `b`.
pub open spec fn named_either(
    names: Seq<Seq<char>>,
    a: Seq<char>,
    b: Seq<char>,
) -> spec_fn(int) -> bool {
    |i: int| names[i] == a || names[i] == b
}

/// Number of properties named `a` or `b`.
pub open spec fn count_either(names: Seq<Seq<char>>, a: Seq<char>, b: Seq<char>) -> int {
    counting::count_where(named_either(names, a, b), 0, names.len() as int)
}

fn count_named(names: &Vec<String>, a: &str, b: &str) -> (count: usize)
    ensures
        count == count_either(text::texts(names@), a@, b@),
{
    let ghost all = text::texts(names@);
    let mut count: usize = 0;
    let mut i: usize = 0;
    while i < names.len()
        invariant
            i <= names.len(),
            all == text::texts(names@),
            count <= i,
            count == counting::count_where(named_either(all, a@, b@), 0, i as int),
        decreases names.len() - i,
    {
        assert(all[i as int] == names[i as int]@);
        if text::same_text(names[i].as_str(), a) || text::same_text(names[i].as_str(), b) {
            count = count + 1;
        }
        i = i + 1;
    }
    count
}

/// Number of base color properties.
pub open spec fn dc_count(names: Seq<Seq<char>>) -> int {
    count_either(names, "f_dc_0"@, "f_dc_0"@) + count_either(names, "f_dc_1"@, "f_dc_1"@)
        + count_either(names, "f_dc_2"@, "f_dc_2"@)
}

pub open spec fn red_count(names: Seq<Seq<char>>) -> int {
    count_either(names, "r"@, "red"@)
}

pub open spec fn green_count(names: Seq<Seq<char>>) -> int {
    count_either(names, "g"@, "green"@)
}

pub open spec fn blue_count(names: Seq<Seq<char>>) -> int {
    count_either(names, "b"@, "blue"@)
}

/// Exactly one property per color channel.
pub open spec fn has_rgb(names: Seq<Seq<char>>) -> bool {
    red_count(names) == 1 && green_count(names) == 1 && blue_count(names) == 1
}

/// The rest coefficients of an element.
pub open spec fn all_rest_names(names: Seq<Seq<char>>) -> Seq<Seq<char>> {
    rest_names(names, names.len() as int)
}

/// What is wrong with the colors of a vertex, if anything.
pub open spec fn color_error(names: Seq<Seq<char>>) -> Option<Seq<char>> {
    if let Some(e) = rest_error(all_rest_names(names)) {
        Some(e)
    } else if dc_count(names) != 0 && dc_count(names) != 3 {
        Some("PLY SH colors require f_dc_0, f_dc_1, and f_dc_2"@)
    } else if (red_count(names) != 0 || green_count(names) != 0 || blue_count(names) != 0)
        && !has_rgb(names) {
        Some("PLY RGB colors require exactly one red, green, and blue property"@)
    } else if all_rest_names(names).len() > 0 && dc_count(names) != 3 && !has_rgb(names) {
        Some("PLY SH rest properties require a complete DC or RGB color"@)
    } else {
        None
    }
}

/// Values per splat in the color row that a vertex gives.
pub open spec fn color_values(names: Seq<Seq<char>>) -> int {
    if dc_count(names) == 3 || has_rgb(names) {
        all_rest_names(names).len() as int + 3
    } else {
        0
    }
}

/// How the rows of a plain file are read.
#[derive(Clone, Copy, Debug, PartialEq, Eq, Structural)]
pub struct PlyPlan {
    pub is_ascii: bool,
    pub total_splats: usize,
    pub max_splats: usize,
    pub subsample: usize,
    pub sh_count: usize,
    pub has_rotations: bool,
    pub has_scales: bool,
    pub has_opacities: bool,
}

/// A property of that name exists.
pub open spec fn has_property(names: Seq<Seq<char>>, name: Seq<char>) -> bool {
    names.contains(name)
}

fn property_exists(names: &Vec<String>, name: &str) -> (r: bool)
    ensures
        r == has_property(text::texts(names@), name@),
{
    let ghost all = text::texts(names@);
    let mut i: usize = 0;
    while i < names.len()
        invariant
            i <= names.len(),
            all == text::texts(names@),
            forall|k: int| 0 <= k < i ==> #[trigger] all[k] != name@,
        decreases names.len() - i,
    {
        assert(all[i as int] == names[i as int]@);
        if text::same_text(names[i].as_str(), name) {
            return true;
        }
        i = i + 1;
    }
    false
}

/// What a plain file fails with before its rows are read, if it fails.
pub open spec fn plan_error(h: HeaderView) -> Option<Seq<char>> {
    match element_from(h, "vertex"@, 0) {
        None => Some("Unknown format"@),
        Some(v) => if h.elements[v].count == 0 {
            Some("PLY contains no vertices"@)
        } else {
            color_error(h.elements[v].properties)
        },
    }
}

/// The plan for a plain file.
pub open spec fn is_plan(h: HeaderView, subsample: int, p: PlyPlan) -> bool {
    let vertex = h.elements[element_from(h, "vertex"@, 0)->0];
    &&& p.is_ascii == (h.encoding == PlyEncoding::Ascii)
    &&& p.total_splats == vertex.count
    &&& p.max_splats == splat_data::kept_rows(vertex.count, subsample)
    &&& p.subsample == subsample
    &&& p.sh_count == color_values(vertex.properties)
    &&& p.has_rotations == has_property(vertex.properties, "rot_0"@)
    &&& p.has_scales == has_property(vertex.properties, "scale_0"@)
    &&& p.has_opacities == has_property(vertex.properties, "opacity"@)
}

pub(crate) fn rows_kept(rows: usize, step: usize) -> (n: usize)
    requires
        step > 0,
    ensures
        n == splat_data::kept_rows(rows as int, step as int),
{
    proof {
        splat_data::lemma_div_ceil(rows as int, step as int);
        vstd::arithmetic::div_mod::lemma_fundamental_div_mod(rows as int, step as int);
        let q = rows as int / step as int;
        let m = rows as int % step as int;
        assert(m >= 1 ==> q + 1 <= rows) by (nonlinear_arith)
            requires
                rows == step * q + m,
                step >= 1,
                q >= 0,
        ;
    }
    rows / step + if rows % step != 0 {
        1usize
    } else {
        0usize
    }
}

/// Plans how the rows of a plain file are read.
pub fn plan_ply(header: &PlyHeader, subsample: usize) -> (r: Result<PlyPlan, String>)
    requires
        subsample > 0,
    ensures
        match r {
            Err(e) => plan_error(header@) == Some(e@),
            Ok(p) => plan_error(header@) is None && is_plan(header@, subsample as int, p),
        },
{
    let v: usize = match find_element(header, "vertex") {
        None => {
            return Err(String::from_str("Unknown format"));
        },
        Some(v) => v,
    };
    let vertex: &ElementDef = &header.elements[v];
    let ghost names = text::texts(vertex.properties@);
    assert(header@.elements[v as int] == vertex@);
    let total_splats: usize = vertex.count;
    let max_splats: usize = rows_kept(total_splats, subsample);
    if total_splats == 0 {
        return Err(String::from_str("PLY contains no vertices"));
    }
    let rest: Vec<String> = rest_names_of(&vertex.properties);
    let rest_count: usize = match validate_sh_rest_properties(&rest) {
        Err(e) => {
            return Err(e);
        },
        Ok(n) => n,
    };
    proof {
        assert(text::texts(rest@) == all_rest_names(names));
        assert(rest_count == all_rest_names(names).len());
    }
    let dc0: usize = count_named(&vertex.properties, "f_dc_0", "f_dc_0");
    let dc1: usize = count_named(&vertex.properties, "f_dc_1", "f_dc_1");
    let dc2: usize = count_named(&vertex.properties, "f_dc_2", "f_dc_2");
    let dc: u128 = dc0 as u128 + dc1 as u128 + dc2 as u128;
    let red: usize = count_named(&vertex.properties, "r", "red");
    let green: usize = count_named(&vertex.properties, "g", "green");
    let blue: usize = count_named(&vertex.properties, "b", "blue");
    let rgb: bool = red == 1 && green == 1 && blue == 1;
    if dc != 0 && dc != 3 {
        return Err(String::from_str("PLY SH colors require f_dc_0, f_dc_1, and f_dc_2"));
    }
    if (red != 0 || green != 0 || blue != 0) && !rgb {
        return Err(
            String::from_str("PLY RGB colors require exactly one red, green, and blue property"),
        );
    }
    let has_color: bool = dc == 3 || rgb;
    if rest_count > 0 && !has_color {
        return Err(String::from_str("PLY SH rest properties require a complete DC or RGB color"));
    }
    let sh_count: usize = if has_color {
        rest_count + 3
    } else {
        0
    };
    Ok(
        PlyPlan {
            is_ascii: match header.encoding {
                PlyEncoding::Ascii => true,
                PlyEncoding::BinaryLittleEndian => false,
                PlyEncoding::BinaryBigEndian => false,
            },
            total_splats,
            max_splats,
            subsample,
            sh_count,
            has_rotations: property_exists(&vertex.properties, "rot_0"),
            has_scales: property_exists(&vertex.properties, "scale_0"),
            has_opacities: property_exists(&vertex.properties, "opacity"),
        },
    )
}

/// What the header of a file settles before its rows are read.
pub struct PlyPrelude {
    pub header: PlyHeader,
    pub format: PlyFormat,
    pub render_mode: Option<SplatRenderMode>,
    /// What each comment says about the vertical axis.
    pub axes: Vec<AxisComment<String>>,
}

/// What a header settles.
pub open spec fn is_prelude(h: HeaderView, p: PlyPrelude) -> bool {
    &&& p.header@ == h
    &&& format_of(h) == Some(p.format)
    &&& p.render_mode == last_mode(h.comments, h.comments.len() as int)
    &&& p.axes.len() == h.comments.len()
    &&& forall|i: int|
        0 <= i < p.axes.len() ==> is_axis_of(
            text::lowercased(h.comments[i]),
            #[trigger] p.axes[i],
        )
}

/// Reads what a header settles. Fails where the file has no vertices.
pub fn prelude_of(header: PlyHeader) -> (r: Result<PlyPrelude, String>)
    ensures
        match r {
            Err(e) => format_of(header@) is None && e@ == "Unknown format"@,
            Ok(p) => is_prelude(header@, p),
        },
{
    let mut axes: Vec<AxisComment<String>> = Vec::new();
    let ghost comments = text::texts(header.comments@);
    let mut i: usize = 0;
    while i < header.comments.len()
        invariant
            i <= header.comments.len(),
            comments == text::texts(header.comments@),
            axes.len() == i,
            forall|k: int|
                0 <= k < i ==> is_axis_of(text::lowercased(comments[k]), #[trigger] axes[k]),
        decreases header.comments.len() - i,
    {
        assert(comments[i as int] == header.comments[i as int]@);
        axes.push(axis_of_comment(header.comments[i].as_str()));
        i = i + 1;
    }
    let render_mode: Option<SplatRenderMode> = render_mode_of(&header.comments);
    match ply_format(&header) {
        None => Err(String::from_str("Unknown format")),
        Some(format) => Ok(PlyPrelude { header, format, render_mode, axes }),
    }
}

/// Starts an import from the first `bytes_read` bytes of a file, which stand in
/// `buffer`.
pub fn begin_import(buffer: &Vec<u8>, bytes_read: usize) -> (r: Result<PlyPrelude, String>)
    ensures
        match r {
            Ok(p) => bytes_read > 0 && buffered_header(buffer@) is Some && is_prelude(
                buffered_header(buffer@)->0,
                p,
            ),
            Err(e) => if bytes_read == 0 {
                e@ == "Unexpected EOF while reading PLY data"@
            } else {
                match buffered_header(buffer@) {
                    None => e@ == "missing PLY header"@,
                    Some(h) => format_of(h) is None && e@ == "Unknown format"@,
                }
            },
        },
{
    if bytes_read == 0 {
        return Err(unexpected_eof());
    }
    match ply_header(buffer) {
        None => Err(String::from_str("missing PLY header")),
        Some(header) => prelude_of(header),
    }
}

/// The error of a file that ends before its rows do.
pub fn unexpected_eof() -> (e: String)
    ensures
        e@ == "Unexpected EOF while reading PLY data"@,
{
    String::from_str("Unexpected EOF while reading PLY data")
}

/// A file that passes the format check has vertices to plan for: planning
/// fails only for what is wrong with them.
pub proof fn known_format_has_a_vertex_element(h: HeaderView)
    requires
        format_of(h) is Some,
    ensures
        element_from(h, "vertex"@, 0) is Some,
{
    let i = choose|i: int| 0 <= i < h.elements.len() && (#[trigger] h.elements[i]).name
        == "vertex"@;
    lemma_element_found(h, "vertex"@, 0, i);
}

proof fn lemma_element_found(h: HeaderView, name: Seq<char>, from: int, i: int)
    requires
        0 <= from <= i < h.elements.len(),
        h.elements[i].name == name,
    ensures
        element_from(h, name, from) is Some,
    decreases i - from,
{
    if from < i {
        lemma_element_found(h, name, from + 1, i);
    }
}

/// Files hold the three channels of every coefficient beyond the first, for the
/// degrees up to four.
pub proof fn rest_counts_are_of_degrees(n: int)
    ensures
        is_rest_count(n) <==> exists|degree: int|
            0 <= degree <= 4 && n == 3 * (#[trigger] sh::coeffs_of_degree(degree) - 1),
{
    sh::bands_add_coefficients(0);
    sh::bands_add_coefficients(1);
    sh::bands_add_coefficients(2);
    sh::bands_add_coefficients(3);
    if is_rest_count(n) {
        let degree: int = if n == 0 {
            0
        } else if n == 9 {
            1
        } else if n == 24 {
            2
        } else if n == 45 {
            3
        } else {
            4
        };
        assert(n == 3 * (sh::coeffs_of_degree(degree) - 1));
    }
}

/// A rest coefficient carries the index that its name ends with.
pub proof fn rest_names_carry_their_index(k: int)
    requires
        0 <= k,
    ensures
        rest_index("f_rest_"@ + text::decimal_text(k)) == (if k <= usize::MAX {
            Some(k)
        } else {
            None
        }),
{
    let name = "f_rest_"@ + text::decimal_text(k);
    assert("f_rest_"@.is_prefix_of(name)) by {
        assert(name.subrange(0, "f_rest_"@.len() as int) =~= "f_rest_"@);
    }
    assert(name.skip("f_rest_"@.len() as int) =~= text::decimal_text(k));
    text::decimal_texts_are_read_back(k, usize::MAX as int);
}

/// A vertex whose colors are sound has none, or the three channels of all
/// coefficients up to a degree.
pub proof fn sound_colors_are_of_a_degree(names: Seq<Seq<char>>)
    requires
        color_error(names) is None,
    ensures
        color_values(names) == 0 || exists|degree: int|
            0 <= degree <= 4 && color_values(names) == 3 * #[trigger] sh::coeffs_of_degree(degree),
{
    let n = all_rest_names(names).len() as int;
    assert(is_rest_count(n));
    rest_counts_are_of_degrees(n);
    let degree = choose|degree: int|
        0 <= degree <= 4 && n == 3 * (#[trigger] sh::coeffs_of_degree(degree) - 1);
    assert(n + 3 == 3 * sh::coeffs_of_degree(degree));
}

/// The last comment that settles an axis has its way.
pub proof fn later_axes_win<T>(axes: Seq<AxisComment<T>>, k: int, i: int)
    requires
        0 <= i < k <= axes.len(),
        settled_axis(axes[i]) is Some,
        forall|j: int| i < j < k ==> settled_axis(#[trigger] axes[j]) is None,
    ensures
        last_axis(axes, k) == settled_axis(axes[i]),
    decreases k,
{
    if i < k - 1 {
        later_axes_win(axes, k - 1, i);
    }
}

/// The last comment that names a render mode has its way.
pub proof fn later_modes_win(comments: Seq<Seq<char>>, k: int, i: int)
    requires
        0 <= i < k <= comments.len(),
        mode_in(text::lowercased(comments[i])) is Some,
        forall|j: int| i < j < k ==> mode_in(text::lowercased(#[trigger] comments[j])) is None,
    ensures
        last_mode(comments, k) == mode_in(text::lowercased(comments[i])),
    decreases k,
{
    if i < k - 1 {
        later_modes_win(comments, k - 1, i);
    }
}

/// The rest coefficients of an element are the properties that are named like
/// one, and no others.
pub proof fn rest_names_are_picked_out(names: Seq<Seq<char>>, k: int, name: Seq<char>)
    requires
        0 <= k <= names.len(),
    ensures
        rest_names(names, k).contains(name) <==> "f_rest_"@.is_prefix_of(name) && exists|i: int|
            0 <= i < k && #[trigger] names[i] == name,
    decreases k,
{
    if k > 0 {
        rest_names_are_picked_out(names, k - 1, name);
        let before = rest_names(names, k - 1);
        let last = names[k - 1];
        if "f_rest_"@.is_prefix_of(last) {
            let all = before.push(last);
            if before.contains(name) {
                let j = choose|j: int| 0 <= j < before.len() && before[j] == name;
                assert(all[j] == name);
            }
            assert(all[before.len() as int] == last);
            if all.contains(name) && name != last {
                let j = choose|j: int| 0 <= j < all.len() && all[j] == name;
                assert(before[j] == name);
            }
        }
    }
}

} // verus!
