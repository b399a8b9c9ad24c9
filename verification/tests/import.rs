//! Import of splat files: headers, plans, rows, and whole files read through
//! the row parser.

use std::collections::HashMap;

use brush::gaussian_splats::SplatRenderMode;
use brush::import::{
    axis_of_comment, begin_import, ply_format, plan_ply, prelude_of, render_mode_of,
    unexpected_eof, up_axis_of, validate_sh_rest_properties, AxisComment, ElementDef, PlyEncoding,
    PlyFormat, PlyHeader, UpAxis,
};
use brush::ply_stream::{
    after_chunk, after_element_chunk, after_rows, compressed_step, last_message,
    needs_final_newline, plan_compressed, progress, should_update, subsample_stride, AfterChunk,
    CompressedImport, CompressedRow, CompressedStep, Element, PlyImport, PlyRow, Progress, Stage,
};
use brush::splat_data::{interleave_coeffs, SplatData, SplatDefaults};

fn texts(values: &[&str]) -> Vec<String> {
    values.iter().map(|v| v.to_string()).collect()
}

fn element(name: &str, count: usize, properties: &[&str]) -> ElementDef {
    ElementDef { name: name.to_string(), count, properties: texts(properties) }
}

fn header(elements: Vec<ElementDef>, comments: &[&str]) -> PlyHeader {
    PlyHeader { encoding: PlyEncoding::Ascii, elements, comments: texts(comments) }
}

/// The result of reading a whole file.
struct Loaded {
    data: SplatData<f32>,
    total_splats: u32,
    progress: f32,
}

fn fraction(p: Progress) -> f32 {
    p.completed as f32 / p.len as f32
}

fn value(row: &HashMap<String, f32>, name: &str) -> f32 {
    row.get(name).copied().unwrap_or(0.0)
}

fn plain_row(row: &HashMap<String, f32>) -> PlyRow<f32> {
    let rest = (0..72).map(|i| value(row, &format!("f_rest_{i}"))).collect();
    PlyRow {
        mean: (value(row, "x"), value(row, "y"), value(row, "z")),
        rotation: (value(row, "rot_0"), value(row, "rot_1"), value(row, "rot_2"), value(row, "rot_3")),
        log_scale: (value(row, "scale_0"), value(row, "scale_1"), value(row, "scale_2")),
        opacity: value(row, "opacity"),
        dc: (value(row, "f_dc_0"), value(row, "f_dc_1"), value(row, "f_dc_2")),
        rgb: (row.get("red").copied(), row.get("green").copied(), row.get("blue").copied()),
        rest,
    }
}

fn load_plain(
    mut file: serde_ply::PlyChunkedReader,
    header: &PlyHeader,
    subsample: usize,
) -> Result<Vec<Loaded>, String> {
    let plan = plan_ply(header, subsample)?;
    let mut import = PlyImport::new(plan);
    let mut messages = Vec::new();
    loop {
        let bytes_read = 0;
        let last = file.buffer_mut().last().copied();
        if needs_final_newline(bytes_read, plan.is_ascii, last) {
            file.buffer_mut().push(b'\n');
        }
        let rows: Vec<HashMap<String, f32>> = file.next_chunk().map_err(|e| e.to_string())?;
        for row in &rows {
            import.push_row(&plain_row(row));
        }
        let step = import.after_chunk(bytes_read, false);
        if step.emit {
            messages.push(Loaded {
                data: import.data(),
                total_splats: plan.max_splats as u32,
                progress: fraction(progress(import.row_index, plan.total_splats)),
            });
        }
        match step.next {
            AfterChunk::Done => return Ok(messages),
            AfterChunk::UnexpectedEof => return Err(unexpected_eof()),
            AfterChunk::ReadMore => {}
        }
    }
}

fn element_at(file: &mut serde_ply::PlyChunkedReader) -> (Element, usize) {
    match file.current_element() {
        Some(e) if e.name == "chunk" => (Element::Chunk, e.count),
        Some(e) if e.name == "vertex" => (Element::Vertex, e.count),
        Some(e) if e.name == "sh" => (Element::Sh, e.count),
        Some(e) => (Element::Other, e.count),
        None => (Element::Other, 0),
    }
}

fn load_compressed(
    mut file: serde_ply::PlyChunkedReader,
    header: &PlyHeader,
    subsample: usize,
) -> Result<Vec<Loaded>, String> {
    let mut bounds: Vec<HashMap<String, f32>> = Vec::new();
    let mut import: Option<CompressedImport<f32>> = None;
    let mut messages = Vec::new();
    let mut stage = Stage::Bounds;
    loop {
        let (at, count) = element_at(&mut file);
        let rest = import.as_ref().and_then(|i| i.plan.sh_rest);
        let (next, step) = compressed_step(stage, at, count, rest.is_some());
        stage = next;
        match step {
            CompressedStep::TakeRows { .. } => {}
            CompressedStep::Plan => {
                import = Some(CompressedImport::new(plan_compressed(header, bounds.len(), subsample)?));
                continue;
            }
            CompressedStep::HandOutAll => {
                let data = import.take().unwrap().full_data();
                let total_splats = data.num_splats() as u32;
                messages.push(Loaded { data, total_splats, progress: 1.0 });
                continue;
            }
            CompressedStep::Finish => return Ok(messages),
        }
        match (&mut import, stage) {
            (Some(import), Stage::Splats) => {
                let rows: Vec<HashMap<String, u32>> = file.next_chunk().map_err(|e| e.to_string())?;
                for row in &rows {
                    let chunk = &bounds[import.next_chunk()];
                    let packed = row["packed_position"] as f32;
                    import.push_splat(&CompressedRow {
                        mean: (value(chunk, "min_x") + packed, 0.0, 0.0),
                        log_scale: (0.0, 0.0, 0.0),
                        rotation: (1.0, 0.0, 0.0, 0.0),
                        raw_opacity: 0.0,
                        dc: (0.25, 0.5, 0.75),
                    });
                }
                if import.emit_after_chunk(false) {
                    messages.push(Loaded {
                        data: import.base_data(),
                        total_splats: import.plan.max_splats as u32,
                        progress: fraction(progress(import.row_index, import.plan.total_splats))
                            * if import.plan.sh_rest.is_some() { 0.8 } else { 1.0 },
                    });
                }
            }
            (Some(import), _) => {
                let rows: Vec<HashMap<String, u8>> = file.next_chunk().map_err(|e| e.to_string())?;
                for row in &rows {
                    let count = rest.unwrap();
                    import.push_sh(&(0..count).map(|i| row[&format!("f_rest_{i}")] as f32).collect());
                }
            }
            (None, _) => {
                let rows: Vec<HashMap<String, f32>> = file.next_chunk().map_err(|e| e.to_string())?;
                bounds.extend(rows);
            }
        }
        let (at, _) = element_at(&mut file);
        if after_rows(stage, 0, at) == AfterChunk::UnexpectedEof {
            return Err(unexpected_eof());
        }
    }
}

/// Reads a file whose bytes are all there at the first read.
fn stream(data: &[u8], subsample_points: Option<u32>) -> Result<Vec<Loaded>, String> {
    let subsample = subsample_stride(subsample_points)?;
    let prelude = begin_import(&data.to_vec(), data.len())?;
    let mut file = serde_ply::PlyChunkedReader::new();
    file.buffer_mut().extend_from_slice(data);
    match prelude.format {
        PlyFormat::Ply => load_plain(file, &prelude.header, subsample),
        PlyFormat::SuperSplatCompressed => load_compressed(file, &prelude.header, subsample),
    }
}

fn load(data: &[u8], subsample_points: Option<u32>) -> Result<Loaded, String> {
    last_message(stream(data, subsample_points)?.pop())
}

fn truncated_binary_ply() -> Vec<u8> {
    let mut data = b"ply\nformat binary_little_endian 1.0\nelement vertex 2\nproperty float x\nproperty float y\nproperty float z\nend_header\n".to_vec();
    for value in [1.0_f32, 2.0, 3.0] {
        data.extend_from_slice(&value.to_le_bytes());
    }
    // Only the first property of the second vertex is present.
    data.extend_from_slice(&4.0_f32.to_le_bytes());
    data
}

fn ascii_ply(vertex_count: usize, rows: &str) -> Vec<u8> {
    format!(
        "ply\nformat ascii 1.0\nelement vertex {vertex_count}\nproperty float x\nproperty float y\nproperty float z\nend_header\n{rows}"
    )
    .into_bytes()
}

fn ascii_ply_with_properties(properties: &[String]) -> Vec<u8> {
    let mut data = b"ply\nformat ascii 1.0\nelement vertex 1\nproperty float x\nproperty float y\nproperty float z\n".to_vec();
    for property in properties {
        data.extend_from_slice(format!("property float {property}\n").as_bytes());
    }
    data.extend_from_slice(b"end_header\n");
    data
}

fn compressed_ply_header(chunk_count: usize, vertex_count: usize, sh: Option<(usize, usize)>) -> Vec<u8> {
    let mut header = format!("ply\nformat binary_little_endian 1.0\nelement chunk {chunk_count}\n");
    for name in [
        "min_x", "max_x", "min_y", "max_y", "min_z", "max_z", "min_scale_x", "max_scale_x",
        "min_scale_y", "max_scale_y", "min_scale_z", "max_scale_z", "min_r", "max_r", "min_g",
        "max_g", "min_b", "max_b",
    ] {
        header.push_str(&format!("property float {name}\n"));
    }
    header.push_str(&format!("element vertex {vertex_count}\n"));
    for name in ["packed_position", "packed_scale", "packed_rotation", "packed_color"] {
        header.push_str(&format!("property uint {name}\n"));
    }
    if let Some((sh_count, property_count)) = sh {
        header.push_str(&format!("element sh {sh_count}\n"));
        for index in 0..property_count {
            header.push_str(&format!("property uchar f_rest_{index}\n"));
        }
    }
    header.push_str("end_header\n");
    header.into_bytes()
}

const CHUNK_BYTES: usize = 18 * 4;
const VERTEX_BYTES: usize = 4 * 4;

fn with_zeros(mut data: Vec<u8>, zeros: usize) -> Vec<u8> {
    data.extend(std::iter::repeat(0u8).take(zeros));
    data
}

fn truncated_compressed_sh_ply() -> Vec<u8> {
    with_zeros(compressed_ply_header(1, 1, Some((1, 9))), CHUNK_BYTES + VERTEX_BYTES)
}

#[test]
fn test_truncated_ply_returns_error() {
    let error = stream(&truncated_binary_ply(), None).err().unwrap();
    assert!(error.contains("Unexpected EOF"));
}

#[test]
fn test_partial_ascii_token_returns_error() {
    assert!(stream(&ascii_ply(1, "1.0 2.0 3e"), None).is_err());
}

#[test]
fn test_truncated_compressed_chunk_returns_error() {
    let error = stream(&with_zeros(compressed_ply_header(1, 1, None), 4), None).err().unwrap();
    assert!(error.contains("Unexpected EOF"));
}

#[test]
fn test_truncated_compressed_vertex_returns_error() {
    let data = with_zeros(compressed_ply_header(1, 1, None), CHUNK_BYTES + 4);
    let error = stream(&data, None).err().unwrap();
    assert!(error.contains("Unexpected EOF"));
}

#[test]
fn test_truncated_compressed_sh_returns_error() {
    let error = stream(&truncated_compressed_sh_ply(), None).err().unwrap();
    assert!(error.contains("Unexpected EOF"));
}

#[test]
fn test_one_shot_compressed_import_drains_to_final_message() {
    let mut data = truncated_compressed_sh_ply();
    data.extend_from_slice(&[0, 32, 64, 96, 127, 160, 192, 224, 255]);
    let imported = load(&data, None).expect("complete compressed PLY should load");
    assert_eq!(imported.progress, 1.0);
    let coeffs = imported.data.sh_coeffs.expect("SH coefficients");
    assert_eq!(coeffs.len(), 12);
    assert_eq!(coeffs, vec![0.25, 0.5, 0.75, 0., 96., 192., 32., 127., 224., 64., 160., 255.]);
    assert_eq!(stream(&data, None).unwrap().len(), 2);
}

#[test]
fn test_one_shot_compressed_import_reports_truncated_sh() {
    let error = load(&truncated_compressed_sh_ply(), None).err().expect("truncated SH payload should fail");
    assert!(error.contains("Unexpected EOF"));
}

#[test]
fn test_compressed_import_rejects_missing_chunk_metadata() {
    let data = with_zeros(compressed_ply_header(0, 1, None), VERTEX_BYTES);
    let error = load(&data, None).err().expect("missing chunk metadata should fail");
    assert!(error.contains("chunk rows"));
    assert_eq!(error, "Compressed PLY has 0 chunk rows but needs at least 1 for 1 vertices");
}

#[test]
fn test_import_rejects_zero_subsample() {
    let error = load(&ascii_ply(1, "1.0 2.0 3.0"), Some(0)).err().expect("zero subsample should fail");
    assert!(error.contains("greater than zero"));
}

#[test]
fn test_regular_subsample_larger_than_input_keeps_first_row() {
    let imported = load(&ascii_ply(1, "1.0 2.0 3.0"), Some(2))
        .expect("first regular row should survive strided subsampling");
    assert_eq!(imported.data.means, vec![1.0, 2.0, 3.0]);
    assert_eq!(imported.total_splats, 1);
}

#[test]
fn test_compressed_subsample_larger_than_input_keeps_first_row() {
    let data = with_zeros(compressed_ply_header(1, 1, None), CHUNK_BYTES + VERTEX_BYTES);
    let imported = load(&data, Some(2)).expect("first compressed row should survive strided subsampling");
    assert_eq!(imported.data.num_splats(), 1);
    assert_eq!(imported.total_splats, 1);
}

#[test]
fn every_list_of_a_plain_file_keeps_every_third_row() {
    let names = [
        "x", "y", "z", "rot_0", "rot_1", "rot_2", "rot_3", "scale_0", "scale_1", "scale_2", "opacity", "f_dc_0",
        "f_dc_1", "f_dc_2",
    ];
    let mut text = "ply\nformat ascii 1.0\nelement vertex 7\n".to_string();
    for name in names {
        text.push_str(&format!("property float {name}\n"));
    }
    text.push_str("end_header\n");
    for row in 0..7 {
        for column in 0..names.len() {
            text.push_str(&format!("{} ", 100 * row + column));
        }
        text.push('\n');
    }
    let imported = load(text.as_bytes(), Some(3)).expect("a complete file should load").data;
    let kept = |first: usize, count: usize| -> Vec<f32> {
        [0, 3, 6].iter().flat_map(|row| (0..count).map(move |i| (100 * row + first + i) as f32)).collect()
    };
    assert_eq!(imported.means, kept(0, 3));
    assert_eq!(imported.rotations, Some(kept(3, 4)));
    assert_eq!(imported.log_scales, Some(kept(7, 3)));
    assert_eq!(imported.raw_opacities, Some(kept(10, 1)));
    assert_eq!(imported.sh_coeffs, Some(kept(11, 3)));
}

#[test]
fn every_list_of_a_compressed_file_keeps_every_second_row() {
    let mut data = with_zeros(compressed_ply_header(1, 3, Some((3, 9))), CHUNK_BYTES);
    for row in 0..3u32 {
        data.extend_from_slice(&(10 * row).to_le_bytes());
        data.extend_from_slice(&[0; 12]);
    }
    for row in 0..3u8 {
        data.extend((0..9u8).map(|i| 20 * row + i));
    }
    let imported = load(&data, Some(2)).expect("a complete file should load").data;
    assert_eq!(imported.means, vec![0.0, 0.0, 0.0, 20.0, 0.0, 0.0]);
    assert_eq!(imported.rotations.map(|r| r.len()), Some(8));
    assert_eq!(imported.log_scales.map(|s| s.len()), Some(6));
    assert_eq!(imported.raw_opacities.map(|o| o.len()), Some(2));
    let coeffs = imported.sh_coeffs.expect("a file with coefficients");
    assert_eq!(coeffs[..12], [0.25, 0.5, 0.75, 0.0, 3.0, 6.0, 1.0, 4.0, 7.0, 2.0, 5.0, 8.0]);
    assert_eq!(coeffs[12..], [0.25, 0.5, 0.75, 40.0, 43.0, 46.0, 41.0, 44.0, 47.0, 42.0, 45.0, 48.0]);
}

#[test]
fn test_regular_import_rejects_partial_rgb() {
    let error = load(&ascii_ply_with_properties(&["red".to_owned()]), None)
        .err()
        .expect("partial RGB schema should fail");
    assert!(error.contains("exactly one red, green, and blue"));
}

#[test]
fn test_regular_import_rejects_oversized_sh_schema() {
    let mut properties = vec!["f_dc_0".to_owned(), "f_dc_1".to_owned(), "f_dc_2".to_owned()];
    properties.extend((0..75).map(|index| format!("f_rest_{index}")));
    let error = load(&ascii_ply_with_properties(&properties), None)
        .err()
        .expect("oversized SH schema should fail");
    assert!(error.contains("Unsupported SH rest property count"));
}

#[test]
fn test_compressed_import_rejects_oversized_sh_schema() {
    let data = with_zeros(compressed_ply_header(1, 1, Some((1, 75))), CHUNK_BYTES);
    let error = load(&data, None).err().expect("oversized compressed SH schema should fail");
    assert!(error.contains("Unsupported SH rest property count"));
}

#[test]
fn test_ascii_ply_accepts_final_token_without_newline() {
    let imported = load(&ascii_ply(1, "1.0 2.0 3.0"), None).expect("complete final ASCII token should load");
    assert_eq!(imported.data.means, vec![1.0, 2.0, 3.0]);
    assert_eq!(imported.progress, 1.0);
}

#[test]
fn test_zero_row_regular_ply_returns_error() {
    let error = load(&ascii_ply(0, ""), None).err().expect("zero-row PLY should fail");
    assert!(error.contains("no vertices"));
}

#[test]
fn test_zero_row_compressed_ply_returns_error() {
    let error = load(&compressed_ply_header(0, 0, None), None)
        .err()
        .expect("zero-row compressed PLY should fail");
    assert!(error.contains("no vertices"));
}

#[test]
fn test_splat_data_subsample() {
    let n = 10;
    // Per-splat value == splat index, so we can check which rows survived.
    let make = |stride: usize| -> Vec<f32> {
        (0..n).flat_map(|i| std::iter::repeat(i as f32).take(stride)).collect()
    };
    let data = SplatData {
        means: make(3),
        rotations: Some(make(4)),
        log_scales: Some(make(3)),
        sh_coeffs: Some(make(6)),
        raw_opacities: Some(make(1)),
    };

    // Within budget: untouched.
    let same = data.clone().subsample(10);
    assert_eq!(same.num_splats(), 10);
    let same = data.clone().subsample(0);
    assert_eq!(same.num_splats(), 10);

    // step = ceil(10 / 3) = 4 -> rows 0, 4, 8 survive.
    let sub = data.subsample(3);
    assert_eq!(sub.num_splats(), 3);
    assert!(sub.num_splats() <= 3);
    assert_eq!(sub.means, vec![0., 0., 0., 4., 4., 4., 8., 8., 8.]);
    assert_eq!(sub.rotations.unwrap(), vec![0., 0., 0., 0., 4., 4., 4., 4., 8., 8., 8., 8.]);
    assert_eq!(sub.log_scales.unwrap(), vec![0., 0., 0., 4., 4., 4., 8., 8., 8.]);
    let sh = sub.sh_coeffs.unwrap();
    assert_eq!(sh.len(), 3 * 6);
    assert_eq!(&sh[0..6], &[0., 0., 0., 0., 0., 0.]);
    assert_eq!(&sh[6..12], &[4., 4., 4., 4., 4., 4.]);
    assert_eq!(sub.raw_opacities.unwrap(), vec![0., 4., 8.]);
}

#[test]
fn axis_comments_are_read_in_any_case() {
    assert!(matches!(axis_of_comment("Vertical Axis: X"), AxisComment::X));
    assert!(matches!(axis_of_comment("vertical axis:  y \t"), AxisComment::NegY));
    assert!(matches!(axis_of_comment("VERTICAL AXIS: z"), AxisComment::NegZ));
    assert!(matches!(axis_of_comment("axis: z"), AxisComment::Silent));
    match axis_of_comment("Vertical axis: [0.5, -1E3 2]") {
        AxisComment::Parts(parts) => assert_eq!(parts, texts(&["0.5", "-1e3", "2"])),
        other => panic!("unexpected {other:?}"),
    }
}

#[test]
fn last_axis_comment_that_says_something_wins() {
    let axes: Vec<AxisComment<i32>> = vec![
        AxisComment::X,
        AxisComment::Parts(vec![1, 2, 3]),
        AxisComment::Parts(vec![1, 2]),
        AxisComment::Silent,
    ];
    assert_eq!(up_axis_of(&axes), Some(UpAxis::Custom(1, 2, 3)));
    assert_eq!(up_axis_of::<i32>(&vec![AxisComment::Silent]), None);
    assert_eq!(up_axis_of::<i32>(&vec![AxisComment::NegY, AxisComment::NegZ]), Some(UpAxis::NegZ));
}

#[test]
fn render_mode_comments_are_read_in_any_case() {
    let of = |c: &[&str]| render_mode_of(&texts(c));
    assert!(matches!(of(&["SplatRenderMode: Mip"]), Some(SplatRenderMode::Mip)));
    assert!(matches!(of(&["splatrendermode: mip", "SPLATRENDERMODE: default "]), Some(SplatRenderMode::Default)));
    assert!(of(&["splatrendermode: other", "mip"]).is_none());
}

#[test]
fn begin_import_reports_each_failure() {
    assert_eq!(begin_import(&Vec::new(), 0).err().unwrap(), "Unexpected EOF while reading PLY data");
    assert_eq!(begin_import(&b"ply\nformat".to_vec(), 10).err().unwrap(), "missing PLY header");
    let faces = b"ply\nformat ascii 1.0\nelement face 1\nproperty float x\nend_header\n".to_vec();
    assert_eq!(begin_import(&faces, faces.len()).err().unwrap(), "Unknown format");
}

#[test]
fn begin_import_reads_the_header() {
    let data = b"ply\nformat binary_big_endian 1.0\ncomment Vertical axis: y\ncomment SplatRenderMode: mip\nelement vertex 7\nproperty float x\nproperty float opacity\nend_header\n".to_vec();
    let prelude = begin_import(&data, data.len()).unwrap();
    assert_eq!(prelude.header.encoding, PlyEncoding::BinaryBigEndian);
    assert_eq!(prelude.header.elements.len(), 1);
    assert_eq!(prelude.header.elements[0].name, "vertex");
    assert_eq!(prelude.header.elements[0].count, 7);
    assert_eq!(prelude.header.elements[0].properties, texts(&["x", "opacity"]));
    assert_eq!(prelude.header.comments, texts(&["Vertical axis: y", "SplatRenderMode: mip"]));
    assert!(matches!(prelude.format, PlyFormat::Ply));
    assert!(matches!(prelude.render_mode, Some(SplatRenderMode::Mip)));
    assert!(matches!(prelude.axes[0], AxisComment::NegY));
    assert!(matches!(prelude.axes[1], AxisComment::Silent));
}

#[test]
fn compressed_files_start_with_chunks() {
    let chunk_first = header(vec![element("chunk", 1, &[]), element("vertex", 1, &[])], &[]);
    assert!(matches!(ply_format(&chunk_first), Some(PlyFormat::SuperSplatCompressed)));
    let vertex_first = header(vec![element("vertex", 1, &[]), element("chunk", 1, &[])], &[]);
    assert!(matches!(ply_format(&vertex_first), Some(PlyFormat::Ply)));
    assert!(ply_format(&header(vec![element("chunk", 1, &[])], &[])).is_none());
    assert_eq!(prelude_of(header(vec![], &[])).err().unwrap(), "Unknown format");
}

#[test]
fn rest_properties_are_checked() {
    let names = |n: usize| -> Vec<String> { (0..n).rev().map(|i| format!("f_rest_{i}")).collect() };
    for n in [0, 9, 24, 45, 72] {
        assert_eq!(validate_sh_rest_properties(&names(n)), Ok(n));
    }
    assert_eq!(validate_sh_rest_properties(&names(10)), Err("Unsupported SH rest property count: 10".to_string()));
    assert_eq!(
        validate_sh_rest_properties(&texts(&["f_rest_1", "f_rest_0", "f_rest_0"])),
        Err("SH rest properties must be contiguous from f_rest_0".to_string())
    );
    assert_eq!(
        validate_sh_rest_properties(&texts(&["f_rest_x"])),
        Err("Invalid SH property name: f_rest_x".to_string())
    );
    // An explicit plus sign is part of a number, a blank is not.
    assert_eq!(
        validate_sh_rest_properties(&texts(&["f_rest_+0"])),
        Err("Unsupported SH rest property count: 1".to_string())
    );
    assert_eq!(
        validate_sh_rest_properties(&texts(&["f_rest_ 0"])),
        Err("Invalid SH property name: f_rest_ 0".to_string())
    );
}

#[test]
fn plans_follow_the_vertex_properties() {
    let vertex = ["x", "y", "z", "rot_0", "opacity", "red", "green", "blue"];
    let plan = plan_ply(&header(vec![element("vertex", 10, &vertex)], &[]), 3).unwrap();
    assert!(plan.is_ascii);
    assert_eq!((plan.total_splats, plan.max_splats, plan.subsample), (10, 4, 3));
    assert_eq!(plan.sh_count, 3);
    assert!(plan.has_rotations && plan.has_opacities && !plan.has_scales);

    let error = |properties: &[&str]| {
        plan_ply(&header(vec![element("vertex", 1, properties)], &[]), 1).err().unwrap()
    };
    assert_eq!(error(&["f_dc_0", "f_dc_1"]), "PLY SH colors require f_dc_0, f_dc_1, and f_dc_2");
    assert_eq!(error(&["r", "g", "b", "red"]), "PLY RGB colors require exactly one red, green, and blue property");
    let rest: Vec<String> = (0..9).map(|i| format!("f_rest_{i}")).collect();
    let rest: Vec<&str> = rest.iter().map(|s| s.as_str()).collect();
    assert_eq!(error(&rest), "PLY SH rest properties require a complete DC or RGB color");
    assert_eq!(plan_ply(&header(vec![], &[]), 1).err().unwrap(), "Unknown format");
}

#[test]
fn compressed_plans_report_each_failure() {
    let plan = |elements, chunk_rows| plan_compressed(&header(elements, &[]), chunk_rows, 2);
    let chunk = || element("chunk", 2, &[]);
    assert_eq!(plan(vec![chunk()], 2).err().unwrap(), "Unknown format");
    assert_eq!(plan(vec![chunk(), element("face", 1, &[])], 2).err().unwrap(), "Unknown format");
    assert_eq!(
        plan(vec![chunk(), element("vertex", 513, &[])], 2).err().unwrap(),
        "Compressed PLY has 2 chunk rows but needs at least 3 for 513 vertices"
    );
    assert_eq!(
        plan(vec![chunk(), element("vertex", 512, &[]), element("sh", 511, &[])], 2).err().unwrap(),
        "Invalid compressed PLY SH element: expected 512 rows"
    );
    let ok = plan(vec![chunk(), element("vertex", 511, &[])], 2).unwrap();
    assert_eq!((ok.total_splats, ok.max_splats, ok.subsample, ok.chunk_rows, ok.sh_rest), (511, 256, 2, 2, None));
}

#[test]
fn rows_are_kept_by_stride() {
    let mut rows = String::new();
    for i in 0..5 {
        rows.push_str(&format!("{i} {i} {i}\n"));
    }
    let imported = load(&ascii_ply(5, &rows), Some(2)).unwrap();
    assert_eq!(imported.data.means, vec![0., 0., 0., 2., 2., 2., 4., 4., 4.]);
    assert_eq!(imported.total_splats, 3);
    assert!(imported.data.rotations.is_none());
    assert!(imported.data.log_scales.is_none());
    assert!(imported.data.sh_coeffs.is_none());
    assert!(imported.data.raw_opacities.is_none());
}

#[test]
fn colors_replace_base_coefficients() {
    let vertex = ["red", "green", "blue", "f_dc_0", "f_dc_1", "f_dc_2"];
    let plan = plan_ply(&header(vec![element("vertex", 2, &vertex)], &[]), 1).unwrap();
    let mut import = PlyImport::new(plan);
    let row = |rgb| PlyRow {
        mean: (0, 0, 0),
        rotation: (0, 0, 0, 0),
        log_scale: (0, 0, 0),
        opacity: 0,
        dc: (7, 8, 9),
        rgb,
        rest: vec![],
    };
    import.push_row(&row((Some(1), Some(2), Some(3))));
    import.push_row(&row((Some(1), None, Some(3))));
    assert_eq!(import.data().sh_coeffs, Some(vec![1, 2, 3, 7, 8, 9]));
}

#[test]
fn color_rows_are_interleaved_by_coefficient() {
    let mut out = vec![100];
    interleave_coeffs((1, 2, 3), &vec![10, 11, 20, 21, 30, 31, 99], 6, &mut out);
    assert_eq!(out, vec![100, 1, 2, 3, 10, 20, 30, 11, 21, 31]);
}

#[test]
fn missing_fields_get_their_defaults() {
    let data = SplatData {
        means: vec![1, 2, 3, 4, 5, 6],
        rotations: None,
        log_scales: None,
        sh_coeffs: None,
        raw_opacities: None,
    };
    let defaults = SplatDefaults { rotation: (1, 0, 0, 0), log_scale: -4, sh_coeff: 50, raw_opacity: 9 };
    let splats = data.into_splats(defaults, SplatRenderMode::Mip);
    assert_eq!(splats.num_splats(), 2);
    assert_eq!(splats.means(), vec![1, 2, 3, 4, 5, 6]);
    assert_eq!(splats.rotations(), vec![1, 0, 0, 0, 1, 0, 0, 0]);
    assert_eq!(splats.log_scales(), vec![-4; 6]);
    assert_eq!(splats.sh_degree(), 0);
    assert!(splats.render_mip);
}

#[test]
fn decisions_after_a_chunk() {
    assert_eq!(after_chunk(5, 5, 0, false).next, AfterChunk::Done);
    assert!(after_chunk(5, 5, 0, false).emit);
    assert_eq!(after_chunk(4, 5, 0, true).next, AfterChunk::UnexpectedEof);
    assert!(after_chunk(4, 5, 9, true).emit);
    assert_eq!(after_chunk(4, 5, 9, false).next, AfterChunk::ReadMore);
    assert!(!after_chunk(4, 5, 9, false).emit);
    assert_eq!(after_element_chunk(0, false), AfterChunk::Done);
    assert_eq!(after_element_chunk(1, true), AfterChunk::ReadMore);
    assert_eq!(after_element_chunk(0, true), AfterChunk::UnexpectedEof);
}

#[test]
fn updates_wait_for_the_interval() {
    assert!(should_update(false, Some(1500), 1500));
    assert!(!should_update(false, Some(1500), 1499));
    assert!(!should_update(true, Some(1500), 9000));
    assert!(!should_update(false, None, 9000));
}

#[test]
fn final_newline_is_only_for_text() {
    assert!(needs_final_newline(0, true, Some(b'7')));
    assert!(!needs_final_newline(0, true, Some(b'\n')));
    assert!(!needs_final_newline(0, true, None));
    assert!(!needs_final_newline(0, false, Some(b'7')));
    assert!(!needs_final_newline(1, true, Some(b'7')));
    for b in 0..=255u8 {
        assert_eq!(needs_final_newline(0, true, Some(b)), !b.is_ascii_whitespace());
    }
}

#[test]
fn progress_is_a_fraction() {
    assert_eq!(progress(0, 0), Progress { completed: 1, len: 1 });
    assert_eq!(progress(3, 4), Progress { completed: 3, len: 4 });
    assert_eq!(progress(9, 4), Progress { completed: 4, len: 4 });
    assert_eq!(subsample_stride(None), Ok(1));
    assert_eq!(subsample_stride(Some(7)), Ok(7));
    assert!(subsample_stride(Some(0)).is_err());
    assert_eq!(last_message::<u8>(None), Err("Couldn't load single splat from ply".to_string()));
    assert_eq!(last_message(Some(7)), Ok(7));
}

#[test]
fn compressed_files_are_read_in_stages() {
    let step = compressed_step;
    assert_eq!(step(Stage::Bounds, Element::Chunk, 2, false), (Stage::Bounds, CompressedStep::TakeRows { fill: true }));
    assert_eq!(step(Stage::Bounds, Element::Chunk, 0, false), (Stage::Bounds, CompressedStep::TakeRows { fill: false }));
    assert_eq!(step(Stage::Bounds, Element::Vertex, 2, false), (Stage::Splats, CompressedStep::Plan));
    assert_eq!(step(Stage::Splats, Element::Vertex, 2, true), (Stage::Splats, CompressedStep::TakeRows { fill: true }));
    assert_eq!(step(Stage::Splats, Element::Other, 0, false), (Stage::Done, CompressedStep::Finish));
    assert_eq!(step(Stage::Splats, Element::Sh, 2, true), (Stage::Rest, CompressedStep::TakeRows { fill: true }));
    assert_eq!(step(Stage::Rest, Element::Other, 0, true), (Stage::Done, CompressedStep::HandOutAll));
    assert_eq!(step(Stage::Done, Element::Other, 0, true), (Stage::Done, CompressedStep::Finish));
    assert_eq!(after_rows(Stage::Rest, 0, Element::Sh), AfterChunk::UnexpectedEof);
    assert_eq!(after_rows(Stage::Rest, 5, Element::Sh), AfterChunk::ReadMore);
    assert_eq!(after_rows(Stage::Splats, 0, Element::Sh), AfterChunk::Done);
}
