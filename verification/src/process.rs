//! What a process does with its source: whether it trains or shows the splats
//! it finds, what it calls the source, and the steps it takes, one after
//! another, as the outside world answers.
use vstd::prelude::*;
use vstd::string::*;

use crate::text;
use crate::text::{eq_ignore_ascii_case, push_decimal};

verus! {

/// A file of a source: its name and its extension, as far as they are text.
pub struct SourceFile {
    pub name: Option<String>,
    pub extension: Option<String>,
}

/// The extensions of images that a dataset can hold.
pub open spec fn is_image_extension(e: Seq<char>) -> bool {
    ||| text::same_ignoring_case(e, "avif"@)
    ||| text::same_ignoring_case(e, "bmp"@)
    ||| text::same_ignoring_case(e, "exr"@)
    ||| text::same_ignoring_case(e, "gif"@)
    ||| text::same_ignoring_case(e, "jpeg"@)
    ||| text::same_ignoring_case(e, "jpg"@)
    ||| text::same_ignoring_case(e, "png"@)
    ||| text::same_ignoring_case(e, "pnm"@)
    ||| text::same_ignoring_case(e, "qoi"@)
    ||| text::same_ignoring_case(e, "tga"@)
    ||| text::same_ignoring_case(e, "tif"@)
    ||| text::same_ignoring_case(e, "tiff"@)
    ||| text::same_ignoring_case(e, "webp"@)
}

pub open spec fn is_image(file: SourceFile) -> bool {
    file.extension is Some && is_image_extension(file.extension->0@)
}

/// A file that can describe cameras.
pub open spec fn is_metadata(file: SourceFile) -> bool {
    ||| file.extension is Some && (text::same_ignoring_case(file.extension->0@, "json"@)
        || text::same_ignoring_case(file.extension->0@, "csv"@))
    ||| file.name is Some && (text::same_ignoring_case(file.name->0@, "cameras.bin"@)
        || text::same_ignoring_case(file.name->0@, "cameras.txt"@))
}

pub open spec fn some_image(files: Seq<SourceFile>) -> bool {
    exists|i: int| 0 <= i < files.len() && is_image(#[trigger] files[i])
}

pub open spec fn some_metadata(files: Seq<SourceFile>) -> bool {
    exists|i: int| 0 <= i < files.len() && is_metadata(#[trigger] files[i])
}

fn image(file: &SourceFile) -> (r: bool)
    ensures
        r == is_image(*file),
{
    match &file.extension {
        None => false,
        Some(extension) => {
            let e: &str = extension.as_str();
            eq_ignore_ascii_case(e, "avif") || eq_ignore_ascii_case(e, "bmp")
                || eq_ignore_ascii_case(e, "exr") || eq_ignore_ascii_case(e, "gif")
                || eq_ignore_ascii_case(e, "jpeg") || eq_ignore_ascii_case(e, "jpg")
                || eq_ignore_ascii_case(e, "png") || eq_ignore_ascii_case(e, "pnm")
                || eq_ignore_ascii_case(e, "qoi") || eq_ignore_ascii_case(e, "tga")
                || eq_ignore_ascii_case(e, "tif") || eq_ignore_ascii_case(e, "tiff")
                || eq_ignore_ascii_case(e, "webp")
        },
    }
}

fn metadata(file: &SourceFile) -> (r: bool)
    ensures
        r == is_metadata(*file),
{
    let by_extension: bool = match &file.extension {
        None => false,
        Some(e) => eq_ignore_ascii_case(e.as_str(), "json") || eq_ignore_ascii_case(
            e.as_str(),
            "csv",
        ),
    };
    let by_name: bool = match &file.name {
        None => false,
        Some(n) => eq_ignore_ascii_case(n.as_str(), "cameras.bin") || eq_ignore_ascii_case(
            n.as_str(),
            "cameras.txt",
        ),
    };
    by_extension || by_name
}

/// Whether a source is trained on. A source with splat files is only shown,
/// whatever else it holds, unless it holds images and a description of cameras
/// as a dataset does.
pub fn is_training_source(files: &Vec<SourceFile>, ply_count: usize) -> (r: bool)
    ensures
        r == (ply_count == 0 || (some_image(files@) && some_metadata(files@))),
{
    if ply_count == 0 {
        return true;
    }
    let mut has_images: bool = false;
    let mut has_metadata: bool = false;
    let mut i: usize = 0;
    while i < files.len()
        invariant
            i <= files.len(),
            has_images == exists|k: int| 0 <= k < i && is_image(#[trigger] files[k]),
            has_metadata == exists|k: int| 0 <= k < i && is_metadata(#[trigger] files[k]),
        decreases files.len() - i,
    {
        let ghost images = has_images;
        let ghost described = has_metadata;
        if image(&files[i]) {
            has_images = true;
        }
        if metadata(&files[i]) {
            has_metadata = true;
        }
        proof {
            if has_images && !images {
                assert(is_image(files[i as int]));
            }
            if has_metadata && !described {
                assert(is_metadata(files[i as int]));
            }
        }
        i = i + 1;
    }
    proof {
        assert(has_images == some_image(files@)) by {
            if has_images {
                let k = choose|k: int| 0 <= k < files.len() && is_image(#[trigger] files[k]);
                assert(is_image(files@[k]));
            }
        }
        assert(has_metadata == some_metadata(files@)) by {
            if has_metadata {
                let k = choose|k: int| 0 <= k < files.len() && is_metadata(#[trigger] files[k]);
                assert(is_metadata(files@[k]));
            }
        }
    }
    has_images && has_metadata
}

/// Where a source's name comes from.
pub enum SourceLabel {
    /// The source is a folder or a file: its name, where that is text.
    Base(Option<String>),
    /// The source is a single file without a folder: its name, where that is
    /// text.
    Single(Option<String>),
    /// The source is this many files without a folder.
    Several(u64),
}

pub open spec fn label_text(label: SourceLabel, training: bool) -> Seq<char> {
    match label {
        SourceLabel::Base(Some(name)) => name@,
        SourceLabel::Base(None) => if training {
            "dataset"@
        } else {
            "file"@
        },
        SourceLabel::Single(Some(name)) => name@,
        SourceLabel::Single(None) => "input.ply"@,
        SourceLabel::Several(n) => text::decimal_text(n as int) + " files"@,
    }
}

/// The name that a source is shown under.
pub fn source_name(label: SourceLabel, training: bool) -> (name: String)
    ensures
        name@ == label_text(label, training),
{
    match label {
        SourceLabel::Base(Some(name)) => name,
        SourceLabel::Base(None) => if training {
            String::from_str("dataset")
        } else {
            String::from_str("file")
        },
        SourceLabel::Single(Some(name)) => name,
        SourceLabel::Single(None) => String::from_str("input.ply"),
        SourceLabel::Several(n) => {
            let mut name: String = String::new();
            push_decimal(&mut name, n);
            name.append(" files");
            assert(name@ =~= text::decimal_text(n as int) + " files"@);
            name
        },
    }
}

/// What `alphanumeric_sort::sort_path_slice` makes of paths.
pub uninterp spec fn alphanumeric_order(paths: Seq<Seq<char>>) -> Seq<Seq<char>>;

/// Calls `alphanumeric_sort::sort_path_slice`, which puts paths in an order
/// that compares runs of digits by their value. What is claimed of it: the
/// order is a function of the paths, and they are the same paths, each as often
/// as before. The order itself is not stated.
#[verifier::external_body]
fn sort_path_slice(paths: &mut Vec<String>)
    ensures
        text::texts(final(paths)@) == alphanumeric_order(text::texts(old(paths)@)),
        text::texts(final(paths)@).to_multiset() == text::texts(old(paths)@).to_multiset(),
{
    alphanumeric_sort::sort_path_slice(paths)
}

/// The frames of an animation, in the order they are shown in.
pub fn order_frames(paths: Vec<String>) -> (frames: Vec<String>)
    ensures
        text::texts(frames@) == alphanumeric_order(text::texts(paths@)),
        text::texts(frames@).to_multiset() == text::texts(paths@).to_multiset(),
        frames.len() == paths.len(),
{
    let mut frames: Vec<String> = paths;
    let ghost before = text::texts(frames@);
    sort_path_slice(&mut frames);
    proof {
        let after = text::texts(frames@);
        before.to_multiset_ensures();
        after.to_multiset_ensures();
    }
    frames
}

/// Where a process stands.
#[derive(Clone, Copy, Debug, PartialEq, Eq, Structural)]
pub enum Phase {
    /// The process was announced; its source is being opened.
    Opening,
    /// The source is open; its settings are being read.
    ReadingSettings { training: bool, total_frames: u32 },
    /// The source was announced.
    Announced { training: bool, total_frames: u32 },
    /// A frame's file is being opened.
    OpeningFrame { frame: u32, total_frames: u32 },
    /// A frame's file is being read.
    ReadingFrame { frame: u32, total_frames: u32 },
    /// The splats of a message are being made.
    MakingSplats { frame: u32, total_frames: u32 },
    /// The splats were handed out; the update is being announced.
    Publishing { frame: u32, total_frames: u32 },
    /// The end of loading is being announced.
    Ending,
    /// The settings are being decided on.
    Configuring,
    /// Training runs.
    Training,
    Finished,
}

/// What the outside world answers.
#[derive(Clone, Copy, Debug, PartialEq, Eq, Structural)]
pub enum Event {
    /// The last action was done.
    Done,
    /// The source is open: how many files it has, whether it is trained on,
    /// and how many splat files it has.
    Mounted { file_count: usize, training: bool, ply_count: u32 },
    /// A file has another message.
    Message,
    /// A file has no more messages.
    EndOfFile,
    /// The settings were decided on, or the process was called off.
    Settings { given: bool },
    /// The last action failed.
    Failed,
}

/// What the outside world is to do.
#[derive(Clone, Copy, Debug, PartialEq, Eq, Structural)]
pub enum Action {
    ReadSettings,
    AnnounceSource,
    OpenFrame { frame: u32 },
    ReadMessage,
    /// Make splats of a message, and free cached memory.
    MakeSplats,
    /// Hand the splats out, in place of all others if `clear`.
    HandOut { frame: u32, clear: bool, total_frames: u32 },
    AnnounceEnd,
    AskForSettings,
    Train,
    /// The process is over.
    Stop,
    /// The process is over: the source has no files.
    StopEmpty,
    /// The process is over: hand on the error of the last action.
    StopFailed,
}

/// Where a process goes on a frame: to the next file, or to the end.
pub open spec fn to_frame(frame: u32, total_frames: u32) -> (Phase, Action) {
    if frame < total_frames {
        (Phase::OpeningFrame { frame, total_frames }, Action::OpenFrame { frame })
    } else {
        (Phase::Ending, Action::AnnounceEnd)
    }
}

/// How a process goes on. An answer that does not fit ends it as a failure.
pub open spec fn next_step(phase: Phase, event: Event) -> (Phase, Action) {
    match (phase, event) {
        (Phase::Opening, Event::Mounted { file_count, training, ply_count }) => if file_count
            == 0 {
            (Phase::Finished, Action::StopEmpty)
        } else {
            (
                Phase::ReadingSettings { training, total_frames: ply_count },
                Action::ReadSettings,
            )
        },
        (Phase::ReadingSettings { training, total_frames }, Event::Done) => (
            Phase::Announced { training, total_frames },
            Action::AnnounceSource,
        ),
        (Phase::Announced { training, total_frames }, Event::Done) => if training {
            (Phase::Configuring, Action::AskForSettings)
        } else {
            to_frame(0, total_frames)
        },
        (Phase::OpeningFrame { frame, total_frames }, Event::Done) => (
            Phase::ReadingFrame { frame, total_frames },
            Action::ReadMessage,
        ),
        (Phase::ReadingFrame { frame, total_frames }, Event::Message) => (
            Phase::MakingSplats { frame, total_frames },
            Action::MakeSplats,
        ),
        (Phase::ReadingFrame { frame, total_frames }, Event::EndOfFile) => to_frame(
            (frame + 1) as u32,
            total_frames,
        ),
        (Phase::MakingSplats { frame, total_frames }, Event::Done) => (
            Phase::Publishing { frame, total_frames },
            Action::HandOut { frame, clear: frame == 0, total_frames },
        ),
        (Phase::Publishing { frame, total_frames }, Event::Done) => (
            Phase::ReadingFrame { frame, total_frames },
            Action::ReadMessage,
        ),
        (Phase::Ending, Event::Done) => (Phase::Finished, Action::Stop),
        (Phase::Configuring, Event::Settings { given }) => if given {
            (Phase::Training, Action::Train)
        } else {
            (Phase::Finished, Action::Stop)
        },
        (Phase::Training, Event::Done) => (Phase::Finished, Action::Stop),
        _ => (Phase::Finished, Action::StopFailed),
    }
}

/// The frame a process is at is one of its frames.
pub open spec fn wf(phase: Phase) -> bool {
    match phase {
        Phase::OpeningFrame { frame, total_frames } => frame < total_frames,
        Phase::ReadingFrame { frame, total_frames } => frame < total_frames,
        Phase::MakingSplats { frame, total_frames } => frame < total_frames,
        Phase::Publishing { frame, total_frames } => frame < total_frames,
        _ => true,
    }
}

fn frame_step(frame: u32, total_frames: u32) -> (r: (Phase, Action))
    ensures
        r == to_frame(frame, total_frames),
{
    if frame < total_frames {
        (Phase::OpeningFrame { frame, total_frames }, Action::OpenFrame { frame })
    } else {
        (Phase::Ending, Action::AnnounceEnd)
    }
}

/// Takes the next step of a process.
pub fn advance(phase: Phase, event: Event) -> (r: (Phase, Action))
    requires
        wf(phase),
    ensures
        r == next_step(phase, event),
        wf(r.0),
{
    match (phase, event) {
        (Phase::Opening, Event::Mounted { file_count, training, ply_count }) => if file_count
            == 0 {
            (Phase::Finished, Action::StopEmpty)
        } else {
            (
                Phase::ReadingSettings { training, total_frames: ply_count },
                Action::ReadSettings,
            )
        },
        (Phase::ReadingSettings { training, total_frames }, Event::Done) => (
            Phase::Announced { training, total_frames },
            Action::AnnounceSource,
        ),
        (Phase::Announced { training, total_frames }, Event::Done) => if training {
            (Phase::Configuring, Action::AskForSettings)
        } else {
            frame_step(0, total_frames)
        },
        (Phase::OpeningFrame { frame, total_frames }, Event::Done) => (
            Phase::ReadingFrame { frame, total_frames },
            Action::ReadMessage,
        ),
        (Phase::ReadingFrame { frame, total_frames }, Event::Message) => (
            Phase::MakingSplats { frame, total_frames },
            Action::MakeSplats,
        ),
        (Phase::ReadingFrame { frame, total_frames }, Event::EndOfFile) => frame_step(
            frame + 1,
            total_frames,
        ),
        (Phase::MakingSplats { frame, total_frames }, Event::Done) => (
            Phase::Publishing { frame, total_frames },
            Action::HandOut { frame, clear: frame == 0, total_frames },
        ),
        (Phase::Publishing { frame, total_frames }, Event::Done) => (
            Phase::ReadingFrame { frame, total_frames },
            Action::ReadMessage,
        ),
        (Phase::Ending, Event::Done) => (Phase::Finished, Action::Stop),
        (Phase::Configuring, Event::Settings { given }) => if given {
            (Phase::Training, Action::Train)
        } else {
            (Phase::Finished, Action::Stop)
        },
        (Phase::Training, Event::Done) => (Phase::Finished, Action::Stop),
        _ => (Phase::Finished, Action::StopFailed),
    }
}

/// The phase that a process reaches on a series of answers.
pub open spec fn phase_after(events: Seq<Event>) -> Phase
    decreases events.len(),
{
    if events.len() == 0 {
        Phase::Opening
    } else {
        next_step(phase_after(events.drop_last()), events.last()).0
    }
}

/// Splats are handed out only for the frames there are, and the first frame's
/// take the place of all others.
pub proof fn frames_are_handed_out_in_range(events: Seq<Event>, event: Event)
    ensures
        wf(phase_after(events)),
        next_step(phase_after(events), event).1 matches Action::HandOut {
            frame,
            clear,
            total_frames,
        } ==> frame < total_frames && clear == (frame == 0),
    decreases events.len(),
{
    if events.len() > 0 {
        frames_are_handed_out_in_range(events.drop_last(), events.last());
    }
}

/// Files are opened one after another: the first one first, and each other one
/// when the one before it has been read to its end.
pub proof fn frames_are_opened_in_order(phase: Phase, event: Event)
    ensures
        next_step(phase, event).1 matches Action::OpenFrame { frame } ==> {
            ||| frame == 0 && phase is Announced
            ||| phase matches Phase::ReadingFrame { frame: last, total_frames } && event
                == Event::EndOfFile && (last < total_frames ==> frame == last + 1)
        },
{
}

/// A process that is over stays over.
pub proof fn finished_is_final(events: Seq<Event>, event: Event)
    requires
        phase_after(events) == Phase::Finished,
    ensures
        next_step(phase_after(events), event).0 == Phase::Finished,
{
}

/// A process that trains hands out no frames, and one that shows frames never
/// trains.
pub proof fn training_and_showing_exclude_each_other(phase: Phase, event: Event)
    ensures
        next_step(phase, event).1 == Action::Train ==> phase == Phase::Configuring,
        next_step(phase, event).0 == Phase::Configuring ==> (phase matches Phase::Announced {
            training,
            total_frames,
        } && training),
        phase matches Phase::Announced { training, total_frames } ==> training ==> !(next_step(
            phase,
            event,
        ).1 is OpenFrame),
{
}

/// A failure ends a process, wherever it stands, and hands on the error.
pub proof fn failures_end_the_process(phase: Phase)
    ensures
        next_step(phase, Event::Failed) == (Phase::Finished, Action::StopFailed),
{
}

/// Splats are handed out for the frame that they were read from, and take the
/// place of all others just where that frame is the first.
pub proof fn only_the_first_frame_clears(phase: Phase, event: Event)
    requires
        wf(phase),
    ensures
        ({
            let (next, action) = next_step(phase, event);
            match action {
                Action::HandOut { frame, clear, total_frames } => {
                    &&& phase == (Phase::MakingSplats { frame, total_frames })
                    &&& next == (Phase::Publishing { frame, total_frames })
                    &&& frame < total_frames
                    &&& clear <==> frame == 0
                },
                _ => true,
            }
        }),
{
}

} // verus!
