//! The patch applier's course: which outside step comes next, and what
//! follows from how it went. The caller checks the files, runs the codec
//! and reads and writes the image; every decision is taken here.

use crate::error::Error;
use crate::patch::{
    all_in_bounds, applied, apply_patches, first_outside, patches_view, Patch, PatchView,
};
use vstd::prelude::*;

verus! {

/// Where an application stands.
#[derive(Debug, Clone, Copy, PartialEq, Eq, Structural)]
pub enum Phase {
    /// Nothing was done yet.
    Idle,
    /// The source image is being looked for.
    Source,
    /// The decompressed copy is being looked for.
    Cache,
    /// The codec is decompressing the source image.
    Decompression,
    /// The decompressed copy is being read.
    Image,
    /// The patched image is being written to the temporary file.
    Temporary,
    /// The codec is compressing the temporary file into the destination.
    Compression,
    /// The temporary file is being removed.
    Cleanup,
    /// The application has ended.
    Finished,
}

/// How an outside step went.
#[derive(Debug, PartialEq, Eq)]
pub enum Event {
    /// The application is asked for.
    Begin,
    /// Whether the file that was looked for exists.
    Found(bool),
    /// Whether the codec could be started, and what it wrote to its
    /// error stream, as text.
    CodecRan { started: bool, error_text: String },
    /// The bytes of the decompressed copy, where it could be read.
    Read(Option<Vec<u8>>),
    /// Whether the temporary file could be written.
    Wrote(bool),
    /// Whether the temporary file could be removed.
    Removed(bool),
}

/// The outside step that comes next.
#[derive(Debug, PartialEq, Eq)]
pub enum Action {
    /// Look for the source image.
    CheckSource,
    /// Look for the decompressed copy.
    CheckCache,
    /// Have the codec decompress the source image into the copy.
    Decompress,
    /// Read the decompressed copy.
    ReadImage,
    /// Write these bytes to the temporary file.
    WriteTemporary(Vec<u8>),
    /// Have the codec compress the temporary file into the destination.
    Compress,
    /// Remove the temporary file.
    RemoveTemporary,
    /// End, with this result.
    Finish(Result<(), Error>),
}

/// The codec succeeded: it was started and wrote nothing to its error
/// stream.
pub open spec fn codec_succeeded(started: bool, error_text: Seq<char>) -> bool {
    started && error_text.len() == 0
}

/// The error of a codec run that did not succeed: what the codec wrote
/// to its error stream, where it was started.
pub open spec fn codec_error(started: bool, error_text: String) -> Error {
    if started {
        Error::ExternalTool { message: error_text }
    } else {
        Error::Io
    }
}

/// The application ends with this result.
pub open spec fn ends_with(r: (Phase, Action), result: Result<(), Error>) -> bool {
    r.0 == Phase::Finished && r.1 == Action::Finish(result)
}

/// The application goes on to this phase with this step.
pub open spec fn goes_on(r: (Phase, Action), phase: Phase, action: Action) -> bool {
    r.0 == phase && r.1 == action
}

/// What follows when the image was read: the patched image is to be
/// written, or a patch lies outside the image and the application ends,
/// the destination untouched.
pub open spec fn patched(r: (Phase, Action), image: Seq<u8>, patches: Seq<PatchView>) -> bool {
    if all_in_bounds(image.len(), patches) {
        r.0 == Phase::Temporary && (r.1 matches Action::WriteTemporary(out) && out@ == applied(
            image,
            patches,
        ))
    } else {
        exists|i: int|
            first_outside(image.len(), patches, i) && ends_with(
                r,
                Err(Error::OutOfBounds { index: i as usize }),
            )
    }
}

/// What follows from an event in a phase.
pub open spec fn follows(phase: Phase, event: Event, patches: Seq<PatchView>, r: (Phase, Action)) -> bool {
    match (phase, event) {
        (Phase::Idle, Event::Begin) => goes_on(r, Phase::Source, Action::CheckSource),
        (Phase::Source, Event::Found(found)) => if found {
            goes_on(r, Phase::Cache, Action::CheckCache)
        } else {
            ends_with(r, Err(Error::SourceMissing))
        },
        (Phase::Cache, Event::Found(found)) => if found {
            goes_on(r, Phase::Image, Action::ReadImage)
        } else {
            goes_on(r, Phase::Decompression, Action::Decompress)
        },
        (Phase::Decompression, Event::CodecRan { started, error_text }) => if codec_succeeded(
            started,
            error_text@,
        ) {
            goes_on(r, Phase::Image, Action::ReadImage)
        } else {
            ends_with(r, Err(codec_error(started, error_text)))
        },
        (Phase::Image, Event::Read(Some(image))) => patched(r, image@, patches),
        (Phase::Image, Event::Read(None)) => ends_with(r, Err(Error::Io)),
        (Phase::Temporary, Event::Wrote(done)) => if done {
            goes_on(r, Phase::Compression, Action::Compress)
        } else {
            ends_with(r, Err(Error::Io))
        },
        (Phase::Compression, Event::CodecRan { started, error_text }) => if codec_succeeded(
            started,
            error_text@,
        ) {
            goes_on(r, Phase::Cleanup, Action::RemoveTemporary)
        } else {
            ends_with(r, Err(codec_error(started, error_text)))
        },
        (Phase::Cleanup, Event::Removed(_)) => ends_with(r, Ok(())),
        _ => ends_with(r, Err(Error::Io)),
    }
}

/// What follows from a run of the codec: the next step where it
/// succeeded, else the end.
fn after_codec(started: bool, error_text: String, phase: Phase, action: Action) -> (r: (
    Phase,
    Action,
))
    ensures
        if codec_succeeded(started, error_text@) {
            goes_on(r, phase, action)
        } else {
            ends_with(r, Err(codec_error(started, error_text)))
        },
{
    if !started {
        (Phase::Finished, Action::Finish(Err(Error::Io)))
    } else if !error_text.as_str().is_empty() {
        (Phase::Finished, Action::Finish(Err(Error::ExternalTool { message: error_text })))
    } else {
        (phase, action)
    }
}

/// Takes the application one step on: from the phase it is in and the
/// event that ended the last outside step to the next phase and step.
///
/// The source image must exist. The codec decompresses it only where no
/// decompressed copy exists yet. The patches are written into the image
/// that was read, and only an image that took them all is written out
/// and compressed. A codec that writes to its error stream has failed,
/// and what it wrote is the error.
/// That the temporary file could not be removed ends nothing. An event
/// that does not belong to the phase ends the application.
pub fn advance(phase: Phase, event: Event, patches: &Vec<Patch>) -> (r: (Phase, Action))
    ensures
        follows(phase, event, patches_view(patches@), r),
{
    match (phase, event) {
        (Phase::Idle, Event::Begin) => (Phase::Source, Action::CheckSource),
        (Phase::Source, Event::Found(found)) => {
            if found {
                (Phase::Cache, Action::CheckCache)
            } else {
                (Phase::Finished, Action::Finish(Err(Error::SourceMissing)))
            }
        },
        (Phase::Cache, Event::Found(found)) => {
            if found {
                (Phase::Image, Action::ReadImage)
            } else {
                (Phase::Decompression, Action::Decompress)
            }
        },
        (Phase::Decompression, Event::CodecRan { started, error_text }) => after_codec(
            started,
            error_text,
            Phase::Image,
            Action::ReadImage,
        ),
        (Phase::Image, Event::Read(Some(image))) => {
            let mut image = image;
            let ghost before = image@;
            match apply_patches(&mut image, patches) {
                Ok(()) => (Phase::Temporary, Action::WriteTemporary(image)),
                Err(e) => {
                    let r = (Phase::Finished, Action::Finish(Err(e)));
                    assert(patched(r, before, patches_view(patches@))) by {
                        let i = choose|i: int|
                            first_outside(before.len(), patches_view(patches@), i) && e
                                == (Error::OutOfBounds { index: i as usize });
                        assert(first_outside(before.len(), patches_view(patches@), i));
                        assert(ends_with(r, Err(Error::OutOfBounds { index: i as usize })));
                    }
                    r
                },
            }
        },
        (Phase::Image, Event::Read(None)) => (Phase::Finished, Action::Finish(Err(Error::Io))),
        (Phase::Temporary, Event::Wrote(done)) => {
            if done {
                (Phase::Compression, Action::Compress)
            } else {
                (Phase::Finished, Action::Finish(Err(Error::Io)))
            }
        },
        (Phase::Compression, Event::CodecRan { started, error_text }) => after_codec(
            started,
            error_text,
            Phase::Cleanup,
            Action::RemoveTemporary,
        ),
        (Phase::Cleanup, Event::Removed(_)) => (Phase::Finished, Action::Finish(Ok(()))),
        _ => (Phase::Finished, Action::Finish(Err(Error::Io))),
    }
}

} // verus!
