//! Voice input method: the text-processing core.
//!
//! Recognized speech is refined (filler removal, punctuation, LLM polishing),
//! injected into the focused application, and the user's later corrections
//! are mapped back to audio time. This crate holds the data types and the
//! logic of those steps; audio capture, model inference, HTTP, files and the
//! user interface are driven from outside it.

pub mod bytes_map;
pub mod chars;
pub mod download;
pub mod engine;
pub mod json;
pub mod models;
pub mod refine_mgr;
pub mod secret;
pub mod session;
pub mod text;
pub mod timefmt;
pub mod ui;

use vstd::prelude::*;

verus! {

// ═══════════════════════════════ Audio ═══════════════════════════════

/// A block of 16-bit samples with the time at which it was captured.
pub struct AudioFrame {
    pub samples: Vec<i16>,
    pub timestamp_us: u64,
}

// ═══════════════════════════════ Timing ═══════════════════════════════

/// A single recognized character with its audio timing.
#[derive(Debug, Clone)]
pub struct CharTiming {
    pub text: String,
    pub start_ms: u64,
    pub end_ms: u64,
}

// ═══════════════════════════════ Text management ═══════════════════════════════

/// A change observed in the text of the focused application.
#[derive(Debug, Clone)]
pub enum TextChangeEvent {
    Inserted { position: usize, inserted: String },
    Replaced { range_start: usize, range_end: usize, old: String, new: String },
    Deleted { range_start: usize, range_end: usize, deleted: String },
    FullReplace { old: String, new: String },
}

/// The text of the focused field, with cursor and selection.
#[derive(Debug, Clone)]
pub struct TextSnapshot {
    pub full_text: String,
    pub cursor_position: usize,
    pub selection_start: usize,
    pub selection_end: usize,
}

/// Why an operation of a text session or a correction store failed.
#[derive(Debug, Clone)]
pub struct Failure {
    pub message: String,
}

/// Something that puts text into the focused application.
///
/// An implementation may say, through the spec functions, which results its
/// operations can have; one that does not leaves every result possible.
pub trait TextOutput {
    /// `r` is a possible result of committing `text`.
    open spec fn commit_outcome(&self, text: Seq<char>, r: Result<(), Failure>) -> bool {
        true
    }

    /// The name of the injection method.
    open spec fn method_name_of(&self) -> Seq<char> {
        arbitrary()
    }

    fn commit_text(&self, text: &str) -> (r: Result<(), Failure>)
        ensures
            self.commit_outcome(text@, r),
    ;

    fn method_name(&self) -> (r: String)
        ensures
            r@ == self.method_name_of(),
    ;
}

/// Something that watches the text of the focused application.
///
/// An implementation may say, through the spec functions, which results (and
/// which states afterwards) its operations can have; one that does not leaves
/// every outcome possible.
pub trait TextObserver: Sized {
    /// Starting to watch can give `r` and leave the observer as `after`.
    open spec fn start_outcome(&self, after: Self, r: Result<(), Failure>) -> bool {
        true
    }

    /// Stopping can give `r` and leave the observer as `after`.
    open spec fn stop_outcome(&self, after: Self, r: Result<(), Failure>) -> bool {
        true
    }

    /// `r` is a possible list of the changes seen since the last poll.
    open spec fn poll_outcome(&self, r: Seq<TextChangeEvent>) -> bool {
        true
    }

    /// `r` is a possible snapshot of the watched field.
    open spec fn snapshot_outcome(&self, r: Result<TextSnapshot, Failure>) -> bool {
        true
    }

    fn start_monitoring(&mut self) -> (r: Result<(), Failure>)
        ensures
            old(self).start_outcome(*final(self), r),
    ;

    fn stop_monitoring(&mut self) -> (r: Result<(), Failure>)
        ensures
            old(self).stop_outcome(*final(self), r),
    ;

    fn poll_changes(&self) -> (r: Vec<TextChangeEvent>)
        ensures
            self.poll_outcome(r@),
    ;

    fn snapshot(&self) -> (r: Result<TextSnapshot, Failure>)
        ensures
            self.snapshot_outcome(r),
    ;
}

/// Injection and monitoring together.
pub trait TextSession: TextOutput + TextObserver {

}

// ═══════════════════════════════ Correction ═══════════════════════════════

/// A correction with audio provenance.
#[derive(Debug, Clone)]
pub struct Correction {
    pub original: String,
    pub corrected: String,
    pub timestamp_iso: String,
    pub context_before: String,
    pub context_after: String,
    pub audio_start_ms: u64,
    pub audio_end_ms: u64,
    pub audio_path: Option<String>,
}

/// The view of a [`Correction`]: its texts as character sequences.
pub struct CorrectionView {
    pub original: Seq<char>,
    pub corrected: Seq<char>,
    pub timestamp_iso: Seq<char>,
    pub context_before: Seq<char>,
    pub context_after: Seq<char>,
    pub audio_start_ms: u64,
    pub audio_end_ms: u64,
    pub audio_path: Option<Seq<char>>,
}

impl View for Correction {
    type V = CorrectionView;

    open spec fn view(&self) -> CorrectionView {
        CorrectionView {
            original: self.original@,
            corrected: self.corrected@,
            timestamp_iso: self.timestamp_iso@,
            context_before: self.context_before@,
            context_after: self.context_after@,
            audio_start_ms: self.audio_start_ms,
            audio_end_ms: self.audio_end_ms,
            audio_path: match self.audio_path {
                Some(p) => Some(p@),
                None => None,
            },
        }
    }
}

/// Where corrections are kept.
pub trait CorrectionStore {
    fn record(&self, correction: Correction) -> Result<(), Failure>;

    fn recent(&self, limit: usize) -> Vec<Correction>;

    fn load(&mut self) -> Result<(), Failure>;

    fn save(&self) -> Result<(), Failure>;
}

} // verus!
