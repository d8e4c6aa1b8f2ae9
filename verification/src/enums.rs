use vstd::prelude::*;

verus! {

/// Everything that can go wrong between the microphone and the subtitle file.
#[derive(Debug, Clone, Copy, PartialEq, Eq, Structural)]
pub enum TlapError {
    /// A window could not be cut to its declared length.
    AudioSplitFailed,
    /// No capture device is available.
    NoInputDevice,
    /// The live recording could not be created.
    CreateRecordingFailed,
    /// The capture stream could not be built.
    NoInputStream,
    /// No speech model could be found.
    NoSpeechModel,
    /// The speech model was found but could not be loaded.
    InvalidSpeechModel,
    /// The source audio could not be read.
    ReadFileFailed,
    /// The recognizer was busy with an earlier round.
    ModelLockFailed,
    /// The recognizer reported an error for a window.
    TranscriptionFailed,
    /// The subtitle file could not be written.
    WriteSubtitlesFailed,
}

/// How the audio reaches the recognizer.
#[derive(Debug, Clone, Copy, PartialEq, Eq, Structural)]
pub enum TranscriptionType {
    /// Neither of the two modes was asked for.
    Invalid,
    /// Live capture, captioned while it is being recorded.
    RealTime,
    /// A finished recording, captioned in one pass.
    PostRecord,
}

impl TlapError {
    /// Whether a run in the given mode cannot go on after this error.
    ///
    /// A busy recognizer and a failed transcription concern one window only:
    /// that window yields no caption and the next one is tried. A subtitle
    /// file that cannot be written ends a pass over a finished recording, but
    /// not a live session, whose later rounds may still succeed. Everything
    /// else ends the run.
    pub open spec fn fatal_in(self, mode: TranscriptionType) -> bool {
        match self {
            TlapError::ModelLockFailed => false,
            TlapError::TranscriptionFailed => false,
            TlapError::WriteSubtitlesFailed => mode != TranscriptionType::RealTime,
            _ => true,
        }
    }

    /// Whether a run in the given mode cannot go on after this error.
    pub fn is_fatal(&self, mode: TranscriptionType) -> (fatal: bool)
        ensures
            fatal == self.fatal_in(mode),
    {
        match self {
            TlapError::ModelLockFailed => false,
            TlapError::TranscriptionFailed => false,
            TlapError::WriteSubtitlesFailed => match mode {
                TranscriptionType::RealTime => false,
                _ => true,
            },
            _ => true,
        }
    }
}

/// Whether two texts are the same.
fn same_text(a: &str, b: &str) -> (same: bool)
    ensures
        same == (a@ == b@),
{
    a.to_owned() == b.to_owned()
}

impl TranscriptionType {
    /// The mode that a word on the command line asks for. Each mode has a
    /// long and a short name, in lower or in upper case.
    pub open spec fn named(word: Seq<char>) -> TranscriptionType {
        if word == "postrecord"@ || word == "POSTRECORD"@ || word == "pr"@ || word == "PR"@ {
            TranscriptionType::PostRecord
        } else if word == "realtime"@ || word == "REALTIME"@ || word == "rt"@ || word == "RT"@ {
            TranscriptionType::RealTime
        } else {
            TranscriptionType::Invalid
        }
    }

    /// The mode that a word on the command line asks for.
    pub fn from_arg(word: &str) -> (mode: TranscriptionType)
        ensures
            mode == TranscriptionType::named(word@),
    {
        if same_text(word, "postrecord") || same_text(word, "POSTRECORD") || same_text(word, "pr")
            || same_text(word, "PR") {
            TranscriptionType::PostRecord
        } else if same_text(word, "realtime") || same_text(word, "REALTIME") || same_text(
            word,
            "rt",
        ) || same_text(word, "RT") {
            TranscriptionType::RealTime
        } else {
            TranscriptionType::Invalid
        }
    }
}

} // verus!
