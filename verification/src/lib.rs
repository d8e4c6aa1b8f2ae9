//! Captioning core: cuts mono 16 kHz PCM audio into windows, keeps only the
//! words of a recognizer's evolving transcript that have settled, stamps them
//! with begin and end times and lays them out as SubRip blocks.
//!
//! Capturing audio, decoding containers and running the recognizer are left to
//! the caller; everything here works on samples, texts and millisecond values.
//!
//! - [`speech`] and [`window`] cut a sample buffer into windows;
//! - [`reconcile`] tells the settled part of a transcript from its unsettled
//!   last word;
//! - [`subtitle`] holds caption entries, their timestamps and their layout;
//! - [`caption`] turns the recognizer's answers into numbered entries;
//! - [`live`] decides what a live session does next and puts the entries of
//!   rounds that end out of order back in order;
//! - [`session`] and [`order`] state what holds of every live session;
//! - [`model`] picks the recognizer's files, [`enums`] names errors and modes.

pub mod caption;
pub mod enums;
pub mod live;
pub mod model;
pub mod order;
pub mod reconcile;
pub mod session;
pub mod speech;
pub mod subtitle;
pub mod window;

pub use caption::transcribe;
pub use caption::Batch;
pub use caption::Captioner;
pub use caption::Heard;
pub use caption::RecognizerMode;
pub use enums::TlapError;
pub use enums::TranscriptionType;
pub use live::Action;
pub use live::Arrival;
pub use live::Coordinator;
pub use live::Event;
pub use live::OrderedSink;
pub use live::Phase;
pub use model::find_model_files;
pub use reconcile::reconcile;
pub use reconcile::TranscriptState;
pub use speech::get_all_samples;
pub use speech::get_new_samples;
pub use speech::split_audio_lines;
pub use subtitle::format_time;
pub use subtitle::timestamp_for;
pub use subtitle::write_all;
pub use subtitle::Period;
pub use subtitle::Subtitle;
pub use window::segment;
