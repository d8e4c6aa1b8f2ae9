use tlap::find_model_files;
use tlap::model::classify;
use tlap::model::FoundFile;
use tlap::model::ModelFileKind;
use tlap::TlapError;
use tlap::TranscriptionType;

#[test]
fn modes_have_a_long_and_a_short_name() {
    for word in ["postrecord", "POSTRECORD", "pr", "PR"] {
        assert_eq!(TranscriptionType::from_arg(word), TranscriptionType::PostRecord);
    }
    for word in ["realtime", "REALTIME", "rt", "RT"] {
        assert_eq!(TranscriptionType::from_arg(word), TranscriptionType::RealTime);
    }
}

#[test]
fn other_words_name_no_mode() {
    for word in ["", "Realtime", "PostRecord", "rT", "p", "realtime ", "live"] {
        assert_eq!(TranscriptionType::from_arg(word), TranscriptionType::Invalid);
    }
}

#[test]
fn errors_of_one_window_are_not_fatal() {
    for mode in [TranscriptionType::RealTime, TranscriptionType::PostRecord] {
        assert!(!TlapError::ModelLockFailed.is_fatal(mode));
        assert!(!TlapError::TranscriptionFailed.is_fatal(mode));
    }
}

#[test]
fn failed_write_ends_a_pass_but_not_a_live_session() {
    assert!(TlapError::WriteSubtitlesFailed.is_fatal(TranscriptionType::PostRecord));
    assert!(!TlapError::WriteSubtitlesFailed.is_fatal(TranscriptionType::RealTime));
}

#[test]
fn setup_errors_are_fatal() {
    let errors = [
        TlapError::AudioSplitFailed,
        TlapError::NoInputDevice,
        TlapError::CreateRecordingFailed,
        TlapError::NoInputStream,
        TlapError::NoSpeechModel,
        TlapError::InvalidSpeechModel,
        TlapError::ReadFileFailed,
    ];
    for error in errors {
        assert!(error.is_fatal(TranscriptionType::RealTime));
        assert!(error.is_fatal(TranscriptionType::PostRecord));
    }
}

#[test]
fn errors_print_their_names() {
    assert_eq!(format!("{:?}", TlapError::AudioSplitFailed), "AudioSplitFailed");
    assert_eq!(format!("{:?}", TlapError::WriteSubtitlesFailed), "WriteSubtitlesFailed");
}

fn file(path: &str, extension: Option<&str>) -> FoundFile {
    FoundFile { path: path.to_string(), extension: extension.map(|e| e.to_string()) }
}

#[test]
fn files_are_told_apart_by_extension() {
    assert_eq!(classify(&Some("tflite".to_string())), ModelFileKind::Model);
    assert_eq!(classify(&Some("scorer".to_string())), ModelFileKind::Scorer);
    assert_eq!(classify(&Some("TFLITE".to_string())), ModelFileKind::Other);
    assert_eq!(classify(&Some("txt".to_string())), ModelFileKind::Other);
    assert_eq!(classify(&Some(String::new())), ModelFileKind::Other);
    assert_eq!(classify(&None), ModelFileKind::Other);
}

#[test]
fn model_and_scorer_are_found() {
    let entries = vec![
        file("models/readme", None),
        file("models/english.tflite", Some("tflite")),
        file("models/notes.txt", Some("txt")),
        file("models/english.scorer", Some("scorer")),
    ];
    let files = find_model_files(&entries);
    assert_eq!(files.model_path, "models/english.tflite");
    assert_eq!(files.scorer_path, "models/english.scorer");
}

#[test]
fn the_file_listed_last_is_taken() {
    let entries = vec![
        file("a.tflite", Some("tflite")),
        file("a.scorer", Some("scorer")),
        file("b.tflite", Some("tflite")),
    ];
    let files = find_model_files(&entries);
    assert_eq!(files.model_path, "b.tflite");
    assert_eq!(files.scorer_path, "a.scorer");
}

#[test]
fn missing_files_give_empty_paths() {
    let files = find_model_files(&vec![file("x.txt", Some("txt"))]);
    assert_eq!(files.model_path, "");
    assert_eq!(files.scorer_path, "");
    let files = find_model_files(&Vec::new());
    assert_eq!(files.model_path, "");
    assert_eq!(files.scorer_path, "");
}
