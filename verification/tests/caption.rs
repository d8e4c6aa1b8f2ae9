use tlap::caption::window_length;
use tlap::caption::SAMPLES_PER_MS;
use tlap::speech::FOUR_SECONDS;
use tlap::speech::ROUND_SECONDS;
use tlap::speech::SAMPLE_RATE;
use tlap::segment;
use tlap::transcribe;
use tlap::write_all;
use tlap::Batch;
use tlap::Captioner;
use tlap::Heard;
use tlap::Period;
use tlap::RecognizerMode;
use tlap::Subtitle;

fn heard(samples: usize, text: &str) -> Heard {
    Heard { samples, text: Some(text.to_string()) }
}

fn failed(samples: usize) -> Heard {
    Heard { samples, text: None }
}

fn captions(entries: &[Subtitle]) -> Vec<String> {
    entries.iter().map(|e| e.caption().to_string()).collect()
}

#[test]
fn nine_seconds_end_to_end() {
    let buffer: Vec<i16> = (0..144000).map(|i| (i % 200) as i16 + 1).collect();
    let windows = segment(&buffer, 64000).unwrap();
    assert_eq!(windows.len(), 3);
    assert!(windows.iter().all(|w| w.len() == 64000));
    assert_eq!(&windows[2][..16000], &buffer[128000..]);
    assert!(windows[2][16000..].iter().all(|s| *s == 0));

    let answers = ["hi there", "hi there how", "hi there how are you"];
    let rounds: Vec<Heard> = windows
        .iter()
        .zip(answers)
        .map(|(window, answer)| heard(window.len(), answer))
        .collect();
    let entries = transcribe(RecognizerMode::Cumulative, &rounds);

    let shown = captions(&entries);
    assert_eq!(shown, vec!["hi", " there", " how are"]);
    assert_eq!(shown.concat(), "hi there how are");
    for word in ["hi", "there", "how", "are"] {
        assert_eq!(shown.iter().filter(|c| c.contains(word)).count(), 1);
    }
    assert!(!shown.concat().contains("you"));
    let numbers: Vec<usize> = entries.iter().map(|e| e.index()).collect();
    assert_eq!(numbers, vec![1, 2, 3]);
    let periods: Vec<Period> = entries.iter().map(|e| e.period()).collect();
    assert_eq!(
        periods,
        vec![Period::new(0, 4000), Period::new(4000, 8000), Period::new(8000, 12000)]
    );
    assert!(entries.iter().all(|e| e.is_valid()));
}

#[test]
fn per_window_answers_are_shown_as_they_are() {
    let rounds = vec![heard(32000, "hello world"), heard(16000, "how are you")];
    let entries = transcribe(RecognizerMode::PerWindow, &rounds);
    assert_eq!(captions(&entries), vec!["hello world", "how are you"]);
    assert_eq!(entries[0].period(), Period::new(0, 2000));
    assert_eq!(entries[1].period(), Period::new(2000, 3000));
    assert_eq!(entries[0].index(), 1);
    assert_eq!(entries[1].index(), 2);
}

#[test]
fn failed_window_is_skipped_and_the_rest_goes_on() {
    let rounds = vec![heard(1600, "one"), failed(1600), heard(1600, "three")];
    let entries = transcribe(RecognizerMode::PerWindow, &rounds);
    assert_eq!(captions(&entries), vec!["one", "three"]);
    assert_eq!(entries[0].index(), 1);
    assert_eq!(entries[1].index(), 2);
    assert_eq!(entries[0].period(), Period::new(0, 100));
    assert_eq!(entries[1].period(), Period::new(100, 200));
}

#[test]
fn empty_answer_gives_no_entry_and_takes_no_time() {
    let rounds = vec![heard(1600, ""), heard(3200, "late"), heard(1600, "")];
    let entries = transcribe(RecognizerMode::PerWindow, &rounds);
    assert_eq!(captions(&entries), vec!["late"]);
    assert_eq!(entries[0].index(), 1);
    assert_eq!(entries[0].period(), Period::new(0, 200));
}

#[test]
fn failed_window_does_not_disturb_the_reconciler() {
    let rounds = vec![heard(160, "so far "), failed(160), heard(160, "so far so good ")];
    let entries = transcribe(RecognizerMode::Cumulative, &rounds);
    assert_eq!(captions(&entries), vec!["so far", " so good"]);
}

#[test]
fn nothing_heard_gives_nothing() {
    assert!(transcribe(RecognizerMode::Cumulative, &Vec::new()).is_empty());
    assert!(transcribe(RecognizerMode::PerWindow, &vec![failed(10), failed(20)]).is_empty());
}

#[test]
fn caption_of_a_very_short_window_lasts_a_millisecond() {
    let rounds = vec![heard(15, "blip"), heard(0, "none"), heard(16, "one"), heard(33, "two")];
    let entries = transcribe(RecognizerMode::PerWindow, &rounds);
    let periods: Vec<Period> = entries.iter().map(|e| e.period()).collect();
    assert_eq!(
        periods,
        vec![Period::new(0, 1), Period::new(1, 2), Period::new(2, 3), Period::new(3, 5)]
    );
    assert!(entries.iter().all(|e| e.is_valid()));
}

#[test]
fn window_length_counts_sixteen_samples_to_the_millisecond() {
    assert_eq!(window_length(0), 1);
    assert_eq!(window_length(15), 1);
    assert_eq!(window_length(16), 1);
    assert_eq!(window_length(31), 1);
    assert_eq!(window_length(32), 2);
    assert_eq!(window_length(16000), 1000);
    assert_eq!(window_length(64000), 4000);
    assert_eq!(window_length(80000), 5000);
}

#[test]
fn caption_spans_the_time_of_its_window() {
    for samples in [16usize, 17, 1600, 16000, 63999, 64000, 64001, 144000, 1234567] {
        let entries = transcribe(RecognizerMode::PerWindow, &vec![heard(samples, "x")]);
        let period = entries[0].period();
        assert_eq!(period.end - period.begin, samples as u128 * 1000 / 16000);
    }
    assert_eq!(SAMPLES_PER_MS as u32 * 1000, SAMPLE_RATE);
    assert_eq!(window_length(FOUR_SECONDS), ROUND_SECONDS as u128 * 1000);
}

#[test]
fn batch_takes_a_recording_window_by_window() {
    let mut batch = Batch::new(RecognizerMode::PerWindow);
    assert_eq!(batch.written(), 0);
    assert_eq!(batch.clock(), 0);
    assert!(batch.has_room(64000));

    let first = batch.accept(64000, Some("first".to_string())).unwrap();
    assert_eq!(first.index(), 1);
    assert_eq!(first.period(), Period::new(0, 4000));
    assert_eq!(batch.clock(), 4000);

    assert!(batch.accept(64000, None).is_none());
    assert!(batch.accept(64000, Some(String::new())).is_none());
    assert_eq!(batch.clock(), 4000);
    assert_eq!(batch.written(), 1);

    let second = batch.accept(8000, Some("second".to_string())).unwrap();
    assert_eq!(second.index(), 2);
    assert_eq!(second.period(), Period::new(4000, 4500));
    assert_eq!(batch.clock(), 4500);
    assert_eq!(batch.written(), 2);
}

#[test]
fn batch_window_by_window_equals_transcribe() {
    let rounds = vec![
        heard(64000, "a b"),
        failed(100),
        heard(5, "a b c d"),
        heard(32000, "a b c d"),
        heard(48000, "a b c d e "),
    ];
    for mode in [RecognizerMode::Cumulative, RecognizerMode::PerWindow] {
        let whole = transcribe(mode, &rounds);
        let mut batch = Batch::new(mode);
        let mut stepwise = Vec::new();
        for round in &rounds {
            assert!(batch.has_room(round.samples));
            stepwise.extend(batch.accept(round.samples, round.text.clone()));
        }
        let texts = |entries: &[Subtitle]| -> Vec<String> {
            entries.iter().map(|e| e.to_string()).collect()
        };
        assert_eq!(texts(&whole), texts(&stepwise));
        assert!(!whole.is_empty());
    }
}

#[test]
fn transcribed_entries_are_written_in_order() {
    let rounds = vec![heard(64000, "first"), heard(64000, "second")];
    let entries = transcribe(RecognizerMode::PerWindow, &rounds);
    let mut file = String::new();
    write_all(&entries, &mut file);
    assert_eq!(
        file,
        "1\n00:00:00,000 --> 00:00:04,000\nfirst\n\n2\n00:00:04,000 --> 00:00:08,000\nsecond\n\n"
    );
}

#[test]
fn captioner_numbers_entries_from_one() {
    let mut captioner = Captioner::new(RecognizerMode::PerWindow);
    assert_eq!(captioner.written(), 0);
    assert_eq!(captioner.mode(), RecognizerMode::PerWindow);
    let first = captioner.caption(0, 4000, Some("a".to_string())).unwrap();
    assert_eq!(first.index(), 1);
    assert!(captioner.caption(4000, 8000, None).is_none());
    assert!(captioner.caption(4000, 8000, Some(String::new())).is_none());
    let second = captioner.caption(8000, 12000, Some("b".to_string())).unwrap();
    assert_eq!(second.index(), 2);
    assert_eq!(second.period(), Period::new(8000, 12000));
    assert_eq!(captioner.written(), 2);
}

#[test]
fn cumulative_captioner_holds_back_the_last_word() {
    let mut captioner = Captioner::new(RecognizerMode::Cumulative);
    assert!(captioner.caption(0, 1, Some("word".to_string())).is_none());
    let entry = captioner.caption(1, 2, Some("word by".to_string())).unwrap();
    assert_eq!(entry.caption(), "word");
    assert_eq!(entry.index(), 1);
    let entry = captioner.caption(2, 3, Some("word by word".to_string())).unwrap();
    assert_eq!(entry.caption(), " by");
    assert_eq!(entry.index(), 2);
}
