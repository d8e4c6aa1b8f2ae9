use tlap::Action;
use tlap::Arrival;
use tlap::Coordinator;
use tlap::Event;
use tlap::OrderedSink;
use tlap::Period;
use tlap::Phase;
use tlap::RecognizerMode;
use tlap::Subtitle;
use tlap::TlapError;
use tlap::write_all;

fn done(tick: usize, text: &str) -> Arrival {
    Arrival {
        tick,
        begin: (tick as u128 - 1) * 4000,
        end: tick as u128 * 4000,
        outcome: Ok(text.to_string()),
    }
}

fn gone(tick: usize, error: TlapError) -> Arrival {
    Arrival {
        tick,
        begin: (tick as u128 - 1) * 4000,
        end: tick as u128 * 4000,
        outcome: Err(error),
    }
}

fn numbers(entries: &[Subtitle]) -> Vec<usize> {
    entries.iter().map(|e| e.index()).collect()
}

fn shown(entries: &[Subtitle]) -> Vec<String> {
    entries.iter().map(|e| e.caption().to_string()).collect()
}

#[test]
fn rounds_that_end_out_of_order_are_written_in_order() {
    let mut sink = OrderedSink::new(RecognizerMode::PerWindow);
    let mut file = String::new();
    let mut written: Vec<Subtitle> = Vec::new();
    for tick in [3usize, 1, 5, 4, 2] {
        let released = sink.complete(done(tick, &format!("tick {}", tick)));
        write_all(&released, &mut file);
        written.extend(released);
    }
    assert_eq!(numbers(&written), vec![1, 2, 3, 4, 5]);
    assert_eq!(
        shown(&written),
        vec!["tick 1", "tick 2", "tick 3", "tick 4", "tick 5"]
    );
    let ends: Vec<u128> = written.iter().map(|e| e.period().end).collect();
    assert_eq!(ends, vec![4000, 8000, 12000, 16000, 20000]);
    assert!(written.windows(2).all(|w| w[0].period().end <= w[1].period().begin));
    assert_eq!(
        file,
        "1\n00:00:00,000 --> 00:00:04,000\ntick 1\n\n\
         2\n00:00:04,000 --> 00:00:08,000\ntick 2\n\n\
         3\n00:00:08,000 --> 00:00:12,000\ntick 3\n\n\
         4\n00:00:12,000 --> 00:00:16,000\ntick 4\n\n\
         5\n00:00:16,000 --> 00:00:20,000\ntick 5\n\n"
    );
    assert_eq!(sink.next_tick(), 6);
    assert_eq!(sink.waiting(), 0);
}

#[test]
fn every_order_of_four_rounds_gives_the_same_file() {
    let orders: Vec<Vec<usize>> = {
        let mut all = Vec::new();
        for a in 1..=4 {
            for b in 1..=4 {
                for c in 1..=4 {
                    for d in 1..=4 {
                        let order = vec![a, b, c, d];
                        let mut sorted = order.clone();
                        sorted.sort();
                        if sorted == vec![1, 2, 3, 4] {
                            all.push(order);
                        }
                    }
                }
            }
        }
        all
    };
    assert_eq!(orders.len(), 24);
    for order in orders {
        let mut sink = OrderedSink::new(RecognizerMode::PerWindow);
        let mut file = String::new();
        for tick in order {
            let round = if tick == 2 {
                gone(tick, TlapError::TranscriptionFailed)
            } else {
                done(tick, &format!("t{}", tick))
            };
            write_all(&sink.complete(round), &mut file);
        }
        assert_eq!(
            file,
            "1\n00:00:00,000 --> 00:00:04,000\nt1\n\n\
             2\n00:00:08,000 --> 00:00:12,000\nt3\n\n\
             3\n00:00:12,000 --> 00:00:16,000\nt4\n\n"
        );
    }
}

#[test]
fn early_round_waits_for_its_turn() {
    let mut sink = OrderedSink::new(RecognizerMode::PerWindow);
    assert!(sink.complete(done(2, "two")).is_empty());
    assert_eq!(sink.waiting(), 1);
    assert_eq!(sink.next_tick(), 1);
    let released = sink.complete(done(1, "one"));
    assert_eq!(shown(&released), vec!["one", "two"]);
    assert_eq!(sink.waiting(), 0);
    assert_eq!(sink.next_tick(), 3);
}

#[test]
fn round_in_turn_is_released_at_once() {
    let mut sink = OrderedSink::new(RecognizerMode::PerWindow);
    let released = sink.complete(done(1, "one"));
    assert_eq!(shown(&released), vec!["one"]);
    assert_eq!(released[0].period(), Period::new(0, 4000));
}

#[test]
fn failed_and_skipped_rounds_let_later_rounds_pass() {
    let mut sink = OrderedSink::new(RecognizerMode::PerWindow);
    assert!(sink.complete(done(3, "three")).is_empty());
    assert!(sink.complete(gone(1, TlapError::ModelLockFailed)).is_empty());
    let released = sink.complete(gone(2, TlapError::TranscriptionFailed));
    assert_eq!(shown(&released), vec!["three"]);
    assert_eq!(numbers(&released), vec![1]);
    assert_eq!(released[0].period(), Period::new(8000, 12000));
}

#[test]
fn round_whose_turn_has_passed_is_dropped() {
    let mut sink = OrderedSink::new(RecognizerMode::PerWindow);
    sink.complete(done(1, "one"));
    assert!(sink.complete(done(1, "again")).is_empty());
    assert_eq!(sink.next_tick(), 2);
    assert!(sink.complete(done(0, "never")).is_empty());
    assert_eq!(sink.next_tick(), 2);
    assert_eq!(sink.waiting(), 0);
}

#[test]
fn second_round_of_a_waiting_tick_is_dropped() {
    let mut sink = OrderedSink::new(RecognizerMode::PerWindow);
    assert!(sink.complete(done(2, "kept")).is_empty());
    assert!(sink.complete(done(2, "dropped")).is_empty());
    assert_eq!(sink.waiting(), 1);
    let released = sink.complete(done(1, "one"));
    assert_eq!(shown(&released), vec!["one", "kept"]);
}

#[test]
fn sink_reconciles_in_tick_order() {
    let mut sink = OrderedSink::new(RecognizerMode::Cumulative);
    assert!(sink.complete(done(2, "hello world ")).is_empty());
    assert!(sink.complete(done(3, "hello world today")).is_empty());
    let released = sink.complete(done(1, "hello "));
    assert_eq!(shown(&released), vec!["hello", " world"]);
    assert_eq!(numbers(&released), vec![1, 2]);
    assert_eq!(sink.next_tick(), 4);
}

#[test]
fn session_goes_from_idle_to_stopped() {
    let mut coordinator = Coordinator::new();
    assert_eq!(coordinator.phase(), Phase::Idle);
    assert_eq!(coordinator.step(Event::Tick { now_ms: 4000 }), Action::Nothing);
    assert_eq!(coordinator.step(Event::Start), Action::BeginCapture);
    assert_eq!(coordinator.phase(), Phase::Capturing);
    assert_eq!(coordinator.step(Event::Start), Action::Nothing);
    assert_eq!(
        coordinator.step(Event::Tick { now_ms: 4000 }),
        Action::Dispatch { tick: 1, begin_ms: 0, end_ms: 4000 }
    );
    assert_eq!(coordinator.phase(), Phase::Decoding);
    assert_eq!(coordinator.step(Event::DecodeFinished), Action::Nothing);
    assert_eq!(coordinator.phase(), Phase::Capturing);
    assert_eq!(
        coordinator.step(Event::Tick { now_ms: 8001 }),
        Action::Dispatch { tick: 2, begin_ms: 4000, end_ms: 8001 }
    );
    assert_eq!(coordinator.step(Event::StreamFailed), Action::Halt);
    assert_eq!(coordinator.phase(), Phase::Stopped);
    assert_eq!(coordinator.step(Event::Tick { now_ms: 12000 }), Action::Nothing);
    assert_eq!(coordinator.step(Event::Start), Action::Nothing);
    assert_eq!(coordinator.step(Event::DecodeFinished), Action::Nothing);
    assert_eq!(coordinator.step(Event::StreamFailed), Action::Nothing);
    assert_eq!(coordinator.phase(), Phase::Stopped);
    assert_eq!(coordinator.ticks(), 2);
}

#[test]
fn busy_recognizer_skips_the_round() {
    let mut coordinator = Coordinator::new();
    coordinator.step(Event::Start);
    assert_eq!(
        coordinator.step(Event::Tick { now_ms: 4000 }),
        Action::Dispatch { tick: 1, begin_ms: 0, end_ms: 4000 }
    );
    assert_eq!(
        coordinator.step(Event::Tick { now_ms: 8000 }),
        Action::Skip { tick: 2, begin_ms: 4000, end_ms: 8000 }
    );
    assert_eq!(
        coordinator.step(Event::Tick { now_ms: 12000 }),
        Action::Skip { tick: 3, begin_ms: 8000, end_ms: 12000 }
    );
    assert_eq!(coordinator.phase(), Phase::Decoding);
    assert_eq!(coordinator.step(Event::DecodeFinished), Action::Nothing);
    assert_eq!(
        coordinator.step(Event::Tick { now_ms: 16000 }),
        Action::Dispatch { tick: 4, begin_ms: 12000, end_ms: 16000 }
    );
}

#[test]
fn tick_without_progress_of_time_is_ignored() {
    let mut coordinator = Coordinator::new();
    coordinator.step(Event::Start);
    assert_eq!(coordinator.step(Event::Tick { now_ms: 0 }), Action::Nothing);
    coordinator.step(Event::Tick { now_ms: 4000 });
    coordinator.step(Event::DecodeFinished);
    assert_eq!(coordinator.step(Event::Tick { now_ms: 4000 }), Action::Nothing);
    assert_eq!(coordinator.step(Event::Tick { now_ms: 3999 }), Action::Nothing);
    assert_eq!(coordinator.ticks(), 1);
    assert_eq!(coordinator.phase(), Phase::Capturing);
}

#[test]
fn decode_finished_while_capturing_changes_nothing() {
    let mut coordinator = Coordinator::new();
    assert_eq!(coordinator.step(Event::DecodeFinished), Action::Nothing);
    assert_eq!(coordinator.phase(), Phase::Idle);
    coordinator.step(Event::Start);
    assert_eq!(coordinator.step(Event::DecodeFinished), Action::Nothing);
    assert_eq!(coordinator.phase(), Phase::Capturing);
}

#[test]
fn session_with_a_slow_round_writes_in_order() {
    let mut coordinator = Coordinator::new();
    let mut sink = OrderedSink::new(RecognizerMode::PerWindow);
    let mut file = String::new();
    coordinator.step(Event::Start);

    let first = coordinator.step(Event::Tick { now_ms: 4000 });
    let second = coordinator.step(Event::Tick { now_ms: 8000 });
    assert_eq!(second, Action::Skip { tick: 2, begin_ms: 4000, end_ms: 8000 });
    if let Action::Skip { tick, begin_ms, end_ms } = second {
        let round = Arrival::skipped(tick, begin_ms, end_ms);
        assert_eq!(round.outcome, Err(TlapError::ModelLockFailed));
        assert_eq!((round.tick, round.begin, round.end), (2, 4000, 8000));
        write_all(&sink.complete(round), &mut file);
    }
    assert_eq!(file, "");

    if let Action::Dispatch { tick, begin_ms, end_ms } = first {
        let round = Arrival { tick, begin: begin_ms, end: end_ms, outcome: Ok("slow".to_string()) };
        write_all(&sink.complete(round), &mut file);
    } else {
        panic!("the first tick was not dispatched");
    }
    coordinator.step(Event::DecodeFinished);

    if let Action::Dispatch { tick, begin_ms, end_ms } = coordinator.step(Event::Tick { now_ms: 12000 }) {
        let round = Arrival { tick, begin: begin_ms, end: end_ms, outcome: Ok("fast".to_string()) };
        write_all(&sink.complete(round), &mut file);
    } else {
        panic!("the third tick was not dispatched");
    }
    assert_eq!(
        file,
        "1\n00:00:00,000 --> 00:00:04,000\nslow\n\n2\n00:00:08,000 --> 00:00:12,000\nfast\n\n"
    );
}
