use tlap::reconcile;
use tlap::reconcile::find_last_space;
use tlap::TranscriptState;

fn run(texts: &[&str]) -> Vec<String> {
    let mut state = TranscriptState::new();
    texts
        .iter()
        .map(|text| reconcile(&mut state, text.to_string()))
        .collect()
}

#[test]
fn cumulative_texts_never_repeat_a_word() {
    let confirmed = run(&["hello ", "hello wor", "hello world ", "hello world today"]);
    assert_eq!(confirmed, vec!["hello", "", " world", ""]);
    let hellos = confirmed.iter().filter(|c| c.contains("hello")).count();
    assert_eq!(hellos, 1);
    assert_eq!(confirmed.concat(), "hello world");
}

#[test]
fn confirmed_texts_together_are_the_settled_part_of_the_last() {
    let texts = ["a", "a b", "a b ", "a b cd", "a b cd e f", "a b cd e f  g"];
    let confirmed = run(&texts);
    assert_eq!(confirmed.concat(), "a b cd e f ");
    assert_eq!(confirmed, vec!["", "a", " b", "", " cd e", " f "]);
}

#[test]
fn first_text_is_confirmed_up_to_its_last_space() {
    assert_eq!(run(&["hi there"]), vec!["hi"]);
    assert_eq!(run(&["hi there how"]), vec!["hi there"]);
}

#[test]
fn text_without_a_space_confirms_nothing() {
    assert_eq!(run(&["hello"]), vec![""]);
    assert_eq!(run(&["hel", "hello", "hello wor"]), vec!["", "", "hello"]);
    assert_eq!(run(&[""]), vec![""]);
}

#[test]
fn state_holds_the_text_seen_last() {
    let mut state = TranscriptState::new();
    assert_eq!(state.previous_text(), " ");
    reconcile(&mut state, "one two".to_string());
    assert_eq!(state.previous_text(), "one two");
    reconcile(&mut state, "x".to_string());
    assert_eq!(state.previous_text(), "x");
}

#[test]
fn shorter_text_after_a_reset_is_taken_as_given() {
    let mut state = TranscriptState::new();
    assert_eq!(reconcile(&mut state, "the quick brown fox".to_string()), "the quick brown");
    assert_eq!(reconcile(&mut state, "oh no".to_string()), "");
    assert_eq!(state.previous_text(), "oh no");
    assert_eq!(reconcile(&mut state, "oh no again".to_string()), " no");
}

#[test]
fn unrelated_text_is_cut_at_the_old_boundary() {
    let mut state = TranscriptState::new();
    reconcile(&mut state, "ab cd".to_string());
    assert_eq!(reconcile(&mut state, "wxyz 12 34".to_string()), "yz 12");
}

#[test]
fn positions_count_characters_not_bytes() {
    let mut state = TranscriptState::new();
    assert_eq!(reconcile(&mut state, "héllo wörld".to_string()), "héllo");
    assert_eq!(reconcile(&mut state, "héllo wörld ünd".to_string()), " wörld");
}

#[test]
fn find_last_space_examples() {
    assert_eq!(find_last_space(""), None);
    assert_eq!(find_last_space("abc"), None);
    assert_eq!(find_last_space(" "), Some(0));
    assert_eq!(find_last_space("a b c"), Some(3));
    assert_eq!(find_last_space("a b c "), Some(5));
    assert_eq!(find_last_space("é é"), Some(1));
}

#[test]
fn same_text_again_confirms_nothing() {
    assert_eq!(run(&["one two three", "one two three"]), vec!["one two", ""]);
    assert_eq!(run(&["a b ", "a b ", "a b "]), vec!["a b", "", ""]);
    assert_eq!(run(&[" ", " "]), vec!["", ""]);
}
