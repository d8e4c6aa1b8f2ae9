use tlap::segment;
use tlap::window::count_windows;
use tlap::window::window_at;
use tlap::TlapError;

fn ramp(len: usize) -> Vec<i16> {
    (0..len).map(|i| (i % 30000) as i16 + 1).collect()
}

#[test]
fn last_window_is_padded_with_zeros() {
    let buffer = ramp(100000);
    let windows = segment(&buffer, 64000).unwrap();
    assert_eq!(windows.len(), 2);
    assert_eq!(windows[0].len(), 64000);
    assert_eq!(windows[1].len(), 64000);
    assert_eq!(&windows[0][..], &buffer[..64000]);
    assert_eq!(&windows[1][..36000], &buffer[64000..]);
    assert!(windows[1][36000..].iter().all(|s| *s == 0));
    assert_eq!(windows[1][36000..].len(), 28000);
}

#[test]
fn windows_without_padding_give_the_buffer_back() {
    for (len, window_len) in [(0usize, 7usize), (1, 7), (6, 7), (7, 7), (8, 7), (50, 7), (49, 7), (5, 1)] {
        let buffer = ramp(len);
        let windows = segment(&buffer, window_len).unwrap();
        let expected = if len == 0 { 0 } else { (len + window_len - 1) / window_len };
        assert_eq!(windows.len(), expected);
        assert!(windows.iter().all(|w| w.len() == window_len));
        let mut joined: Vec<i16> = windows.concat();
        joined.truncate(len);
        assert_eq!(joined, buffer);
    }
}

#[test]
fn empty_buffer_has_no_windows() {
    let windows = segment(&Vec::new(), 64000).unwrap();
    assert!(windows.is_empty());
}

#[test]
fn exact_multiple_has_no_padding() {
    let buffer = ramp(128000);
    let windows = segment(&buffer, 64000).unwrap();
    assert_eq!(windows.len(), 2);
    assert_eq!(&windows[1][..], &buffer[64000..]);
}

#[test]
fn nine_seconds_give_three_windows() {
    let buffer = ramp(144000);
    let windows = segment(&buffer, 64000).unwrap();
    assert_eq!(windows.len(), 3);
    assert_eq!(&windows[2][..16000], &buffer[128000..]);
    assert_eq!(windows[2].len(), 64000);
    assert!(windows[2][16000..].iter().all(|s| *s == 0));
}

#[test]
fn window_length_zero_cannot_hold_samples() {
    let result = segment(&vec![1, 2, 3], 0);
    assert_eq!(result, Err(TlapError::AudioSplitFailed));
}

#[test]
fn window_length_zero_with_empty_buffer_is_no_error() {
    let result = segment(&Vec::new(), 0);
    assert_eq!(result, Ok(Vec::new()));
}

#[test]
fn count_windows_rounds_up() {
    assert_eq!(count_windows(0, 64000), 0);
    assert_eq!(count_windows(1, 64000), 1);
    assert_eq!(count_windows(64000, 64000), 1);
    assert_eq!(count_windows(64001, 64000), 2);
    assert_eq!(count_windows(100000, 64000), 2);
    assert_eq!(count_windows(144000, 64000), 3);
    assert_eq!(count_windows(10, 0), 0);
    assert_eq!(count_windows(usize::MAX, 1), usize::MAX);
    assert_eq!(count_windows(usize::MAX, usize::MAX), 1);
    assert_eq!(count_windows(usize::MAX, usize::MAX - 1), 2);
}

#[test]
fn window_at_gives_one_window_at_a_time() {
    let buffer = vec![1, 2, 3, 4, 5];
    assert_eq!(window_at(&buffer, 2, 0), Some(vec![1, 2]));
    assert_eq!(window_at(&buffer, 2, 1), Some(vec![3, 4]));
    assert_eq!(window_at(&buffer, 2, 2), Some(vec![5, 0]));
    assert_eq!(window_at(&buffer, 2, 3), None);
    assert_eq!(window_at(&buffer, 0, 0), None);
    assert_eq!(window_at(&Vec::new(), 2, 0), None);
}

#[test]
fn window_at_agrees_with_segment() {
    let buffer = ramp(23);
    let windows = segment(&buffer, 5).unwrap();
    for (k, window) in windows.iter().enumerate() {
        assert_eq!(window_at(&buffer, 5, k).as_ref(), Some(window));
    }
    assert_eq!(window_at(&buffer, 5, windows.len()), None);
}
