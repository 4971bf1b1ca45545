use chunked_rle::{plan_windows, BUFFER_SIZE};

#[test]
fn no_bytes_no_windows() {
    assert_eq!(plan_windows(0, 4096), Vec::<(usize, usize)>::new());
}

#[test]
fn short_buffer_is_one_window() {
    assert_eq!(plan_windows(15, 4096), [(0, 15)]);
}

#[test]
fn exact_multiple_has_no_short_window() {
    assert_eq!(plan_windows(12, 4), [(0, 4), (4, 8), (8, 12)]);
}

#[test]
fn last_window_is_cut_off() {
    assert_eq!(plan_windows(10, 4), [(0, 4), (4, 8), (8, 10)]);
}

#[test]
fn windows_of_one_byte() {
    assert_eq!(plan_windows(3, 1), [(0, 1), (1, 2), (2, 3)]);
}

#[test]
fn windows_tile_the_buffer() {
    let len = 3 * BUFFER_SIZE + 17;
    let windows = plan_windows(len, BUFFER_SIZE);
    assert_eq!(windows.len(), 4);
    assert_eq!(windows[0].0, 0);
    assert_eq!(windows[3], (3 * BUFFER_SIZE, len));
    for k in 0..windows.len() - 1 {
        assert_eq!(windows[k].1, windows[k + 1].0);
        assert_eq!(windows[k].1 - windows[k].0, BUFFER_SIZE);
    }
}

#[test]
fn largest_length_does_not_overflow() {
    let windows = plan_windows(usize::MAX, usize::MAX - 1);
    assert_eq!(windows, [(0, usize::MAX - 1), (usize::MAX - 1, usize::MAX)]);
}
