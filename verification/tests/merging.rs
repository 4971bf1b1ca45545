use chunked_rle::{encode_window, merge_encodings};

fn encoded(window: &[u8]) -> Vec<u8> {
    encode_window(window).unwrap()
}

#[test]
fn nothing_to_merge() {
    assert_eq!(merge_encodings(vec![]), Vec::<u8>::new());
}

#[test]
fn one_encoding_is_kept() {
    assert_eq!(merge_encodings(vec![vec![5, 3, 6, 1]]), [5, 3, 6, 1]);
}

#[test]
fn different_symbols_at_the_cut_are_appended() {
    assert_eq!(
        merge_encodings(vec![vec![1, 2], vec![2, 2], vec![3, 9]]),
        [1, 2, 2, 2, 3, 9]
    );
}

#[test]
fn same_symbol_at_the_cut_is_added_up() {
    assert_eq!(
        merge_encodings(vec![vec![1, 2], vec![1, 3, 4, 1]]),
        [1, 5, 4, 1]
    );
}

#[test]
fn sum_of_255_stays_one_run() {
    assert_eq!(merge_encodings(vec![vec![1, 200], vec![1, 55]]), [1, 255]);
}

#[test]
fn sum_over_255_is_split() {
    assert_eq!(
        merge_encodings(vec![vec![1, 200], vec![1, 56, 2, 1]]),
        [1, 255, 1, 1, 2, 1]
    );
}

#[test]
fn two_full_runs_stay_two_full_runs() {
    assert_eq!(
        merge_encodings(vec![vec![1, 255], vec![1, 255]]),
        [1, 255, 1, 255]
    );
}

#[test]
fn empty_encodings_are_skipped() {
    assert_eq!(
        merge_encodings(vec![
            vec![],
            vec![98, 4, 97, 1],
            vec![],
            vec![],
            vec![97, 1, 98, 4],
            vec![]
        ]),
        [98, 4, 97, 2, 98, 4]
    );
}

#[test]
fn half_a_run_is_skipped() {
    assert_eq!(merge_encodings(vec![vec![1, 2], vec![1], vec![1, 2]]), [1, 4]);
}

#[test]
fn run_cut_in_three() {
    assert_eq!(
        merge_encodings(vec![vec![7, 1], vec![7, 1], vec![7, 1]]),
        [7, 3]
    );
}

#[test]
fn merge_of_windows_is_encoding_of_buffer() {
    let buffer: &[u8] = b"aaaaabbbbcccdda";
    let whole = encoded(buffer);
    assert_eq!(whole, [97, 5, 98, 4, 99, 3, 100, 2, 97, 1]);
    for cut in 1..buffer.len() {
        let parts = vec![encoded(&buffer[..cut]), encoded(&buffer[cut..])];
        assert_eq!(merge_encodings(parts), whole);
    }
}

#[test]
fn merge_of_three_windows_is_encoding_of_buffer() {
    let buffer: &[u8] = b"aaaaabbbbcccdda";
    let whole = encoded(buffer);
    for first in 1..buffer.len() - 1 {
        for second in first + 1..buffer.len() {
            let parts = vec![
                encoded(&buffer[..first]),
                encoded(&buffer[first..second]),
                encoded(&buffer[second..]),
            ];
            assert_eq!(merge_encodings(parts), whole);
        }
    }
}

#[test]
fn long_run_before_the_cut() {
    let buffer = vec![4u8; 400];
    let parts = vec![encoded(&buffer[..300]), encoded(&buffer[300..])];
    assert_eq!(merge_encodings(parts), [4, 255, 4, 145]);
    assert_eq!(encoded(&buffer), [4, 255, 4, 145]);
}

#[test]
fn long_run_after_a_cut_at_a_full_run() {
    let buffer = vec![4u8; 255 + 300];
    let parts = vec![encoded(&buffer[..255]), encoded(&buffer[255..])];
    assert_eq!(merge_encodings(parts), [4, 255, 4, 255, 4, 45]);
    assert_eq!(encoded(&buffer), [4, 255, 4, 255, 4, 45]);
}

#[test]
fn long_run_after_the_cut_keeps_every_byte() {
    let buffer = vec![4u8; 500];
    let parts = vec![encoded(&buffer[..200]), encoded(&buffer[200..])];
    assert_eq!(parts[1], [4, 255, 4, 45]);
    assert_eq!(merge_encodings(parts), [4, 255, 4, 200, 4, 45]);
    assert_eq!(encoded(&buffer), [4, 255, 4, 245]);
}
