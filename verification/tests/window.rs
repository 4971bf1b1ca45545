use chunked_rle::{encode_mmap, encode_partial, encode_window, EncodeError};

#[test]
fn single_byte_is_one_run() {
    assert_eq!(encode_window(&[7]).unwrap(), [7, 1]);
}

#[test]
fn runs_alternate() {
    assert_eq!(
        encode_window(b"aabbbac").unwrap(),
        [97, 2, 98, 3, 97, 1, 99, 1]
    );
}

#[test]
fn empty_window_is_an_error() {
    assert_eq!(encode_window(&[]), Err(EncodeError::EmptyInput));
}

#[test]
fn run_of_255_is_one_run() {
    let window = vec![9u8; 255];
    assert_eq!(encode_window(&window).unwrap(), [9, 255]);
}

#[test]
fn run_of_256_is_split() {
    let window = vec![9u8; 256];
    assert_eq!(encode_window(&window).unwrap(), [9, 255, 9, 1]);
}

#[test]
fn run_of_510_is_two_full_runs() {
    let window = vec![0u8; 510];
    assert_eq!(encode_window(&window).unwrap(), [0, 255, 0, 255]);
}

#[test]
fn run_of_511_leaves_a_rest_of_one() {
    let window = vec![0u8; 511];
    assert_eq!(encode_window(&window).unwrap(), [0, 255, 0, 255, 0, 1]);
}

#[test]
fn long_run_between_other_bytes() {
    let mut window = vec![1u8];
    window.extend(vec![2u8; 300]);
    window.push(3);
    assert_eq!(
        encode_window(&window).unwrap(),
        [1, 1, 2, 255, 2, 45, 3, 1]
    );
}

#[test]
fn window_in_the_middle_of_a_buffer() {
    let buffer: &[u8] = b"aaaaabbbbcccdda";
    assert_eq!(encode_mmap(buffer, 3, 10).unwrap(), [97, 2, 98, 4, 99, 1]);
}

#[test]
fn window_is_cut_off_at_the_end_of_the_buffer() {
    let buffer: &[u8] = b"aaaaabbbbcccdda";
    assert_eq!(
        encode_mmap(buffer, 12, 12 + 4096).unwrap(),
        [100, 2, 97, 1]
    );
}

#[test]
fn window_without_bytes_is_an_error() {
    let buffer: &[u8] = b"abc";
    assert_eq!(encode_mmap(buffer, 2, 2), Err(EncodeError::EmptyInput));
    assert_eq!(encode_mmap(buffer, 3, 9), Err(EncodeError::EmptyInput));
    assert_eq!(encode_mmap(buffer, 7, 9), Err(EncodeError::EmptyInput));
    assert_eq!(encode_mmap(buffer, 2, 1), Err(EncodeError::EmptyInput));
    assert_eq!(encode_mmap(&[], 0, 0), Err(EncodeError::EmptyInput));
}

#[test]
fn partial_of_an_empty_window_is_empty() {
    let buffer: &[u8] = b"abc";
    assert_eq!(encode_partial(buffer, 3, 9), Vec::<u8>::new());
    assert_eq!(encode_partial(&[], 0, 0), Vec::<u8>::new());
    assert_eq!(encode_partial(buffer, 1, 3), [98, 1, 99, 1]);
}
