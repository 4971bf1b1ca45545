use chunked_rle::{
    encode_files, encode_mmap, merge_encodings, threaded_encode_files,
};

#[test]
fn test_encode_mmap() {
    let buffer: &[u8] = b"aaaaabbbbcccdda";

    assert_eq!(
        encode_mmap(buffer, 0, buffer.len()).unwrap(),
        [97, 5, 98, 4, 99, 3, 100, 2, 97, 1]
    );
}

#[test]
fn test_merge_encodings() {
    assert_eq!(
        merge_encodings(vec!(vec!(98, 4, 97, 1), vec!(97, 1, 98, 4))),
        [98, 4, 97, 2, 98, 4]
    );
}

#[test]
fn test_encode_files() {
    let files: Vec<&[u8]> = vec![b"aaaaabb", b"bbcccd", b"da"];

    assert_eq!(encode_files(&files), [97, 5, 98, 4, 99, 3, 100, 2, 97, 1]);
}

#[test]
fn test_threaded_encode_files() {
    let files: Vec<&[u8]> = vec![b"aaaaabb", b"bbcccd", b"da"];

    assert_eq!(
        threaded_encode_files(&files, 4).unwrap(),
        [97, 5, 98, 4, 99, 3, 100, 2, 97, 1]
    );
}
