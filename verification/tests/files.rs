use chunked_rle::{
    encode_files, encode_files_in, encode_files_with, run_encoder, threaded_encode_files,
    EncodeError, BUFFER_SIZE,
};

fn expand(encoding: &[u8]) -> Vec<u8> {
    let mut bytes = Vec::new();
    for run in encoding.chunks(2) {
        bytes.extend(vec![run[0]; run[1] as usize]);
    }
    bytes
}

#[test]
fn one_pass_over_one_buffer() {
    let files: Vec<&[u8]> = vec![b"aaaaabbbbcccdda"];
    assert_eq!(
        run_encoder(&files, 1).unwrap(),
        [97, 5, 98, 4, 99, 3, 100, 2, 97, 1]
    );
}

#[test]
fn workers_over_one_buffer() {
    let files: Vec<&[u8]> = vec![b"aaaaabbbbcccdda"];
    assert_eq!(
        run_encoder(&files, 3).unwrap(),
        [97, 5, 98, 4, 99, 3, 100, 2, 97, 1]
    );
}

#[test]
fn zero_jobs_lets_the_pool_choose() {
    let files: Vec<&[u8]> = vec![b"aaaaabb", b"bbcccd", b"da"];
    assert_eq!(
        run_encoder(&files, 0).unwrap(),
        [97, 5, 98, 4, 99, 3, 100, 2, 97, 1]
    );
}

#[test]
fn no_buffers_no_output() {
    let files: Vec<&[u8]> = vec![];
    assert_eq!(run_encoder(&files, 1).unwrap(), Vec::<u8>::new());
    assert_eq!(run_encoder(&files, 2).unwrap(), Vec::<u8>::new());
}

#[test]
fn empty_buffer_changes_nothing() {
    let with: Vec<&[u8]> = vec![b"", b"aaaaabb", b"", b"bbcccd", b"da", b""];
    let without: Vec<&[u8]> = vec![b"aaaaabb", b"bbcccd", b"da"];
    assert_eq!(encode_files(&with), [97, 5, 98, 4, 99, 3, 100, 2, 97, 1]);
    assert_eq!(encode_files(&with), encode_files(&without));
    assert_eq!(
        threaded_encode_files(&with, 2).unwrap(),
        threaded_encode_files(&without, 2).unwrap()
    );
    assert_eq!(
        threaded_encode_files(&with, 2).unwrap(),
        [97, 5, 98, 4, 99, 3, 100, 2, 97, 1]
    );
}

#[test]
fn only_empty_buffers() {
    let files: Vec<&[u8]> = vec![b"", b""];
    assert_eq!(run_encoder(&files, 1).unwrap(), Vec::<u8>::new());
    assert_eq!(run_encoder(&files, 4).unwrap(), Vec::<u8>::new());
}

#[test]
fn cut_between_two_runs() {
    let mut buffer = vec![97u8; BUFFER_SIZE];
    buffer.extend(vec![98u8; 4]);
    let mut expected = Vec::new();
    for _ in 0..16 {
        expected.extend([97, 255]);
    }
    expected.extend([97, 16, 98, 4]);
    let files: Vec<&[u8]> = vec![&buffer];
    assert_eq!(threaded_encode_files(&files, 4).unwrap(), expected);
    assert_eq!(encode_files(&files), expected);
}

#[test]
fn cut_inside_a_run() {
    let mut buffer = vec![97u8; BUFFER_SIZE - 6];
    buffer.extend(vec![98u8; 10]);
    let mut expected = Vec::new();
    for _ in 0..16 {
        expected.extend([97, 255]);
    }
    expected.extend([97, 10, 98, 10]);
    let files: Vec<&[u8]> = vec![&buffer];
    assert_eq!(threaded_encode_files(&files, 4).unwrap(), expected);
    assert_eq!(encode_files(&files), expected);
}

#[test]
fn many_windows_come_back_in_order() {
    let mut buffer = Vec::new();
    for i in 0..10 * BUFFER_SIZE + 123 {
        buffer.push((i / 7 % 251) as u8);
    }
    let files: Vec<&[u8]> = vec![&buffer, &buffer[5..], b"zz"];
    let one_pass = run_encoder(&files, 1).unwrap();
    for jobs in [2u8, 3, 8, 64] {
        assert_eq!(run_encoder(&files, jobs).unwrap(), one_pass);
    }
    let mut bytes = buffer.clone();
    bytes.extend(&buffer[5..]);
    bytes.extend(b"zz");
    assert_eq!(expand(&one_pass), bytes);
    assert_eq!(&one_pass[..6], [0, 7, 1, 7, 2, 7]);
}

#[test]
fn pool_handed_in_by_the_caller() {
    let pool = rayon::ThreadPoolBuilder::new().num_threads(2).build().unwrap();
    let mut buffer = vec![1u8; BUFFER_SIZE + 1];
    buffer.push(2);
    let files: Vec<&[u8]> = vec![&buffer, b"\x02\x02"];
    let mut expected = Vec::new();
    for _ in 0..16 {
        expected.extend([1, 255]);
    }
    expected.extend([1, 17, 2, 3]);
    assert_eq!(encode_files_in(&pool, &files), expected);
    assert_eq!(encode_files_in(&pool, &files), expected);
}

#[test]
fn long_run_across_a_cut_keeps_every_byte() {
    let buffer = vec![97u8; 2 * BUFFER_SIZE];
    let files: Vec<&[u8]> = vec![&buffer];
    let mut one_pass = Vec::new();
    for _ in 0..32 {
        one_pass.extend([97, 255]);
    }
    one_pass.extend([97, 32]);
    assert_eq!(run_encoder(&files, 1).unwrap(), one_pass);
    let mut windowed = Vec::new();
    for _ in 0..17 {
        windowed.extend([97, 255]);
    }
    windowed.extend([97, 16]);
    for _ in 0..15 {
        windowed.extend([97, 255]);
    }
    windowed.extend([97, 16]);
    let threaded = run_encoder(&files, 2).unwrap();
    assert_eq!(threaded, windowed);
    assert_eq!(expand(&threaded), buffer);
}

#[test]
fn pool_that_did_not_start_is_reported() {
    let _ = rayon::ThreadPoolBuilder::new().num_threads(1).build_global();
    let failed = rayon::ThreadPoolBuilder::new().num_threads(1).build_global();
    let error = failed.unwrap_err();
    let files: Vec<&[u8]> = vec![b"aaaaabb", b"bbcccd", b"da"];
    assert_eq!(
        encode_files_with(Err(error), &files),
        Err(EncodeError::WorkerPool)
    );
}

#[test]
fn pool_that_started_is_used() {
    let started = rayon::ThreadPoolBuilder::new().num_threads(3).build();
    let files: Vec<&[u8]> = vec![b"aaaaabb", b"bbcccd", b"da"];
    assert_eq!(
        encode_files_with(started, &files),
        Ok(vec![97, 5, 98, 4, 99, 3, 100, 2, 97, 1])
    );
}

#[test]
fn neighbouring_runs_differ_without_long_runs() {
    let mut buffer = Vec::new();
    for i in 0..3 * BUFFER_SIZE {
        buffer.push((i / 200 % 3) as u8);
    }
    let files: Vec<&[u8]> = vec![&buffer[..5000], &buffer[5000..]];
    for jobs in [1u8, 4] {
        let output = run_encoder(&files, jobs).unwrap();
        assert_eq!(expand(&output), buffer);
        for k in 0..output.len() / 2 - 1 {
            assert_ne!(output[2 * k], output[2 * k + 2]);
        }
    }
}

#[test]
fn neighbouring_runs_share_a_symbol_only_after_a_full_run() {
    let mut buffer = vec![5u8; 700];
    buffer.extend(vec![6u8; 3]);
    buffer.extend(vec![5u8; 255]);
    let files: Vec<&[u8]> = vec![&buffer];
    let output = run_encoder(&files, 1).unwrap();
    assert_eq!(output, [5, 255, 5, 255, 5, 190, 6, 3, 5, 255]);
}
