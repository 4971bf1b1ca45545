//! The file aggregator: encodes every buffer, whole or window by window,
//! and merges the encodings in the order of the buffers.

use crate::error::EncodeError;
use crate::flaws::{
    lemma_merge_carries_flaw, lemma_merge_flaw_inside, lemma_merge_flaw_origin, lemma_span_is_len,
    span,
};
use crate::merge::{
    all_stitch, concat, decode_each, encode_each, lemma_merge_decodes, lemma_merge_differs,
    lemma_merge_encodes_concat, lemma_merge_skips_empty, lemma_short_runs_merge,
    lemma_short_runs_stitch, merge_all, merge_encodings, stitches, views,
};
use crate::plan::{
    lemma_windows_tile, plan_windows, window_end, window_start, window_total, BUFFER_SIZE,
};
use crate::runs::{
    canonical, decode, lemma_rle_sound, lemma_short_runs_window, maximal, rle, short_runs,
    well_formed,
};
use crate::window::{encode_partial, window_of};
use crate::workers::{map_windows, start_pool};
use vstd::prelude::*;

verus! {

/// The contents of a list of buffers.
pub open spec fn contents(files: Seq<&[u8]>) -> Seq<Seq<u8>> {
    files.map_values(|file: &[u8]| file@)
}

/// The windows of `size` bytes that `file` is cut into.
pub open spec fn chunks(file: Seq<u8>, size: int) -> Seq<Seq<u8>> {
    Seq::new(
        window_total(file.len() as int, size) as nat,
        |k: int| file.subrange(window_start(size, k), window_end(file.len() as int, size, k)),
    )
}

/// The encoding of `file` when its windows of `size` bytes are encoded one
/// by one and merged.
pub open spec fn chunked_encoding(file: Seq<u8>, size: int) -> Seq<u8> {
    merge_all(encode_each(chunks(file, size)))
}

/// The output for `files` when each is encoded as one window.
pub open spec fn serial_output(files: Seq<Seq<u8>>) -> Seq<u8> {
    merge_all(encode_each(files))
}

/// The output for `files` when each is encoded in windows of `size` bytes.
pub open spec fn threaded_output(files: Seq<Seq<u8>>, size: int) -> Seq<u8> {
    merge_all(files.map_values(|file: Seq<u8>| chunked_encoding(file, size)))
}

/// Every cut that the planner makes in `file` stitches: the bytes before
/// the cut stitch to the window that starts there.
pub open spec fn cuts_stitch(file: Seq<u8>, size: int) -> bool {
    forall|k: int|
        0 <= k < window_total(file.len() as int, size) ==> stitches(
            file.take(#[trigger] window_start(size, k)),
            file.subrange(window_start(size, k), window_end(file.len() as int, size, k)),
        )
}

/// Encodes every buffer as a single window and merges the encodings in
/// the order of the buffers.
pub fn encode_files(files: &Vec<&[u8]>) -> (output: Vec<u8>)
    ensures
        output@ == serial_output(contents(files@)),
{
    let mut partials: Vec<Vec<u8>> = Vec::new();
    let mut i: usize = 0;
    while i < files.len()
        invariant
            i <= files@.len(),
            partials@.len() == i,
            views(partials@) == encode_each(contents(files@).take(i as int)),
        decreases files@.len() - i,
    {
        let file: &[u8] = files[i];
        let enc = encode_partial(file, 0, file.len());
        proof {
            assert(window_of(file@, 0, file@.len() as int) =~= file@);
        }
        let ghost before = partials@;
        partials.push(enc);
        proof {
            let wanted = encode_each(contents(files@).take(i + 1));
            assert forall|k: int| 0 <= k < wanted.len() implies views(partials@)[k]
                == wanted[k] by {
                if k < i {
                    assert(views(before)[k] == encode_each(contents(files@).take(i as int))[k]);
                }
            }
            assert(views(partials@) =~= wanted);
        }
        i = i + 1;
    }
    proof {
        assert(contents(files@).take(files@.len() as int) =~= contents(files@));
    }
    merge_encodings(partials)
}

/// Encodes one buffer window by window on the workers of `pool` and merges
/// the encodings in the order of the windows.
fn encode_chunked(pool: &rayon::ThreadPool, file: &[u8]) -> (output: Vec<u8>)
    ensures
        output@ == chunked_encoding(file@, BUFFER_SIZE as int),
{
    let windows = plan_windows(file.len(), BUFFER_SIZE);
    let encode = |w: &(usize, usize)| -> (enc: Vec<u8>)
        ensures
            enc@ == rle(window_of(file@, w.0 as int, w.1 as int)),
        { encode_partial(file, w.0, w.1) };
    let parts = map_windows(pool, &windows, encode);
    proof {
        let size = BUFFER_SIZE as int;
        let len = file@.len() as int;
        lemma_windows_tile(len, size);
        assert(views(parts@) =~= encode_each(chunks(file@, size))) by {
            assert forall|k: int| 0 <= k < parts@.len() implies views(parts@)[k] == encode_each(
                chunks(file@, size),
            )[k] by {
                assert(call_ensures(encode, (&windows@[k],), parts@[k]));
                assert(windows@[k].0 == window_start(size, k));
                assert(windows@[k].1 == window_end(len, size, k));
            }
        }
    }
    merge_encodings(parts)
}

/// Encodes every buffer window by window on the workers of `pool`, and
/// merges the encodings in the order of the buffers.
pub fn encode_files_in(pool: &rayon::ThreadPool, files: &Vec<&[u8]>) -> (output: Vec<u8>)
    ensures
        output@ == threaded_output(contents(files@), BUFFER_SIZE as int),
{
    let mut partials: Vec<Vec<u8>> = Vec::new();
    let mut i: usize = 0;
    let ghost wanted = contents(files@).map_values(
        |file: Seq<u8>| chunked_encoding(file, BUFFER_SIZE as int),
    );
    while i < files.len()
        invariant
            i <= files@.len(),
            partials@.len() == i,
            wanted == contents(files@).map_values(
                |file: Seq<u8>| chunked_encoding(file, BUFFER_SIZE as int),
            ),
            views(partials@) == wanted.take(i as int),
        decreases files@.len() - i,
    {
        let file: &[u8] = files[i];
        let enc = encode_chunked(pool, file);
        let ghost before = partials@;
        partials.push(enc);
        proof {
            assert forall|k: int| 0 <= k < i + 1 implies views(partials@)[k] == wanted[k] by {
                if k < i {
                    assert(views(before)[k] == wanted.take(i as int)[k]);
                }
            }
            assert(views(partials@) =~= wanted.take(i + 1));
        }
        i = i + 1;
    }
    proof {
        assert(wanted.take(files@.len() as int) =~= wanted);
    }
    merge_encodings(partials)
}

/// Encodes the buffers window by window on the pool that was started for
/// them, or reports that none was.
pub fn encode_files_with(
    started: Result<rayon::ThreadPool, rayon::ThreadPoolBuildError>,
    files: &Vec<&[u8]>,
) -> (result: Result<Vec<u8>, EncodeError>)
    ensures
        result is Ok <==> started is Ok,
        result matches Ok(output) ==> output@ == threaded_output(
            contents(files@),
            BUFFER_SIZE as int,
        ),
        result matches Err(e) ==> e == EncodeError::WorkerPool,
{
    match started {
        Ok(pool) => Ok(encode_files_in(&pool, files)),
        Err(_) => Err(EncodeError::WorkerPool),
    }
}

/// Encodes the buffers window by window on a pool of `jobs` workers that
/// lives for this call. Whether the pool starts is up to the machine; where
/// it does not, nothing is encoded.
pub fn threaded_encode_files(files: &Vec<&[u8]>, jobs: u8) -> (result: Result<
    Vec<u8>,
    EncodeError,
>)
    ensures
        result matches Ok(output) ==> output@ == threaded_output(
            contents(files@),
            BUFFER_SIZE as int,
        ),
        result matches Err(e) ==> e == EncodeError::WorkerPool,
{
    encode_files_with(start_pool(jobs as usize), files)
}

/// Encodes the buffers, in one pass each where `jobs` is 1 and on a pool of
/// `jobs` workers otherwise, and returns the bytes of the encoded stream.
pub fn run_encoder(files: &Vec<&[u8]>, jobs: u8) -> (result: Result<Vec<u8>, EncodeError>)
    ensures
        jobs == 1 ==> result is Ok,
        result matches Ok(output) ==> output@ == if jobs == 1 {
            serial_output(contents(files@))
        } else {
            threaded_output(contents(files@), BUFFER_SIZE as int)
        },
        result matches Err(e) ==> e == EncodeError::WorkerPool,
{
    if jobs == 1 {
        Ok(encode_files(files))
    } else {
        threaded_encode_files(files, jobs)
    }
}

/// The first `j` windows of a buffer, laid end to end, are the bytes of the
/// buffer up to the start of the next window.
proof fn lemma_chunks_prefix(file: Seq<u8>, size: int, j: int)
    requires
        0 < size,
        0 <= j <= window_total(file.len() as int, size),
    ensures
        concat(chunks(file, size).take(j)) == file.take(
            if j < window_total(file.len() as int, size) {
                window_start(size, j)
            } else {
                file.len() as int
            },
        ),
    decreases j,
{
    let len = file.len() as int;
    let all = chunks(file, size);
    lemma_windows_tile(len, size);
    if j == 0 {
        assert(concat(all.take(0)) =~= file.take(0));
    } else {
        lemma_chunks_prefix(file, size, j - 1);
        assert(all.take(j).drop_last() =~= all.take(j - 1));
        assert(all.take(j).last() == file.subrange(
            window_start(size, j - 1),
            window_end(len, size, j - 1),
        ));
        assert(file.take(window_start(size, j - 1)) + file.subrange(
            window_start(size, j - 1),
            window_end(len, size, j - 1),
        ) =~= file.take(window_end(len, size, j - 1)));
    }
}

/// The windows of a buffer, laid end to end, are the buffer.
pub proof fn lemma_chunks_concat(file: Seq<u8>, size: int)
    requires
        0 < size,
    ensures
        concat(chunks(file, size)) == file,
{
    let all = chunks(file, size);
    lemma_windows_tile(file.len() as int, size);
    lemma_chunks_prefix(file, size, all.len() as int);
    assert(all.take(all.len() as int) =~= all);
    assert(file.take(file.len() as int) =~= file);
}

/// The planner's cuts in a buffer stitch exactly when its windows do.
proof fn lemma_cuts_are_windows(file: Seq<u8>, size: int)
    requires
        0 < size,
    ensures
        cuts_stitch(file, size) <==> all_stitch(chunks(file, size)),
{
    let len = file.len() as int;
    let all = chunks(file, size);
    lemma_windows_tile(len, size);
    assert forall|k: int| 0 <= k < all.len() implies concat(#[trigger] all.take(k)) == file.take(
        window_start(size, k),
    ) by {
        lemma_chunks_prefix(file, size, k);
    }
    if cuts_stitch(file, size) {
        assert forall|k: int| 0 <= k < all.len() implies stitches(
            concat(#[trigger] all.take(k)),
            all[k],
        ) by {
            assert(stitches(
                file.take(window_start(size, k)),
                file.subrange(window_start(size, k), window_end(len, size, k)),
            ));
        }
    }
    if all_stitch(all) {
        assert forall|k: int| 0 <= k < window_total(len, size) implies stitches(
            file.take(#[trigger] window_start(size, k)),
            file.subrange(window_start(size, k), window_end(len, size, k)),
        ) by {
            assert(stitches(concat(all.take(k)), all[k]));
        }
    }
}

/// Encoding a buffer window by window gives the encoding of the whole
/// buffer exactly when every cut of the planner stitches.
pub proof fn lemma_chunked_is_whole(file: Seq<u8>, size: int)
    requires
        0 < size,
    ensures
        cuts_stitch(file, size) <==> chunked_encoding(file, size) == rle(file),
{
    lemma_cuts_are_windows(file, size);
    lemma_chunks_concat(file, size);
    if all_stitch(chunks(file, size)) {
        lemma_merge_encodes_concat(chunks(file, size));
    } else {
        lemma_merge_differs(chunks(file, size));
    }
}

/// Concurrency equivalence: encoding window by window gives the output
/// that encoding each buffer in one pass gives, where every cut of the
/// planner stitches.
pub proof fn lemma_threaded_equals_serial(files: Seq<Seq<u8>>, size: int)
    requires
        0 < size,
        forall|i: int| 0 <= i < files.len() ==> cuts_stitch(#[trigger] files[i], size),
    ensures
        threaded_output(files, size) == serial_output(files),
{
    let chunked = files.map_values(|file: Seq<u8>| chunked_encoding(file, size));
    assert forall|i: int| 0 <= i < files.len() implies chunked[i] == encode_each(files)[i] by {
        assert(cuts_stitch(files[i], size));
        lemma_chunked_is_whole(files[i], size);
    }
    assert(chunked =~= encode_each(files));
}

/// Encoding a buffer window by window loses no byte and counts none
/// twice, whether its cuts stitch or not.
pub proof fn lemma_chunked_decodes(file: Seq<u8>, size: int)
    requires
        0 < size,
    ensures
        well_formed(chunked_encoding(file, size)),
        decode(chunked_encoding(file, size)) == file,
{
    let windows = chunks(file, size);
    assert forall|i: int| 0 <= i < windows.len() implies well_formed(
        #[trigger] encode_each(windows)[i],
    ) by {
        lemma_rle_sound(windows[i]);
    }
    lemma_merge_decodes(encode_each(windows));
    assert(decode_each(encode_each(windows)) =~= windows) by {
        assert forall|i: int| 0 <= i < windows.len() implies decode_each(encode_each(windows))[i]
            == windows[i] by {
            lemma_rle_sound(windows[i]);
        }
    }
    lemma_chunks_concat(file, size);
}

/// The more buffers are laid end to end, the longer the result.
proof fn lemma_concat_grows(files: Seq<Seq<u8>>, fewer: int, more: int)
    requires
        0 <= fewer <= more <= files.len(),
    ensures
        concat(files.take(fewer)).len() <= concat(files.take(more)).len(),
    decreases more - fewer,
{
    if fewer < more {
        lemma_concat_grows(files, fewer, more - 1);
        assert(files.take(more).drop_last() =~= files.take(more - 1));
    }
}

/// The condition of concurrency equivalence leaves out no more than it has
/// to: where some cut of the planner does not stitch, encoding window by
/// window gives another output than encoding each buffer in one pass,
/// whatever the other buffers hold.
pub proof fn lemma_threaded_differs(files: Seq<Seq<u8>>, size: int, at: int)
    requires
        0 < size,
        0 <= at < files.len(),
        !cuts_stitch(files[at], size),
    ensures
        threaded_output(files, size) != serial_output(files),
{
    let chunked = files.map_values(|file: Seq<u8>| chunked_encoding(file, size));
    let whole = encode_each(files);
    assert forall|i: int| 0 <= i < files.len() implies well_formed(#[trigger] chunked[i])
        && decode(chunked[i]) == files[i] by {
        lemma_chunked_decodes(files[i], size);
    }
    assert forall|i: int| 0 <= i < files.len() implies canonical(#[trigger] whole[i]) && decode(
        whole[i],
    ) == files[i] by {
        lemma_rle_sound(files[i]);
    }
    lemma_cuts_are_windows(files[at], size);
    lemma_chunks_concat(files[at], size);
    let (k, j) = lemma_merge_flaw_inside(chunks(files[at], size));
    let inside = concat(chunks(files[at], size).take(j)).len();
    let moved = lemma_merge_carries_flaw(chunked, at, k);
    assert(span(merge_all(chunked.take(at))) == concat(files.take(at)).len()) by {
        let front = chunked.take(at);
        assert forall|i: int| 0 <= i < front.len() implies well_formed(#[trigger] front[i]) by {
            assert(front[i] == chunked[i]);
        }
        lemma_merge_decodes(front);
        lemma_span_is_len(merge_all(front));
        assert(decode_each(front) =~= files.take(at));
    }
    if threaded_output(files, size) == serial_output(files) {
        let cut = lemma_merge_flaw_origin(whole, moved);
        assert(span(merge_all(whole.take(cut))) == concat(files.take(cut)).len()) by {
            let front = whole.take(cut);
            assert forall|i: int| 0 <= i < front.len() implies well_formed(
                #[trigger] front[i],
            ) by {
                assert(front[i] == whole[i]);
            }
            lemma_merge_decodes(front);
            lemma_span_is_len(merge_all(front));
            assert(decode_each(front) =~= files.take(cut));
        }
        if cut <= at {
            lemma_concat_grows(files, cut, at);
        } else {
            lemma_concat_grows(files, at + 1, cut);
            assert(files.take(at + 1).drop_last() =~= files.take(at));
        }
    }
}

/// In bytes without a stretch of more than 255 copies of one byte, every
/// cut of the planner stitches.
pub proof fn lemma_short_runs_cuts(file: Seq<u8>, size: int)
    requires
        0 < size,
        short_runs(file),
    ensures
        cuts_stitch(file, size),
{
    let len = file.len() as int;
    lemma_windows_tile(len, size);
    assert forall|k: int| 0 <= k < window_total(len, size) implies stitches(
        file.take(#[trigger] window_start(size, k)),
        file.subrange(window_start(size, k), window_end(len, size, k)),
    ) by {
        assert(0 <= window_start(size, k) < window_end(len, size, k) <= len);
        lemma_short_runs_window(file, window_start(size, k), window_end(len, size, k));
    }
}

/// For buffers that, laid end to end, hold no stretch of more than 255
/// copies of one byte, the output is the encoding of the buffers laid end
/// to end, in one pass or window by window, and no two neighbouring runs
/// of it carry the same symbol.
pub proof fn lemma_short_runs_output(files: Seq<Seq<u8>>, size: int)
    requires
        0 < size,
        short_runs(concat(files)),
    ensures
        serial_output(files) == rle(concat(files)),
        threaded_output(files, size) == rle(concat(files)),
        maximal(rle(concat(files))),
{
    lemma_short_runs_merge(files);
    lemma_short_runs_stitch(files);
    assert forall|i: int| 0 <= i < files.len() implies cuts_stitch(#[trigger] files[i], size) by {
        lemma_short_runs_cuts(files[i], size);
    }
    lemma_threaded_equals_serial(files, size);
}

/// A buffer without a byte changes nothing in the output, in one pass or
/// window by window.
pub proof fn lemma_empty_file_skipped(files: Seq<Seq<u8>>, size: int, i: int)
    requires
        0 < size,
        0 <= i < files.len(),
        files[i].len() == 0,
    ensures
        serial_output(files) == serial_output(files.remove(i)),
        threaded_output(files, size) == threaded_output(files.remove(i), size),
{
    let whole = encode_each(files);
    let chunked = files.map_values(|file: Seq<u8>| chunked_encoding(file, size));
    assert(whole[i] =~= Seq::<u8>::empty());
    lemma_merge_skips_empty(whole, i);
    assert(whole.remove(i) =~= encode_each(files.remove(i)));
    lemma_windows_tile(0, size);
    assert(chunks(files[i], size) =~= Seq::<Seq<u8>>::empty());
    assert(encode_each(chunks(files[i], size)) =~= Seq::<Seq<u8>>::empty());
    assert(chunked[i] =~= Seq::<u8>::empty());
    lemma_merge_skips_empty(chunked, i);
    assert(chunked.remove(i) =~= files.remove(i).map_values(
        |file: Seq<u8>| chunked_encoding(file, size),
    ));
}

} // verus!
