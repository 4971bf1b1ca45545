//! Where the runs of an encoding end, counted in bytes: the means to tell
//! a run that a cut left behind from a run that the encoder would emit.

use crate::merge::{
    all_stitch, concat, encode_each, flaw_at, join, lemma_join_differs, lemma_join_keeps_flaw,
    lemma_merge_decodes, lemma_merge_encodes_concat, merge_all, split_run, stitches,
};
use crate::runs::{
    canonical, count_at, decode, lemma_rle_sound, rle, run_total, symbol_at, well_formed, MAX_COUNT,
};
use vstd::prelude::*;

verus! {

/// How many bytes the runs up to and with run `k` stand for.
pub open spec fn run_end(enc: Seq<u8>, k: int) -> int
    decreases k + 1,
{
    if k < 0 {
        0
    } else {
        run_end(enc, k - 1) + count_at(enc, k)
    }
}

/// How many bytes the whole encoding stands for.
pub open spec fn span(enc: Seq<u8>) -> int {
    run_end(enc, run_total(enc) - 1)
}

/// Where a run ends depends on the runs up to it alone.
pub proof fn lemma_run_end_agree(first: Seq<u8>, second: Seq<u8>, k: int)
    requires
        2 * (k + 1) <= first.len(),
        2 * (k + 1) <= second.len(),
        forall|i: int| 0 <= i < 2 * (k + 1) ==> first[i] == second[i],
    ensures
        run_end(first, k) == run_end(second, k),
    decreases k + 1,
{
    if k >= 0 {
        lemma_run_end_agree(first, second, k - 1);
        assert(first[2 * k + 1] == second[2 * k + 1]);
    }
}

/// Runs behind a whole number of runs end that many bytes later.
pub proof fn lemma_run_end_shift(first: Seq<u8>, second: Seq<u8>, k: int)
    requires
        first.len() % 2 == 0,
        -1 <= k,
        2 * (k + 1) <= second.len(),
    ensures
        run_end(first + second, run_total(first) + k) == span(first) + run_end(second, k),
    decreases k + 1,
{
    let both = first + second;
    if k == -1 {
        lemma_run_end_agree(both, first, run_total(first) - 1);
    } else {
        lemma_run_end_shift(first, second, k - 1);
        assert(count_at(both, run_total(first) + k) == count_at(second, k));
    }
}

/// The runs of an encoding end where the bytes that it stands for end.
pub proof fn lemma_span_is_len(enc: Seq<u8>)
    requires
        enc.len() % 2 == 0,
    ensures
        span(enc) == decode(enc).len(),
    decreases enc.len(),
{
    if enc.len() >= 2 {
        let front = enc.take(enc.len() - 2);
        lemma_span_is_len(front);
        lemma_run_end_agree(enc, front, run_total(front) - 1);
        assert(count_at(enc, run_total(enc) - 1) == enc.last());
    }
}

/// A flaw in an encoding stays where it is, and ends where it ended, when
/// another encoding is stitched to it.
pub proof fn lemma_join_keeps_run_end(acc: Seq<u8>, next: Seq<u8>, k: int)
    requires
        acc.len() % 2 == 0,
        flaw_at(acc, k),
    ensures
        flaw_at(join(acc, next), k),
        run_end(join(acc, next), k) == run_end(acc, k),
{
    let out = join(acc, next);
    lemma_join_keeps_flaw(acc, next, k);
    assert forall|i: int| 0 <= i < 2 * (k + 1) implies out[i] == acc[i] by {}
    lemma_run_end_agree(out, acc, k);
}

/// How many bytes the runs of a split run stand for.
proof fn lemma_span_split(symbol: u8, total: int)
    requires
        0 <= total <= 2 * MAX_COUNT,
    ensures
        span(split_run(symbol, total)) == total,
{
    reveal_with_fuel(run_end, 3);
}

/// A flaw behind the first run of an encoding is carried along when the
/// encoding is stitched to another, and ends as many bytes later as the
/// other stands for.
pub proof fn lemma_join_shifts_flaw(acc: Seq<u8>, next: Seq<u8>, k: int) -> (moved: int)
    requires
        acc.len() % 2 == 0,
        next.len() % 2 == 0,
        flaw_at(next, k),
        1 <= k,
    ensures
        flaw_at(join(acc, next), moved),
        run_end(join(acc, next), moved) == span(acc) + run_end(next, k),
{
    let out = join(acc, next);
    let n = acc.len() as int;
    if acc.len() < 2 || acc[n - 2] != next[0] {
        let moved = run_total(acc) + k;
        lemma_run_end_shift(acc, next, k);
        assert(symbol_at(out, moved) == symbol_at(next, k));
        assert(symbol_at(out, moved + 1) == symbol_at(next, k + 1));
        assert(count_at(out, moved) == count_at(next, k));
        moved
    } else {
        let head = acc.take(n - 2);
        let total = acc.last() + next[1];
        let mid = split_run(next[0], total);
        let rest = next.skip(2);
        let moved = run_total(head + mid) + k - 1;
        assert(out =~= (head + mid) + rest);
        lemma_run_end_shift(head + mid, rest, k - 1);
        lemma_run_end_shift(head, mid, run_total(mid) - 1);
        lemma_span_split(next[0], total);
        assert(span(acc) == span(head) + acc.last()) by {
            lemma_run_end_agree(acc, head, run_total(head) - 1);
            assert(count_at(acc, run_total(acc) - 1) == acc.last());
        }
        assert(run_end(next, k) == next[1] + run_end(rest, k - 1)) by {
            assert(next =~= next.take(2) + rest);
            lemma_run_end_shift(next.take(2), rest, k - 1);
            reveal_with_fuel(run_end, 2);
            assert(span(next.take(2)) == next[1]);
        }
        assert(symbol_at(out, moved) == symbol_at(next, k));
        assert(symbol_at(out, moved + 1) == symbol_at(next, k + 1));
        assert(count_at(out, moved) == count_at(next, k));
        moved
    }
}

/// Where a flaw comes from when a canonical encoding is stitched to an
/// encoding: it was in the encoding before, or it ends 255 bytes behind
/// the cut.
pub proof fn lemma_join_flaw_origin(acc: Seq<u8>, next: Seq<u8>, k: int)
    requires
        well_formed(acc),
        canonical(next),
        flaw_at(join(acc, next), k),
    ensures
        (flaw_at(acc, k) && run_end(acc, k) == run_end(join(acc, next), k)) || run_end(
            join(acc, next),
            k,
        ) == span(acc) + MAX_COUNT,
{
    let out = join(acc, next);
    let n = acc.len() as int;
    let runs = run_total(acc);
    if next.len() < 2 {
    } else if acc.len() < 2 || acc[n - 2] != next[0] {
        assert(out =~= acc + next);
        if k + 1 < runs {
            assert(flaw_at(acc, k));
            lemma_run_end_agree(out, acc, k);
        } else if k >= runs {
            assert(symbol_at(out, k) == symbol_at(next, k - runs));
            assert(symbol_at(out, k + 1) == symbol_at(next, k - runs + 1));
            assert(count_at(out, k) == count_at(next, k - runs));
            assert(count_at(next, k - runs) == MAX_COUNT);
        }
    } else {
        let head = acc.take(n - 2);
        let total = acc.last() + next[1];
        let mid = split_run(next[0], total);
        let rest = next.skip(2);
        let behind = run_total(head + mid);
        assert(out =~= (head + mid) + rest);
        assert(count_at(acc, runs - 1) >= 1);
        if k + 1 < runs {
            assert(symbol_at(out, k + 1) == symbol_at(acc, k + 1));
            assert(flaw_at(acc, k));
            lemma_run_end_agree(out, acc, k);
        } else if k >= behind {
            let j = k - behind + 1;
            assert(symbol_at(out, k) == symbol_at(next, j));
            assert(symbol_at(out, k + 1) == symbol_at(next, j + 1));
            assert(count_at(out, k) == count_at(next, j));
            assert(count_at(next, j) == MAX_COUNT);
        } else if k == behind - 1 {
            assert(symbol_at(out, k) == next[0]);
            assert(symbol_at(out, k + 1) == symbol_at(next, 1));
            assert(count_at(next, 0) == MAX_COUNT);
            assert(total > MAX_COUNT);
            assert(count_at(out, k) == acc.last());
            lemma_run_end_shift(head, mid, 1);
            reveal_with_fuel(run_end, 3);
            assert(span(acc) == span(head) + acc.last()) by {
                lemma_run_end_agree(acc, head, run_total(head) - 1);
            }
            lemma_run_end_agree(out, head + mid, k);
        } else {
            assert(count_at(out, k) == MAX_COUNT);
        }
    }
}

/// Every flaw in the merged encoding of canonical encodings ends 255
/// bytes behind the end of one of them: the result names one, by how many
/// of the encodings come before its end.
pub proof fn lemma_merge_flaw_origin(parts: Seq<Seq<u8>>, k: int) -> (cut: int)
    requires
        forall|i: int| 0 <= i < parts.len() ==> canonical(#[trigger] parts[i]),
        flaw_at(merge_all(parts), k),
    ensures
        0 <= cut <= parts.len(),
        run_end(merge_all(parts), k) == span(merge_all(parts.take(cut))) + MAX_COUNT,
    decreases parts.len(),
{
    if parts.len() == 0 {
        0
    } else {
        let front = parts.drop_last();
        let acc = merge_all(front);
        assert forall|i: int| 0 <= i < front.len() implies canonical(#[trigger] front[i]) by {
            assert(front[i] == parts[i]);
        }
        assert forall|i: int| 0 <= i < front.len() implies well_formed(#[trigger] front[i]) by {
            assert(canonical(front[i]));
        }
        lemma_merge_decodes(front);
        assert(canonical(parts[parts.len() - 1]));
        lemma_join_flaw_origin(acc, parts.last(), k);
        if flaw_at(acc, k) && run_end(acc, k) == run_end(merge_all(parts), k) {
            let cut = lemma_merge_flaw_origin(front, k);
            assert(front.take(cut) =~= parts.take(cut));
            cut
        } else {
            assert(parts.take(parts.len() - 1) =~= front);
            parts.len() - 1
        }
    }
}

/// A flaw behind the first run of one of the encodings that are merged is
/// a flaw of the merged encoding, and ends as many bytes later as the
/// encodings before its own stand for.
pub proof fn lemma_merge_carries_flaw(parts: Seq<Seq<u8>>, at: int, k: int) -> (moved: int)
    requires
        forall|i: int| 0 <= i < parts.len() ==> well_formed(#[trigger] parts[i]),
        0 <= at < parts.len(),
        flaw_at(parts[at], k),
        1 <= k,
    ensures
        flaw_at(merge_all(parts), moved),
        run_end(merge_all(parts), moved) == span(merge_all(parts.take(at))) + run_end(
            parts[at],
            k,
        ),
    decreases parts.len(),
{
    let front = parts.drop_last();
    let acc = merge_all(front);
    assert forall|i: int| 0 <= i < front.len() implies well_formed(#[trigger] front[i]) by {
        assert(front[i] == parts[i]);
    }
    lemma_merge_decodes(front);
    assert(well_formed(parts[at]));
    if at == parts.len() - 1 {
        assert(parts.take(at) =~= front);
        lemma_join_shifts_flaw(acc, parts.last(), k)
    } else {
        let inner = lemma_merge_carries_flaw(front, at, k);
        assert(front.take(at) =~= parts.take(at));
        lemma_join_keeps_run_end(acc, parts.last(), inner);
        inner
    }
}

/// Where some cut between the windows does not stitch, the merged
/// encoding holds a flaw behind its first run that ends 255 bytes behind a
/// cut inside the buffer: the result names the flaw and the cut.
pub proof fn lemma_merge_flaw_inside(windows: Seq<Seq<u8>>) -> (found: (int, int))
    requires
        !all_stitch(windows),
    ensures
        flaw_at(merge_all(encode_each(windows)), found.0),
        1 <= found.0,
        0 <= found.1 < windows.len(),
        0 < concat(windows.take(found.1)).len() < concat(windows).len(),
        run_end(merge_all(encode_each(windows)), found.0) == concat(windows.take(found.1)).len()
            + MAX_COUNT,
    decreases windows.len(),
{
    let j = choose|j: int|
        0 <= j < windows.len() && !stitches(concat(#[trigger] windows.take(j)), windows[j]);
    let front = windows.drop_last();
    let last = windows.len() - 1;
    let merged = merge_all(encode_each(front));
    assert(encode_each(windows).drop_last() =~= encode_each(front));
    assert(windows.take(last) =~= front);
    assert forall|i: int| 0 <= i < front.len() implies well_formed(
        #[trigger] encode_each(front)[i],
    ) by {
        lemma_rle_sound(front[i]);
    }
    lemma_merge_decodes(encode_each(front));
    if all_stitch(front) {
        if j < last {
            assert(front.take(j) =~= windows.take(j));
            assert(stitches(concat(front.take(j)), front[j]));
        }
        let before = concat(front);
        let after = windows.last();
        lemma_merge_encodes_concat(front);
        lemma_join_differs(before, after);
        lemma_rle_sound(before);
        lemma_rle_sound(after);
        lemma_span_is_len(rle(before));
        let k = run_total(rle(before));
        lemma_join_flaw_origin(rle(before), rle(after), k);
        (k, last)
    } else {
        let (k, cut) = lemma_merge_flaw_inside(front);
        assert(front.take(cut) =~= windows.take(cut));
        lemma_join_keeps_run_end(merged, rle(windows.last()), k);
        (k, cut)
    }
}

} // verus!
