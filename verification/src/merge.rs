//! The merger: stitches the encodings of consecutive windows into one.

use crate::runs::{
    canonical, count_at, decode, leading_run, lemma_decode_run, lemma_leading_run_push,
    lemma_maximal_iff_short_runs, lemma_rle_first_run, lemma_rle_last_run, lemma_rle_sound,
    lemma_short_runs_window, maximal, push_byte, repeat, rle, run_total, short_runs, symbol_at,
    trailing_run, well_formed, MAX_COUNT,
};
use vstd::prelude::*;

verus! {

/// The runs that stand for `total` repetitions of `symbol`, where `total`
/// is the sum of two counts: one run while it fits, else a full run and a
/// run for the rest.
pub open spec fn split_run(symbol: u8, total: int) -> Seq<u8> {
    if total <= MAX_COUNT {
        seq![symbol, total as u8]
    } else {
        seq![symbol, MAX_COUNT, symbol, (total - MAX_COUNT) as u8]
    }
}

/// What becomes of the encoding `acc` when the encoding `next` of the
/// window that follows is stitched to it. An empty `next` leaves `acc` as
/// it is. Where the last run of `acc` and the first run of `next` carry the
/// same symbol they are one run cut in two: their counts are added up and
/// split again at the largest count.
pub open spec fn join(acc: Seq<u8>, next: Seq<u8>) -> Seq<u8> {
    if next.len() < 2 {
        acc
    } else if acc.len() < 2 || acc[acc.len() - 2] != next[0] {
        acc + next
    } else {
        acc.take(acc.len() - 2) + split_run(next[0], acc.last() + next[1]) + next.skip(2)
    }
}

/// The encodings `parts` stitched together from left to right.
pub open spec fn merge_all(parts: Seq<Seq<u8>>) -> Seq<u8>
    decreases parts.len(),
{
    if parts.len() == 0 {
        Seq::empty()
    } else {
        join(merge_all(parts.drop_last()), parts.last())
    }
}

/// The windows laid end to end.
pub open spec fn concat(windows: Seq<Seq<u8>>) -> Seq<u8>
    decreases windows.len(),
{
    if windows.len() == 0 {
        Seq::empty()
    } else {
        concat(windows.drop_last()) + windows.last()
    }
}

/// Every window encoded on its own.
pub open spec fn encode_each(windows: Seq<Seq<u8>>) -> Seq<Seq<u8>> {
    windows.map_values(|window: Seq<u8>| rle(window))
}

/// What every encoding of a list stands for.
pub open spec fn decode_each(parts: Seq<Seq<u8>>) -> Seq<Seq<u8>> {
    parts.map_values(|part: Seq<u8>| decode(part))
}

/// Whether a buffer may be cut between `before` and `after` without the
/// merged encoding of the two windows differing from the encoding of the
/// buffer. It may where one of them is empty or the cut does not fall
/// inside a stretch of one repeated byte. Where it does, the part of the
/// stretch that ends `before` has to fill whole runs of 255, or the part
/// that starts `after` has to be no longer than 255: the merger looks at
/// one run on each side of the cut and at no more.
pub open spec fn stitches(before: Seq<u8>, after: Seq<u8>) -> bool {
    ||| before.len() == 0
    ||| after.len() == 0
    ||| before.last() != after[0]
    ||| trailing_run(before) % 255 == 0
    ||| leading_run(after) <= 255
}

/// Every window stitches to the windows before it.
pub open spec fn all_stitch(windows: Seq<Seq<u8>>) -> bool {
    forall|j: int|
        0 <= j < windows.len() ==> stitches(concat(#[trigger] windows.take(j)), windows[j])
}

/// The contents of a list of byte vectors.
pub open spec fn views(parts: Seq<Vec<u8>>) -> Seq<Seq<u8>> {
    parts.map_values(|part: Vec<u8>| part@)
}

/// Appends to `output` what `source` holds from position `start` on.
fn append_from(output: &mut Vec<u8>, source: &Vec<u8>, start: usize)
    requires
        start <= source@.len(),
    ensures
        final(output)@ == old(output)@ + source@.skip(start as int),
{
    let mut i: usize = start;
    while i < source.len()
        invariant
            start <= i <= source@.len(),
            output@ == old(output)@ + source@.subrange(start as int, i as int),
        decreases source@.len() - i,
    {
        output.push(source[i]);
        i = i + 1;
    }
    assert(source@.subrange(start as int, source@.len() as int) =~= source@.skip(start as int));
}

/// Merges the encodings of consecutive windows, given in stream order,
/// into one encoding.
pub fn merge_encodings(input: Vec<Vec<u8>>) -> (output: Vec<u8>)
    ensures
        output@ == merge_all(views(input@)),
{
    let mut output: Vec<u8> = Vec::new();
    let mut i: usize = 0;
    while i < input.len()
        invariant
            i <= input@.len(),
            output@ == merge_all(views(input@).take(i as int)),
        decreases input@.len() - i,
    {
        let enc = &input[i];
        let ghost acc = output@;
        proof {
            assert(views(input@).take(i + 1).drop_last() =~= views(input@).take(i as int));
            assert(views(input@).take(i + 1).last() == enc@);
        }
        if enc.len() >= 2 {
            let output_len: usize = output.len();
            if output_len < 2 || output[output_len - 2] != enc[0] {
                append_from(&mut output, enc, 0);
                assert(enc@.skip(0) =~= enc@);
            } else {
                let room: u8 = MAX_COUNT - output[output_len - 1];
                if enc[1] <= room {
                    let total: u8 = output[output_len - 1] + enc[1];
                    output[output_len - 1] = total;
                } else {
                    let rest: u8 = enc[1] - room;
                    output[output_len - 1] = MAX_COUNT;
                    output.push(enc[0]);
                    output.push(rest);
                }
                assert(output@ =~= acc.take(acc.len() - 2) + split_run(
                    enc@[0],
                    acc.last() + enc@[1],
                ));
                append_from(&mut output, enc, 2);
            }
        }
        i = i + 1;
    }
    assert(views(input@).take(input@.len() as int) =~= views(input@));
    output
}

/// What two encodings written one after the other stand for.
pub proof fn lemma_decode_concat(first: Seq<u8>, second: Seq<u8>)
    requires
        second.len() % 2 == 0,
    ensures
        decode(first + second) == decode(first) + decode(second),
    decreases second.len(),
{
    let both = first + second;
    if second.len() == 0 {
        assert(both =~= first);
        assert(decode(first) + decode(second) =~= decode(first));
    } else {
        let front = second.take(second.len() - 2);
        lemma_decode_concat(first, front);
        assert(both.take(both.len() - 2) =~= first + front);
        let tail = repeat(second[second.len() - 2], second.last() as nat);
        assert(decode(both) == decode(first + front) + tail);
        assert((decode(first) + decode(front)) + tail =~= decode(first) + (decode(front) + tail));
    }
}

/// Stitching loses no byte and counts none twice: what the stitched
/// encoding stands for is what the two encodings stand for, one after the
/// other.
pub proof fn lemma_join_decodes(acc: Seq<u8>, next: Seq<u8>)
    requires
        well_formed(acc),
        well_formed(next),
    ensures
        well_formed(join(acc, next)),
        decode(join(acc, next)) == decode(acc) + decode(next),
{
    let out = join(acc, next);
    let n = acc.len() as int;
    if next.len() < 2 {
        assert(next =~= Seq::<u8>::empty());
        assert(decode(acc) + decode(next) =~= decode(acc));
    } else if acc.len() < 2 || acc[n - 2] != next[0] {
        lemma_decode_concat(acc, next);
        assert forall|k: int| 0 <= k < run_total(out) implies #[trigger] count_at(out, k) >= 1 by {
            if k < run_total(acc) {
                assert(count_at(acc, k) >= 1);
            } else {
                assert(count_at(next, k - run_total(acc)) >= 1);
            }
        }
    } else {
        let s = next[0];
        let total = acc.last() + next[1];
        let head = acc.take(n - 2);
        let mid = split_run(s, total);
        let rest = next.skip(2);
        assert(count_at(acc, run_total(acc) - 1) >= 1);
        assert(count_at(next, 0) >= 1);
        lemma_decode_concat(head + mid, rest);
        lemma_decode_concat(head, mid);
        assert(decode(mid) =~= repeat(s, total as nat)) by {
            if total <= MAX_COUNT {
                lemma_decode_run(s, total as u8);
            } else {
                lemma_decode_run(s, MAX_COUNT);
                assert(mid.take(2) =~= seq![s, MAX_COUNT]);
            }
        }
        assert(repeat(s, total as nat) =~= repeat(s, acc.last() as nat) + repeat(
            s,
            next[1] as nat,
        ));
        assert(next =~= next.take(2) + rest);
        lemma_decode_concat(next.take(2), rest);
        assert(decode(next.take(2)) =~= repeat(s, next[1] as nat)) by {
            lemma_decode_run(s, next[1]);
            assert(next.take(2) =~= seq![s, next[1]]);
        }
        assert(decode(out) =~= decode(acc) + decode(next));
        assert forall|k: int| 0 <= k < run_total(out) implies #[trigger] count_at(out, k) >= 1 by {
            if k < run_total(head) {
                assert(count_at(acc, k) >= 1);
            } else if 2 * k + 1 < head.len() + mid.len() {
            } else {
                let j = k - run_total(head) - run_total(mid) + 1;
                assert(count_at(next, j) >= 1);
                assert(count_at(out, k) == count_at(next, j));
            }
        }
    }
}

/// Merging loses no byte and counts none twice, however the windows were
/// cut: the merged encoding stands for what the encodings stand for, laid
/// end to end.
pub proof fn lemma_merge_decodes(parts: Seq<Seq<u8>>)
    requires
        forall|i: int| 0 <= i < parts.len() ==> well_formed(#[trigger] parts[i]),
    ensures
        well_formed(merge_all(parts)),
        decode(merge_all(parts)) == concat(decode_each(parts)),
    decreases parts.len(),
{
    if parts.len() > 0 {
        let front = parts.drop_last();
        assert forall|i: int| 0 <= i < front.len() implies well_formed(#[trigger] front[i]) by {
            assert(front[i] == parts[i]);
        }
        lemma_merge_decodes(front);
        assert(well_formed(parts[parts.len() - 1]));
        lemma_join_decodes(merge_all(front), parts.last());
        assert(decode_each(parts).drop_last() =~= decode_each(front));
    }
}

/// Pushing a byte onto `next` before stitching it to `acc` gives what
/// pushing it after the stitching gives, but for one case: `next` is a
/// single full run of that byte and the last run of `acc`, of the same
/// byte, is not full.
proof fn lemma_join_push(acc: Seq<u8>, next: Seq<u8>, b: u8)
    requires
        acc.len() >= 2,
        next.len() >= 2,
        next.len() % 2 == 0,
        next.len() == 2 && next[0] == b && next[1] == MAX_COUNT && acc[acc.len() - 2] == b
            ==> acc.last() == MAX_COUNT,
    ensures
        join(acc, push_byte(next, b)) == push_byte(join(acc, next), b),
{
    let n = acc.len() as int;
    let m = next.len() as int;
    let pushed = push_byte(next, b);
    let joined = join(acc, next);
    if acc[n - 2] != next[0] {
        assert(joined =~= acc + next);
        assert(join(acc, pushed) =~= acc + pushed);
        assert(push_byte(acc + next, b) =~= acc + pushed);
    } else if m >= 4 {
        let head = acc.take(n - 2) + split_run(next[0], acc.last() + next[1]);
        assert(joined =~= head + next.skip(2));
        assert(pushed.skip(2) =~= push_byte(next.skip(2), b));
        assert(join(acc, pushed) =~= head + pushed.skip(2));
        assert(push_byte(head + next.skip(2), b) =~= head + push_byte(next.skip(2), b));
    } else {
        let s = next[0];
        let total = acc.last() + next[1];
        let head = acc.take(n - 2);
        assert(next.skip(2) =~= Seq::<u8>::empty());
        assert(joined =~= head + split_run(s, total));
        if b == s && next[1] < MAX_COUNT {
            assert(pushed =~= seq![s, (next[1] + 1) as u8]);
            assert(pushed.skip(2) =~= Seq::<u8>::empty());
            assert(join(acc, pushed) =~= head + split_run(s, total + 1));
            assert(push_byte(joined, b) =~= head + split_run(s, total + 1));
        } else {
            assert(pushed =~= seq![s, next[1], b, 1u8]);
            assert(pushed.skip(2) =~= seq![b, 1u8]);
            assert(join(acc, pushed) =~= head + split_run(s, total) + seq![b, 1u8]);
            assert(push_byte(joined, b) =~= joined.push(b).push(1u8));
            assert(push_byte(joined, b) =~= head + split_run(s, total) + seq![b, 1u8]);
        }
    }
}

/// Encoding two windows on their own and stitching the encodings gives the
/// encoding of the two windows taken as one, where the cut between them
/// stitches.
pub proof fn lemma_join_encodes_concat(before: Seq<u8>, after: Seq<u8>)
    requires
        stitches(before, after),
    ensures
        join(rle(before), rle(after)) == rle(before + after),
    decreases after.len(),
{
    let acc = rle(before);
    lemma_rle_sound(before);
    lemma_rle_sound(after);
    if after.len() == 0 {
        assert(before + after =~= before);
    } else if before.len() == 0 {
        assert(before + after =~= after);
        assert(acc + rle(after) =~= rle(after));
    } else {
        let front = after.drop_last();
        let b = after.last();
        let n = acc.len() as int;
        assert((before + after).drop_last() =~= before + front);
        assert((before + after).last() == b);
        assert(front.push(b) =~= after);
        if front.len() == 0 {
            assert(before + front =~= before);
            assert(rle(front) =~= Seq::<u8>::empty());
            let one = rle(after);
            assert(one =~= seq![b, 1u8]);
            assert(one.skip(2) =~= Seq::<u8>::empty());
            if acc[n - 2] != b {
                assert(join(acc, one) =~= push_byte(acc, b));
            } else {
                assert(join(acc, one) =~= acc.take(n - 2) + split_run(b, acc.last() + 1));
                assert(join(acc, one) =~= push_byte(acc, b));
            }
        } else {
            lemma_leading_run_push(front, b);
            lemma_rle_first_run(front);
            lemma_rle_last_run(before);
            assert(stitches(before, front));
            lemma_join_encodes_concat(before, front);
            let next = rle(front);
            if next.len() == 2 && next[0] == b && next[1] == MAX_COUNT && acc[n - 2] == b {
                assert(leading_run(after) == 256);
                let t = trailing_run(before) as int;
                assert(acc.last() == MAX_COUNT) by (nonlinear_arith)
                    requires
                        t % 255 == 0,
                        t >= 1,
                        acc.last() == (t - 1) % 255 + 1,
                ;
            }
            lemma_join_push(acc, next, b);
        }
    }
}

/// Merge associativity: encoding the windows of a buffer one by one and
/// merging the encodings gives the encoding of the whole buffer, where
/// every cut stitches.
pub proof fn lemma_merge_encodes_concat(windows: Seq<Seq<u8>>)
    requires
        all_stitch(windows),
    ensures
        merge_all(encode_each(windows)) == rle(concat(windows)),
    decreases windows.len(),
{
    if windows.len() > 0 {
        let front = windows.drop_last();
        let last = windows.len() - 1;
        assert forall|j: int| 0 <= j < front.len() implies stitches(
            concat(#[trigger] front.take(j)),
            front[j],
        ) by {
            assert(front.take(j) =~= windows.take(j));
            assert(stitches(concat(windows.take(j)), windows[j]));
        }
        lemma_merge_encodes_concat(front);
        assert(windows.take(last) =~= front);
        assert(stitches(concat(windows.take(last)), windows[last]));
        lemma_join_encodes_concat(concat(front), windows.last());
        assert(encode_each(windows).drop_last() =~= encode_each(front));
    }
}

/// Run `k` of `enc` is followed by a run of its own symbol though it is
/// not full: the two could have been one run, or a full run and a rest.
pub open spec fn flaw_at(enc: Seq<u8>, k: int) -> bool {
    &&& 0 <= k
    &&& k + 1 < run_total(enc)
    &&& symbol_at(enc, k) == symbol_at(enc, k + 1)
    &&& count_at(enc, k) != MAX_COUNT
}

/// Where the cut between two windows does not stitch, the stitched
/// encoding is not the encoding of the two windows taken as one: it holds
/// a run that is not full before a run of the same symbol.
pub proof fn lemma_join_differs(before: Seq<u8>, after: Seq<u8>)
    requires
        !stitches(before, after),
    ensures
        join(rle(before), rle(after)) != rle(before + after),
        !canonical(join(rle(before), rle(after))),
        flaw_at(join(rle(before), rle(after)), run_total(rle(before))),
{
    let acc = rle(before);
    let next = rle(after);
    let out = join(acc, next);
    let n = acc.len() as int;
    lemma_rle_sound(before);
    lemma_rle_sound(before + after);
    lemma_rle_last_run(before);
    lemma_rle_first_run(after);
    let t = trailing_run(before) as int;
    assert(acc.last() < MAX_COUNT) by (nonlinear_arith)
        requires
            t % 255 != 0,
            acc.last() == (t - 1) % 255 + 1,
    ;
    assert(next.len() >= 4);
    let k = run_total(acc);
    assert(out =~= acc.take(n - 2) + split_run(next[0], acc.last() + 255) + next.skip(2));
    assert(symbol_at(out, k) == next[0]);
    assert(count_at(out, k) == acc.last());
    assert(symbol_at(out, k + 1) == next[2]);
    assert(flaw_at(out, k));
}

/// A flaw in an encoding stays where it is when another encoding is
/// stitched to it.
pub proof fn lemma_join_keeps_flaw(acc: Seq<u8>, next: Seq<u8>, k: int)
    requires
        acc.len() % 2 == 0,
        flaw_at(acc, k),
    ensures
        flaw_at(join(acc, next), k),
{
    let out = join(acc, next);
    let n = acc.len() as int;
    if next.len() >= 2 && acc[n - 2] == next[0] {
        assert(out =~= acc.take(n - 2) + split_run(next[0], acc.last() + next[1]) + next.skip(2));
        assert(symbol_at(out, k) == symbol_at(acc, k));
        assert(count_at(out, k) == count_at(acc, k));
        assert(symbol_at(out, k + 1) == symbol_at(acc, k + 1));
    }
}

/// The condition of merge associativity leaves out no more than it has to:
/// where some cut does not stitch, the merged encoding is not the encoding
/// of the whole buffer.
pub proof fn lemma_merge_differs(windows: Seq<Seq<u8>>)
    requires
        !all_stitch(windows),
    ensures
        merge_all(encode_each(windows)) != rle(concat(windows)),
        !canonical(merge_all(encode_each(windows))),
    decreases windows.len(),
{
    let j = choose|j: int|
        0 <= j < windows.len() && !stitches(concat(#[trigger] windows.take(j)), windows[j]);
    let front = windows.drop_last();
    let last = windows.len() - 1;
    let merged = merge_all(encode_each(front));
    assert(encode_each(windows).drop_last() =~= encode_each(front));
    assert(windows.take(last) =~= front);
    lemma_rle_sound(concat(windows));
    if all_stitch(front) {
        if j < last {
            assert(front.take(j) =~= windows.take(j));
            assert(stitches(concat(front.take(j)), front[j]));
        }
        lemma_merge_encodes_concat(front);
        lemma_join_differs(concat(front), windows.last());
    } else {
        lemma_merge_differs(front);
        assert forall|i: int| 0 <= i < front.len() implies well_formed(
            #[trigger] encode_each(front)[i],
        ) by {
            lemma_rle_sound(front[i]);
        }
        lemma_merge_decodes(encode_each(front));
        let k = choose|k: int| flaw_at(merged, k);
        assert(flaw_at(merged, k)) by {
            if forall|k: int| !flaw_at(merged, k) {
                assert forall|k: int|
                    0 <= k && k + 1 < run_total(merged) && symbol_at(merged, k) == symbol_at(
                        merged,
                        k + 1,
                    ) implies #[trigger] count_at(merged, k) == MAX_COUNT by {
                    assert(!flaw_at(merged, k));
                }
                assert(canonical(merged));
            }
        }
        lemma_join_keeps_flaw(merged, rle(windows.last()), k);
    }
}

/// Where each window lies in the windows laid end to end: after the
/// windows before it.
pub proof fn lemma_concat_window(windows: Seq<Seq<u8>>, j: int)
    requires
        0 <= j < windows.len(),
    ensures
        concat(windows.take(j)).len() + windows[j].len() <= concat(windows).len(),
        concat(windows).subrange(
            concat(windows.take(j)).len() as int,
            (concat(windows.take(j)).len() + windows[j].len()) as int,
        ) == windows[j],
    decreases windows.len(),
{
    let front = windows.drop_last();
    let last = windows.len() - 1;
    if j == last {
        assert(windows.take(j) =~= front);
        assert(concat(windows).subrange(
            concat(front).len() as int,
            (concat(front).len() + windows[j].len()) as int,
        ) =~= windows[j]);
    } else {
        lemma_concat_window(front, j);
        assert(front.take(j) =~= windows.take(j));
        let start = concat(front.take(j)).len() as int;
        assert(concat(windows).subrange(start, start + windows[j].len()) =~= concat(
            front,
        ).subrange(start, start + windows[j].len()));
    }
}

/// Windows of bytes without a stretch of more than 255 copies of one byte
/// stitch wherever they were cut.
pub proof fn lemma_short_runs_stitch(windows: Seq<Seq<u8>>)
    requires
        short_runs(concat(windows)),
    ensures
        all_stitch(windows),
        forall|j: int| 0 <= j < windows.len() ==> short_runs(#[trigger] windows[j]),
{
    assert forall|j: int| 0 <= j < windows.len() implies stitches(
        concat(#[trigger] windows.take(j)),
        windows[j],
    ) by {
        lemma_concat_window(windows, j);
        let start = concat(windows.take(j)).len() as int;
        lemma_short_runs_window(concat(windows), start, start + windows[j].len());
    }
    assert forall|j: int| 0 <= j < windows.len() implies short_runs(#[trigger] windows[j]) by {
        lemma_concat_window(windows, j);
        let start = concat(windows.take(j)).len() as int;
        lemma_short_runs_window(concat(windows), start, start + windows[j].len());
    }
}

/// For bytes without a stretch of more than 255 copies of one byte, the
/// merged encoding of the windows is the encoding of the whole buffer, and
/// no two neighbouring runs of it carry the same symbol.
pub proof fn lemma_short_runs_merge(windows: Seq<Seq<u8>>)
    requires
        short_runs(concat(windows)),
    ensures
        merge_all(encode_each(windows)) == rle(concat(windows)),
        maximal(merge_all(encode_each(windows))),
{
    lemma_short_runs_stitch(windows);
    lemma_merge_encodes_concat(windows);
    lemma_maximal_iff_short_runs(concat(windows));
}

/// An encoding that holds less than one run changes nothing in a merge:
/// the merger skips it.
pub proof fn lemma_merge_skips_empty(parts: Seq<Seq<u8>>, i: int)
    requires
        0 <= i < parts.len(),
        parts[i].len() < 2,
    ensures
        merge_all(parts) == merge_all(parts.remove(i)),
    decreases parts.len(),
{
    let front = parts.drop_last();
    if i == parts.len() - 1 {
        assert(parts.remove(i) =~= front);
    } else {
        lemma_merge_skips_empty(front, i);
        assert(parts.remove(i).drop_last() =~= front.remove(i));
        assert(parts.remove(i).last() == parts.last());
    }
}

} // verus!
