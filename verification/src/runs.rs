//! The byte-level model of an encoding: a flat sequence of pairs, a symbol
//! followed by the number of times it repeats.

use vstd::prelude::*;

verus! {

/// The largest count that fits the single byte a run stores it in.
pub const MAX_COUNT: u8 = 255;

/// Number of runs in an encoding.
pub open spec fn run_total(enc: Seq<u8>) -> int {
    enc.len() as int / 2
}

/// Symbol of the `k`-th run.
pub open spec fn symbol_at(enc: Seq<u8>, k: int) -> u8 {
    enc[2 * k]
}

/// Count of the `k`-th run.
pub open spec fn count_at(enc: Seq<u8>, k: int) -> u8 {
    enc[2 * k + 1]
}

/// `count` copies of `symbol`.
pub open spec fn repeat(symbol: u8, count: nat) -> Seq<u8> {
    Seq::new(count, |i: int| symbol)
}

/// The bytes an encoding stands for: every run written out in full.
pub open spec fn decode(enc: Seq<u8>) -> Seq<u8>
    decreases enc.len(),
{
    if enc.len() < 2 {
        Seq::empty()
    } else {
        decode(enc.take(enc.len() - 2)) + repeat(enc[enc.len() - 2], enc.last() as nat)
    }
}

/// An encoding is well formed when it is a whole number of pairs and no run
/// is empty.
pub open spec fn well_formed(enc: Seq<u8>) -> bool {
    &&& enc.len() % 2 == 0
    &&& forall|k: int| 0 <= k < run_total(enc) ==> #[trigger] count_at(enc, k) >= 1
}

/// A well-formed encoding is canonical when a run is followed by a run of
/// the same symbol only after it has reached the largest count.
pub open spec fn canonical(enc: Seq<u8>) -> bool {
    &&& well_formed(enc)
    &&& forall|k: int|
        0 <= k && k + 1 < run_total(enc) && symbol_at(enc, k) == symbol_at(enc, k + 1)
            ==> #[trigger] count_at(enc, k) == MAX_COUNT
}

/// No two neighbouring runs carry the same symbol.
pub open spec fn maximal(enc: Seq<u8>) -> bool {
    forall|k: int|
        0 <= k && k + 1 < run_total(enc) ==> #[trigger] symbol_at(enc, k) != symbol_at(
            enc,
            k + 1,
        )
}

/// The encoding of `bytes` followed by one more byte `b`, given the encoding
/// `enc` of `bytes`: the last run grows while it has room, else a new run
/// starts.
pub open spec fn push_byte(enc: Seq<u8>, b: u8) -> Seq<u8> {
    let n = enc.len() as int;
    if n >= 2 && enc[n - 2] == b && enc[n - 1] < MAX_COUNT {
        enc.update(n - 1, (enc[n - 1] + 1) as u8)
    } else {
        enc.push(b).push(1u8)
    }
}

/// The run-length encoding of `bytes`: every stretch of one repeated byte
/// becomes runs of 255 followed by a run for what is left.
pub open spec fn rle(bytes: Seq<u8>) -> Seq<u8>
    decreases bytes.len(),
{
    if bytes.len() == 0 {
        Seq::empty()
    } else {
        push_byte(rle(bytes.drop_last()), bytes.last())
    }
}

/// Length of the stretch of one repeated byte that `bytes` ends with.
pub open spec fn trailing_run(bytes: Seq<u8>) -> nat
    decreases bytes.len(),
{
    if bytes.len() == 0 {
        0
    } else if bytes.len() >= 2 && bytes[bytes.len() - 2] == bytes.last() {
        trailing_run(bytes.drop_last()) + 1
    } else {
        1
    }
}

/// Length of the stretch of one repeated byte that `bytes` starts with.
pub open spec fn leading_run(bytes: Seq<u8>) -> nat
    decreases bytes.len(),
{
    if bytes.len() == 0 {
        0
    } else if bytes.len() >= 2 && bytes[1] == bytes[0] {
        leading_run(bytes.skip(1)) + 1
    } else {
        1
    }
}

/// No byte of `bytes` repeats more than 255 times in a row.
pub open spec fn short_runs(bytes: Seq<u8>) -> bool {
    forall|i: int| 0 <= i <= bytes.len() ==> trailing_run(#[trigger] bytes.take(i)) <= MAX_COUNT
}

/// What a single run stands for.
pub proof fn lemma_decode_run(symbol: u8, count: u8)
    ensures
        decode(seq![symbol, count]) == repeat(symbol, count as nat),
{
    let enc = seq![symbol, count];
    assert(decode(enc.take(0)) =~= Seq::<u8>::empty());
}

/// Pushing a byte keeps an encoding well formed and adds that byte to what
/// it stands for.
pub proof fn lemma_push_byte_decodes(enc: Seq<u8>, b: u8)
    requires
        well_formed(enc),
    ensures
        well_formed(push_byte(enc, b)),
        decode(push_byte(enc, b)) == decode(enc).push(b),
        push_byte(enc, b).len() >= 2,
        push_byte(enc, b)[push_byte(enc, b).len() - 2] == b,
        enc.len() >= 2 ==> push_byte(enc, b)[0] == enc[0],
        enc.len() < 2 ==> push_byte(enc, b)[0] == b,
{
    let n = enc.len() as int;
    let out = push_byte(enc, b);
    if n >= 2 && enc[n - 2] == b && enc[n - 1] < MAX_COUNT {
        assert(out.take(n - 2) =~= enc.take(n - 2));
        assert forall|k: int| 0 <= k < run_total(out) implies #[trigger] count_at(out, k) >= 1 by {
            if 2 * k + 1 < n - 1 {
                assert(count_at(enc, k) >= 1);
            }
        }
    } else {
        assert(out.take(out.len() - 2) =~= enc);
        assert forall|k: int| 0 <= k < run_total(out) implies #[trigger] count_at(out, k) >= 1 by {
            if k < run_total(enc) {
                assert(count_at(enc, k) >= 1);
            }
        }
    }
}

/// Pushing a byte keeps an encoding canonical.
pub proof fn lemma_push_byte_canonical(enc: Seq<u8>, b: u8)
    requires
        canonical(enc),
    ensures
        canonical(push_byte(enc, b)),
{
    let out = push_byte(enc, b);
    lemma_push_byte_decodes(enc, b);
    assert forall|k: int|
        0 <= k && k + 1 < run_total(out) && symbol_at(out, k) == symbol_at(
            out,
            k + 1,
        ) implies #[trigger] count_at(out, k) == MAX_COUNT by {
        if k + 1 < run_total(enc) {
            assert(count_at(enc, k) == MAX_COUNT);
        }
    }
}

/// The encoding of `bytes` is canonical and stands for exactly `bytes`; it
/// is empty only for no bytes, and it starts and ends with the symbols that
/// `bytes` starts and ends with.
pub proof fn lemma_rle_sound(bytes: Seq<u8>)
    ensures
        canonical(rle(bytes)),
        decode(rle(bytes)) == bytes,
        bytes.len() == 0 ==> rle(bytes).len() == 0,
        bytes.len() > 0 ==> rle(bytes).len() >= 2 && rle(bytes)[0] == bytes[0] && rle(
            bytes,
        )[rle(bytes).len() - 2] == bytes.last(),
    decreases bytes.len(),
{
    if bytes.len() > 0 {
        let front = bytes.drop_last();
        lemma_rle_sound(front);
        lemma_push_byte_decodes(rle(front), bytes.last());
        lemma_push_byte_canonical(rle(front), bytes.last());
    }
}

/// Appending up to 255 copies of a byte to `bytes` appends one run to the
/// encoding, unless the encoding ends with a run of that byte that still
/// has room.
pub proof fn lemma_rle_append_run(bytes: Seq<u8>, b: u8, count: nat)
    requires
        1 <= count <= MAX_COUNT,
        rle(bytes).len() < 2 || rle(bytes)[rle(bytes).len() - 2] != b || rle(bytes).last()
            == MAX_COUNT,
    ensures
        rle(bytes + repeat(b, count)) == rle(bytes).push(b).push(count as u8),
    decreases count,
{
    let all = bytes + repeat(b, count);
    if count == 1 {
        assert(all.drop_last() =~= bytes);
    } else {
        lemma_rle_append_run(bytes, b, (count - 1) as nat);
        assert(all.drop_last() =~= bytes + repeat(b, (count - 1) as nat));
    }
}

/// Where runs overflow: 255 copies of a byte are one run, and the copy
/// after them starts a run of its own.
pub proof fn lemma_overflow_split(b: u8)
    ensures
        rle(repeat(b, 255)) == seq![b, 255u8],
        rle(repeat(b, 256)) == seq![b, 255u8, b, 1u8],
{
    let none = Seq::<u8>::empty();
    lemma_rle_append_run(none, b, 255);
    lemma_rle_append_run(repeat(b, 255), b, 1);
    assert(repeat(b, 255) + repeat(b, 1) =~= repeat(b, 256));
}

/// A canonical encoding is the encoding of the bytes it stands for.
pub proof fn lemma_canonical_is_rle(enc: Seq<u8>)
    requires
        canonical(enc),
    ensures
        rle(decode(enc)) == enc,
    decreases enc.len(),
{
    if enc.len() >= 2 {
        let n = enc.len() as int;
        let front = enc.take(n - 2);
        let last = run_total(enc) - 1;
        assert(count_at(enc, last) >= 1);
        assert(canonical(front)) by {
            assert forall|k: int| 0 <= k < run_total(front) implies #[trigger] count_at(front, k)
                >= 1 by {
                assert(count_at(enc, k) >= 1);
            }
            assert forall|k: int|
                0 <= k && k + 1 < run_total(front) && symbol_at(front, k) == symbol_at(
                    front,
                    k + 1,
                ) implies #[trigger] count_at(front, k) == MAX_COUNT by {
                assert(count_at(enc, k) == MAX_COUNT);
            }
        }
        lemma_canonical_is_rle(front);
        if front.len() >= 2 && front[front.len() - 2] == enc[n - 2] {
            assert(count_at(enc, last - 1) == MAX_COUNT);
        }
        lemma_rle_append_run(decode(front), enc[n - 2], enc[n - 1] as nat);
    }
}

/// Two canonical encodings that stand for the same bytes are equal.
pub proof fn lemma_canonical_unique(first: Seq<u8>, second: Seq<u8>)
    requires
        canonical(first),
        canonical(second),
        decode(first) == decode(second),
    ensures
        first == second,
{
    lemma_canonical_is_rle(first);
    lemma_canonical_is_rle(second);
}

/// The last run of an encoding carries the last byte, and counts what is
/// left of the stretch that the bytes end with once the full runs are taken
/// away.
pub proof fn lemma_rle_last_run(bytes: Seq<u8>)
    requires
        bytes.len() > 0,
    ensures
        rle(bytes).len() >= 2,
        rle(bytes)[rle(bytes).len() - 2] == bytes.last(),
        rle(bytes).last() == (trailing_run(bytes) - 1) % 255 + 1,
    decreases bytes.len(),
{
    let front = bytes.drop_last();
    if front.len() == 0 {
        assert(rle(front) =~= Seq::<u8>::empty());
    } else {
        lemma_rle_last_run(front);
        let m = trailing_run(front) as int;
        let c = rle(front).last() as int;
        if front.last() == bytes.last() {
            if c < 255 {
                assert(m % 255 == c) by (nonlinear_arith)
                    requires
                        c == (m - 1) % 255 + 1,
                        c < 255,
                ;
            } else {
                assert(m % 255 == 0) by (nonlinear_arith)
                    requires
                        255 == (m - 1) % 255 + 1,
                ;
            }
        }
    }
}

/// How the leading stretch grows when a byte is appended.
pub proof fn lemma_leading_run_push(bytes: Seq<u8>, b: u8)
    ensures
        leading_run(bytes) <= bytes.len(),
        leading_run(bytes.push(b)) == if bytes.len() == 0 {
            1
        } else if leading_run(bytes) == bytes.len() && b == bytes[0] {
            bytes.len() + 1
        } else {
            leading_run(bytes)
        },
    decreases bytes.len(),
{
    if bytes.len() >= 1 {
        lemma_leading_run_push(bytes.skip(1), b);
        assert(bytes.push(b).skip(1) =~= bytes.skip(1).push(b));
    }
}

/// The first run of an encoding carries the first byte and counts the
/// stretch that the bytes start with, up to 255; a second run of the same
/// symbol follows exactly when that stretch is longer.
pub proof fn lemma_rle_first_run(bytes: Seq<u8>)
    requires
        bytes.len() > 0,
    ensures
        rle(bytes).len() >= 2,
        rle(bytes).len() % 2 == 0,
        rle(bytes)[0] == bytes[0],
        rle(bytes)[1] == if leading_run(bytes) <= 255 {
            leading_run(bytes)
        } else {
            255
        },
        rle(bytes).len() == 2 <==> leading_run(bytes) == bytes.len() && leading_run(bytes) <= 255,
        rle(bytes).len() >= 4 ==> (rle(bytes)[2] == rle(bytes)[0] <==> leading_run(bytes) > 255),
    decreases bytes.len(),
{
    let front = bytes.drop_last();
    let b = bytes.last();
    assert(front.push(b) =~= bytes);
    lemma_leading_run_push(front, b);
    lemma_rle_sound(front);
    if front.len() > 0 {
        lemma_rle_first_run(front);
    }
}

/// Pushing a byte brings two neighbouring runs of one symbol into an
/// encoding exactly when it starts a run behind a full run of that byte.
pub proof fn lemma_push_byte_maximal(enc: Seq<u8>, b: u8)
    requires
        enc.len() % 2 == 0,
    ensures
        maximal(push_byte(enc, b)) <==> maximal(enc) && !(enc.len() >= 2 && enc[enc.len() - 2] == b
            && enc.last() == MAX_COUNT),
{
    let out = push_byte(enc, b);
    let last = run_total(enc) - 1;
    if maximal(out) {
        assert forall|k: int| 0 <= k && k + 1 < run_total(enc) implies #[trigger] symbol_at(enc, k)
            != symbol_at(enc, k + 1) by {
            assert(symbol_at(out, k) != symbol_at(out, k + 1));
        }
        if enc.len() >= 2 && enc.last() == MAX_COUNT {
            assert(symbol_at(out, last) != symbol_at(out, last + 1));
        }
    }
    if maximal(enc) && !(enc.len() >= 2 && enc[enc.len() - 2] == b && enc.last() == MAX_COUNT) {
        assert forall|k: int| 0 <= k && k + 1 < run_total(out) implies #[trigger] symbol_at(out, k)
            != symbol_at(out, k + 1) by {
            if k + 1 < run_total(enc) {
                assert(symbol_at(enc, k) != symbol_at(enc, k + 1));
            }
        }
    }
}

/// No two neighbouring runs of an encoding carry the same symbol, unless
/// the bytes hold a stretch of more than 255 copies of one byte: such a
/// stretch takes several runs of its symbol.
pub proof fn lemma_maximal_iff_short_runs(bytes: Seq<u8>)
    ensures
        maximal(rle(bytes)) <==> short_runs(bytes),
    decreases bytes.len(),
{
    if bytes.len() == 0 {
        assert forall|i: int| 0 <= i <= bytes.len() implies trailing_run(
            #[trigger] bytes.take(i),
        ) <= MAX_COUNT by {}
    } else {
        let front = bytes.drop_last();
        lemma_maximal_iff_short_runs(front);
        lemma_rle_sound(front);
        lemma_push_byte_maximal(rle(front), bytes.last());
        assert(bytes.take(bytes.len() as int) =~= bytes);
        assert(front.take(front.len() as int) =~= front);
        assert forall|i: int| 0 <= i <= front.len() implies #[trigger] bytes.take(i) == front.take(
            i,
        ) by {}
        if short_runs(bytes) {
            assert forall|i: int| 0 <= i <= front.len() implies trailing_run(
                #[trigger] front.take(i),
            ) <= MAX_COUNT by {
                assert(bytes.take(i) == front.take(i));
            }
        }
        if front.len() > 0 {
            lemma_rle_last_run(front);
            let m = trailing_run(front) as int;
            if front.last() == bytes.last() {
                assert(if m <= 255 {
                    (m < 255) == ((m - 1) % 255 + 1 < 255)
                } else {
                    true
                }) by (nonlinear_arith)
                    requires
                        1 <= m,
                ;
            }
        }
    }
}

/// The stretch that bytes start with holds copies of the first byte only.
pub proof fn lemma_leading_run_same(bytes: Seq<u8>)
    ensures
        leading_run(bytes) <= bytes.len(),
        forall|i: int| 0 <= i < leading_run(bytes) ==> #[trigger] bytes[i] == bytes[0],
    decreases bytes.len(),
{
    if bytes.len() >= 2 && bytes[1] == bytes[0] {
        let rest = bytes.skip(1);
        lemma_leading_run_same(rest);
        assert forall|i: int| 0 <= i < leading_run(bytes) implies #[trigger] bytes[i]
            == bytes[0] by {
            if i > 0 {
                assert(rest[i - 1] == rest[0]);
            }
        }
    }
}

/// Bytes that end with `count` copies of one byte end with a stretch of at
/// least that length.
pub proof fn lemma_trailing_run_covers(bytes: Seq<u8>, count: int)
    requires
        0 <= count <= bytes.len(),
        forall|i: int|
            bytes.len() - count <= i < bytes.len() ==> #[trigger] bytes[i] == bytes.last(),
    ensures
        trailing_run(bytes) >= count,
    decreases count,
{
    if count >= 2 {
        let front = bytes.drop_last();
        assert forall|i: int|
            front.len() - (count - 1) <= i < front.len() implies #[trigger] front[i]
            == front.last() by {}
        lemma_trailing_run_covers(front, count - 1);
    }
}

/// Leaving out bytes at the front makes the stretch at the end no longer.
pub proof fn lemma_trailing_run_skip(bytes: Seq<u8>, from: int)
    requires
        0 <= from <= bytes.len(),
    ensures
        trailing_run(bytes.skip(from)) <= trailing_run(bytes),
    decreases bytes.len(),
{
    let rest = bytes.skip(from);
    if rest.len() >= 2 && rest[rest.len() - 2] == rest.last() {
        lemma_trailing_run_skip(bytes.drop_last(), from);
        assert(rest.drop_last() =~= bytes.drop_last().skip(from));
    }
}

/// A window of bytes without a long stretch holds no long stretch, and
/// starts with none.
pub proof fn lemma_short_runs_window(bytes: Seq<u8>, from: int, to: int)
    requires
        short_runs(bytes),
        0 <= from <= to <= bytes.len(),
    ensures
        short_runs(bytes.subrange(from, to)),
        leading_run(bytes.subrange(from, to)) <= MAX_COUNT,
{
    let window = bytes.subrange(from, to);
    assert forall|i: int| 0 <= i <= window.len() implies trailing_run(#[trigger] window.take(i))
        <= MAX_COUNT by {
        let upto = bytes.take(from + i);
        lemma_trailing_run_skip(upto, from);
        assert(upto.skip(from) =~= window.take(i));
    }
    let lead = leading_run(window) as int;
    lemma_leading_run_same(window);
    if lead > 0 {
        let upto = bytes.take(from + lead);
        assert forall|i: int| upto.len() - lead <= i < upto.len() implies #[trigger] upto[i]
            == upto.last() by {
            assert(upto[i] == window[i - from]);
            assert(upto.last() == window[lead - 1]);
        }
        lemma_trailing_run_covers(upto, lead);
    }
}

} // verus!
