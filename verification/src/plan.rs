//! The chunk planner: cuts the length of a buffer into windows of one size.

use vstd::prelude::*;

verus! {

/// The window size used when a buffer is encoded by several workers.
pub const BUFFER_SIZE: usize = 4096;

/// How many windows of `size` bytes it takes to cover `len` bytes.
pub open spec fn window_total(len: int, size: int) -> int {
    (len + size - 1) / size
}

/// Where the `k`-th window starts.
pub open spec fn window_start(size: int, k: int) -> int {
    k * size
}

/// Where the `k`-th window ends: a full window later, or at the end of the
/// buffer where that comes first.
pub open spec fn window_end(len: int, size: int, k: int) -> int {
    if k * size + size < len {
        k * size + size
    } else {
        len
    }
}

/// The windows reach the end of the buffer, and the last one is not empty.
proof fn lemma_total_bounds(len: int, size: int)
    requires
        0 <= len,
        0 < size,
    ensures
        window_total(len, size) * size < len + size,
        len <= window_total(len, size) * size,
{
    let total = (len + size - 1) / size;
    assert(total * size < len + size && len <= total * size) by (nonlinear_arith)
        requires
            0 <= len,
            0 < size,
            total == (len + size - 1) / size,
    ;
}

/// The windows tile the buffer: each holds at least one byte and at most
/// `size`, the first starts at 0, each starts where the one before it
/// ended, and the last ends at `len`.
pub proof fn lemma_windows_tile(len: int, size: int)
    requires
        0 <= len,
        0 < size,
    ensures
        0 <= window_total(len, size),
        len > 0 ==> window_total(len, size) > 0,
        len == 0 ==> window_total(len, size) == 0,
        forall|k: int|
            0 <= k < window_total(len, size) ==> {
                &&& 0 <= window_start(size, k) < #[trigger] window_end(len, size, k) <= len
                &&& window_end(len, size, k) - window_start(size, k) <= size
                &&& window_end(len, size, k) == if k + 1 < window_total(len, size) {
                    window_start(size, k + 1)
                } else {
                    len
                }
            },
        window_start(size, 0) == 0,
{
    let total = window_total(len, size);
    lemma_total_bounds(len, size);
    assert(0 <= total && (len > 0 ==> total > 0) && (len == 0 ==> total == 0))
        by (nonlinear_arith)
        requires
            0 <= len,
            0 < size,
            total * size < len + size,
            len <= total * size,
    ;
    assert forall|k: int| 0 <= k < total implies {
        &&& 0 <= window_start(size, k) < #[trigger] window_end(len, size, k) <= len
        &&& window_end(len, size, k) - window_start(size, k) <= size
        &&& window_end(len, size, k) == if k + 1 < total {
            window_start(size, k + 1)
        } else {
            len
        }
    } by {
        assert(0 <= k * size && k * size + size <= total * size && (k + 1) * size == k * size
            + size && (k + 1 < total ==> k * size + size + size <= total * size))
            by (nonlinear_arith)
            requires
                0 <= k < total,
                0 < size,
        ;
    }
}

/// Plans the windows of a buffer of `len` bytes, in ascending order.
pub fn plan_windows(len: usize, size: usize) -> (windows: Vec<(usize, usize)>)
    requires
        size > 0,
    ensures
        windows@.len() == window_total(len as int, size as int),
        forall|k: int|
            0 <= k < windows@.len() ==> {
                &&& (#[trigger] windows@[k]).0 == window_start(size as int, k)
                &&& windows@[k].1 == window_end(len as int, size as int, k)
            },
        len == 0 <==> windows@.len() == 0,
        len > 0 ==> windows@[0].0 == 0 && windows@.last().1 == len,
        forall|k: int|
            0 <= k < windows@.len() ==> (#[trigger] windows@[k]).0 < windows@[k].1
                <= windows@[k].0 + size,
        forall|k: int|
            0 <= k && k + 1 < windows@.len() ==> (#[trigger] windows@[k]).1 == windows@[k + 1].0,
{
    let mut windows: Vec<(usize, usize)> = Vec::new();
    let mut start: usize = 0;
    proof {
        lemma_windows_tile(len as int, size as int);
    }
    while start < len
        invariant
            size > 0,
            start <= len,
            windows@.len() <= window_total(len as int, size as int),
            start < len ==> start == window_start(size as int, windows@.len() as int),
            start == len ==> windows@.len() == window_total(len as int, size as int),
            forall|k: int|
                0 <= k < windows@.len() ==> {
                    &&& (#[trigger] windows@[k]).0 == window_start(size as int, k)
                    &&& windows@[k].1 == window_end(len as int, size as int, k)
                },
        decreases len - start,
    {
        let ghost k = windows@.len() as int;
        let end: usize = if len - start > size {
            start + size
        } else {
            len
        };
        proof {
            let l = len as int;
            let s = size as int;
            let e = end as int;
            let total = window_total(l, s);
            lemma_total_bounds(l, s);
            assert(k < total) by (nonlinear_arith)
                requires
                    k * s < l,
                    l <= total * s,
                    0 < s,
            ;
            assert(e == l ==> k + 1 == total) by (nonlinear_arith)
                requires
                    k < total,
                    total * s < l + s,
                    e == l ==> l <= k * s + s,
                    0 < s,
            ;
            assert(e < l ==> e == window_start(s, k + 1)) by (nonlinear_arith)
                requires
                    e < l ==> e == k * s + s,
                    window_start(s, k + 1) == (k + 1) * s,
            ;
        }
        windows.push((start, end));
        start = end;
    }
    proof {
        lemma_windows_tile(len as int, size as int);
    }
    windows
}

} // verus!
