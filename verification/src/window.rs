//! The window encoder: one left-to-right scan over a window of bytes.

use crate::error::EncodeError;
use crate::runs::{canonical, decode, lemma_rle_sound, rle, MAX_COUNT};
use vstd::prelude::*;

verus! {

/// The window `[from, to)` of `input`, cut off at the end of `input`; empty
/// where that leaves no byte.
pub open spec fn window_of(input: Seq<u8>, from: int, to: int) -> Seq<u8> {
    let end = if to > input.len() {
        input.len() as int
    } else {
        to
    };
    if 0 <= from < end {
        input.subrange(from, end)
    } else {
        Seq::empty()
    }
}

/// Encodes one window of bytes on its own.
pub fn encode_window(window: &[u8]) -> (result: Result<Vec<u8>, EncodeError>)
    ensures
        result is Err <==> window@.len() == 0,
        result matches Err(e) ==> e == EncodeError::EmptyInput,
        result matches Ok(enc) ==> enc@ == rle(window@),
        result matches Ok(enc) ==> canonical(enc@) && decode(enc@) == window@,
{
    if window.len() == 0 {
        return Err(EncodeError::EmptyInput);
    }
    let mut output: Vec<u8> = Vec::new();
    let mut symbol: u8 = window[0];
    let mut count: u8 = 0;
    let mut i: usize = 0;
    while i < window.len()
        invariant
            i <= window.len(),
            window.len() > 0,
            i == 0 ==> count == 0 && output@.len() == 0 && symbol == window@[0],
            i > 0 ==> count > 0 && output@.push(symbol).push(count) == rle(
                window@.take(i as int),
            ),
        decreases window.len() - i,
    {
        let c: u8 = window[i];
        proof {
            let seen = window@.take(i as int);
            assert(window@.take(i + 1).drop_last() =~= seen);
            assert(i == 0 ==> rle(seen) =~= Seq::<u8>::empty());
        }
        if c == symbol {
            if count == MAX_COUNT {
                output.push(symbol);
                output.push(MAX_COUNT);
                count = 1;
            } else {
                count = count + 1;
            }
        } else {
            output.push(symbol);
            output.push(count);
            symbol = c;
            count = 1;
        }
        i = i + 1;
    }
    if count > 0 {
        output.push(symbol);
        output.push(count);
    }
    proof {
        assert(window@.take(window@.len() as int) =~= window@);
        lemma_rle_sound(window@);
    }
    Ok(output)
}

/// Encodes the window `[from, to)` of a buffer; a `to` beyond the end of
/// the buffer stands for the end.
pub fn encode_mmap(input: &[u8], from: usize, to: usize) -> (result: Result<Vec<u8>, EncodeError>)
    ensures
        result is Err <==> window_of(input@, from as int, to as int).len() == 0,
        result matches Err(e) ==> e == EncodeError::EmptyInput,
        result matches Ok(enc) ==> enc@ == rle(window_of(input@, from as int, to as int)),
{
    let end: usize = if to > input.len() {
        input.len()
    } else {
        to
    };
    if from >= end {
        return Err(EncodeError::EmptyInput);
    }
    encode_window(&input[from..end])
}

/// Encodes the window `[from, to)` of a buffer as `encode_mmap` does, with
/// the empty encoding for a window that holds no byte.
pub fn encode_partial(input: &[u8], from: usize, to: usize) -> (enc: Vec<u8>)
    ensures
        enc@ == rle(window_of(input@, from as int, to as int)),
{
    match encode_mmap(input, from, to) {
        Ok(enc) => enc,
        Err(_) => Vec::new(),
    }
}

} // verus!
