//! Fixed-width little-endian encoding of the integers that message headers
//! are made of.

use vstd::bytes::*;
use vstd::prelude::*;
use vstd::slice::slice_subrange;

verus! {

/// Bytes that one `usize` or `u64` takes on the wire.
pub const WORD_LEN: usize = 8;

/// Bytes that one `i32` takes on the wire.
pub const HALF_WORD_LEN: usize = 4;

/// The wire form of a `u64`.
pub open spec fn word_bytes(x: u64) -> Seq<u8> {
    spec_u64_to_le_bytes(x)
}

/// The wire form of an `i32`: its two's complement.
pub open spec fn half_word_bytes(x: i32) -> Seq<u8> {
    spec_u32_to_le_bytes(x as u32)
}

/// The `u64` whose wire form stands at position `at`, if eight bytes are there.
pub open spec fn word_at(data: Seq<u8>, at: int) -> Option<u64> {
    if 0 <= at && at + 8 <= data.len() {
        Some(spec_u64_from_le_bytes(data.subrange(at, at + 8)))
    } else {
        None
    }
}

/// The `usize` whose wire form stands at position `at`, if eight bytes are
/// there and the number is one.
pub open spec fn usize_at(data: Seq<u8>, at: int) -> Option<usize> {
    match word_at(data, at) {
        Some(x) => if x <= usize::MAX {
            Some(x as usize)
        } else {
            None
        },
        None => None,
    }
}

/// The `i32` whose wire form stands at position `at`, if four bytes are there.
pub open spec fn half_word_at(data: Seq<u8>, at: int) -> Option<i32> {
    if 0 <= at && at + 4 <= data.len() {
        Some(spec_u32_from_le_bytes(data.subrange(at, at + 4)) as i32)
    } else {
        None
    }
}

/// Appends a `u64` to a message.
pub fn push_word(buf: &mut Vec<u8>, x: u64)
    ensures
        final(buf)@ == old(buf)@ + word_bytes(x),
{
    let mut bytes = u64_to_le_bytes(x);
    buf.append(&mut bytes);
}

/// Appends a `usize` to a message.
pub fn push_usize(buf: &mut Vec<u8>, x: usize)
    ensures
        final(buf)@ == old(buf)@ + word_bytes(x as u64),
{
    push_word(buf, x as u64);
}

/// Appends an `i32` to a message.
pub fn push_half_word(buf: &mut Vec<u8>, x: i32)
    ensures
        final(buf)@ == old(buf)@ + half_word_bytes(x),
{
    let mut bytes = u32_to_le_bytes(x as u32);
    buf.append(&mut bytes);
}

/// Reads the `u64` at position `at` of a message.
pub fn read_word(data: &[u8], at: usize) -> (r: Option<u64>)
    ensures
        r == word_at(data@, at as int),
{
    if data.len() >= WORD_LEN && at <= data.len() - WORD_LEN {
        Some(u64_from_le_bytes(slice_subrange(data, at, at + WORD_LEN)))
    } else {
        None
    }
}

/// Reads the `usize` at position `at` of a message.
pub fn read_usize(data: &[u8], at: usize) -> (r: Option<usize>)
    ensures
        r == usize_at(data@, at as int),
{
    match read_word(data, at) {
        Some(x) => if x <= usize::MAX as u64 {
            Some(x as usize)
        } else {
            None
        },
        None => None,
    }
}

/// Reads the `i32` at position `at` of a message.
pub fn read_half_word(data: &[u8], at: usize) -> (r: Option<i32>)
    ensures
        r == half_word_at(data@, at as int),
{
    if data.len() >= HALF_WORD_LEN && at <= data.len() - HALF_WORD_LEN {
        Some(u32_from_le_bytes(slice_subrange(data, at, at + HALF_WORD_LEN)) as i32)
    } else {
        None
    }
}

/// A `u64` takes eight bytes wherever it is written.
pub proof fn word_len(x: u64)
    ensures
        word_bytes(x).len() == 8,
{
    lemma_auto_spec_u64_to_from_le_bytes();
}

/// An `i32` takes four bytes wherever it is written.
pub proof fn half_word_len(x: i32)
    ensures
        half_word_bytes(x).len() == 4,
{
    lemma_auto_spec_u32_to_from_le_bytes();
}

/// A `u64` that was written into a message is read back from there.
pub proof fn word_read_back(data: Seq<u8>, at: int, x: u64)
    requires
        0 <= at,
        at + 8 <= data.len(),
        data.subrange(at, at + 8) == word_bytes(x),
    ensures
        word_at(data, at) == Some(x),
{
    lemma_auto_spec_u64_to_from_le_bytes();
    word_len(x);
}

/// A `usize` that was written into a message is read back from there.
pub proof fn usize_read_back(data: Seq<u8>, at: int, x: usize)
    requires
        0 <= at,
        at + 8 <= data.len(),
        data.subrange(at, at + 8) == word_bytes(x as u64),
    ensures
        usize_at(data, at) == Some(x),
{
    word_read_back(data, at, x as u64);
}

/// An `i32` that was written into a message is read back from there.
pub proof fn half_word_read_back(data: Seq<u8>, at: int, x: i32)
    requires
        0 <= at,
        at + 4 <= data.len(),
        data.subrange(at, at + 4) == half_word_bytes(x),
    ensures
        half_word_at(data, at) == Some(x),
{
    lemma_auto_spec_u32_to_from_le_bytes();
    assert(spec_u32_to_le_bytes(x as u32).len() == 4);
    assert((x as u32) as i32 == x) by (bit_vector);
}

/// A `u64` is written with its lowest byte first.
pub proof fn low_bytes_go_first(x: u64)
    ensures
        word_bytes(x) == seq![
            (x & 0xff) as u8,
            ((x >> 8) & 0xff) as u8,
            ((x >> 16) & 0xff) as u8,
            ((x >> 24) & 0xff) as u8,
            ((x >> 32) & 0xff) as u8,
            ((x >> 40) & 0xff) as u8,
            ((x >> 48) & 0xff) as u8,
            ((x >> 56) & 0xff) as u8,
        ],
{
    spec_u64_to_le_bytes_to_open(x);
}

} // verus!
