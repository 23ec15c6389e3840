//! The on-disk record format shared by both key-value stores:
//! `timestamp (8) | key_len (8) | val_len (8) | key | value`,
//! every number an unsigned 64-bit big-endian integer.

use vstd::prelude::*;
use vstd::utf8::encode_utf8;

verus! {

/// The eight big-endian bytes of `x`.
pub open spec fn be_bytes(x: u64) -> Seq<u8> {
    seq![
        (x >> 56u64) as u8,
        (x >> 48u64) as u8,
        (x >> 40u64) as u8,
        (x >> 32u64) as u8,
        (x >> 24u64) as u8,
        (x >> 16u64) as u8,
        (x >> 8u64) as u8,
        x as u8,
    ]
}

/// The big-endian number held in the first eight bytes of `b`.
pub open spec fn be_value(b: Seq<u8>) -> u64
    recommends
        b.len() >= 8,
{
    ((b[0] as u64) << 56u64) | ((b[1] as u64) << 48u64) | ((b[2] as u64) << 40u64) | ((
    b[3] as u64) << 32u64) | ((b[4] as u64) << 24u64) | ((b[5] as u64) << 16u64) | ((
    b[6] as u64) << 8u64) | (b[7] as u64)
}

/// Reading back eight big-endian bytes gives the number that was written.
pub proof fn lemma_be_roundtrip(x: u64)
    ensures
        be_value(be_bytes(x)) == x,
{
    let b = be_bytes(x);
    let (b0, b1, b2, b3, b4, b5, b6, b7) = (b[0], b[1], b[2], b[3], b[4], b[5], b[6], b[7]);
    assert(b0 == (x >> 56u64) as u8);
    assert(b7 == x as u8);
    assert(((b0 as u64) << 56u64) | ((b1 as u64) << 48u64) | ((b2 as u64) << 40u64) | ((
    b3 as u64) << 32u64) | ((b4 as u64) << 24u64) | ((b5 as u64) << 16u64) | ((b6 as u64)
        << 8u64) | (b7 as u64) == x) by (bit_vector)
        requires
            b0 == (x >> 56u64) as u8,
            b1 == (x >> 48u64) as u8,
            b2 == (x >> 40u64) as u8,
            b3 == (x >> 32u64) as u8,
            b4 == (x >> 24u64) as u8,
            b5 == (x >> 16u64) as u8,
            b6 == (x >> 8u64) as u8,
            b7 == x as u8,
    ;
}

/// The record written for `key` and `value` at time `timestamp`.
pub open spec fn record_bytes(timestamp: u64, key: Seq<u8>, value: Seq<u8>) -> Seq<u8> {
    be_bytes(timestamp) + be_bytes(key.len() as u64) + be_bytes(value.len() as u64) + key
        + value
}

/// The length of the record for a key and value given as text, each stored
/// as its UTF-8 bytes.
pub open spec fn record_size(key: Seq<char>, value: Seq<char>) -> int {
    24 + encode_utf8(key).len() + encode_utf8(value).len() as int
}

/// The value stored in the record `buf`, or `None` where the header's lengths
/// do not fit inside `buf`.
pub open spec fn record_value(buf: Seq<u8>) -> Option<Seq<u8>> {
    if buf.len() < 24 {
        None
    } else {
        let key_len = be_value(buf.subrange(8, 16)) as usize;
        let val_len = be_value(buf.subrange(16, 24)) as usize;
        if 24 + key_len + val_len <= buf.len() {
            Some(buf.subrange(24 + key_len, 24 + key_len + val_len))
        } else {
            None
        }
    }
}

/// Appends the big-endian bytes of `x` to `out`.
fn push_be(out: &mut Vec<u8>, x: u64)
    ensures
        final(out)@ == old(out)@ + be_bytes(x),
{
    out.push((x >> 56u64) as u8);
    out.push((x >> 48u64) as u8);
    out.push((x >> 40u64) as u8);
    out.push((x >> 32u64) as u8);
    out.push((x >> 24u64) as u8);
    out.push((x >> 16u64) as u8);
    out.push((x >> 8u64) as u8);
    out.push(x as u8);
    assert(final(out)@ =~= old(out)@ + be_bytes(x));
}

/// Appends every byte of `bytes` to `out`.
fn push_all(out: &mut Vec<u8>, bytes: &[u8])
    ensures
        final(out)@ == old(out)@ + bytes@,
{
    let ghost start = out@;
    let mut i: usize = 0;
    while i < bytes.len()
        invariant
            i <= bytes.len(),
            out@ == start + bytes@.subrange(0, i as int),
        decreases bytes.len() - i,
    {
        out.push(bytes[i]);
        i = i + 1;
        assert(out@ =~= start + bytes@.subrange(0, i as int));
    }
    assert(bytes@.subrange(0, i as int) =~= bytes@);
}

/// Builds the record for `key` and `value` written at `timestamp`.
pub fn encode_record(timestamp: u64, key: &[u8], value: &[u8]) -> (record: Vec<u8>)
    ensures
        record@ == record_bytes(timestamp, key@, value@),
{
    let mut record: Vec<u8> = Vec::new();
    push_be(&mut record, timestamp);
    push_be(&mut record, key.len() as u64);
    push_be(&mut record, value.len() as u64);
    push_all(&mut record, key);
    push_all(&mut record, value);
    record
}

/// The big-endian number in `buf[at..at + 8]`.
fn read_be(buf: &[u8], at: usize) -> (x: u64)
    requires
        at + 8 <= buf@.len(),
    ensures
        x == be_value(buf@.subrange(at as int, at + 8)),
{
    let ghost b = buf@.subrange(at as int, at + 8);
    assert(b[0] == buf[at as int] && b[7] == buf[at + 7]);
    ((buf[at] as u64) << 56u64) | ((buf[at + 1] as u64) << 48u64) | ((buf[at + 2] as u64)
        << 40u64) | ((buf[at + 3] as u64) << 32u64) | ((buf[at + 4] as u64) << 24u64) | ((
    buf[at + 5] as u64) << 16u64) | ((buf[at + 6] as u64) << 8u64) | (buf[at + 7] as u64)
}

/// Copies `buf[from..to]`.
fn copy_range(buf: &[u8], from: usize, to: usize) -> (out: Vec<u8>)
    requires
        from <= to <= buf@.len(),
    ensures
        out@ == buf@.subrange(from as int, to as int),
{
    let mut out: Vec<u8> = Vec::new();
    let mut i: usize = from;
    while i < to
        invariant
            from <= i <= to,
            to <= buf@.len(),
            out@ == buf@.subrange(from as int, i as int),
        decreases to - i,
    {
        out.push(buf[i]);
        i = i + 1;
        assert(out@ =~= buf@.subrange(from as int, i as int));
    }
    out
}

/// The value bytes of the record `buf`: the header's key and value lengths
/// locate them. `None` where those lengths reach past the end of `buf`.
pub fn decode_value(buf: &[u8]) -> (value: Option<Vec<u8>>)
    ensures
        match value {
            Some(v) => record_value(buf@) == Some(v@),
            None => record_value(buf@) is None,
        },
{
    if buf.len() < 24 {
        return None;
    }
    let key_len = read_be(buf, 8) as usize;
    let val_len = read_be(buf, 16) as usize;
    if key_len > buf.len() - 24 || val_len > buf.len() - 24 - key_len {
        return None;
    }
    let start = 24 + key_len;
    Some(copy_range(buf, start, start + val_len))
}

/// What is written for a key and value is what a read of that record gives
/// back as the value.
pub proof fn lemma_record_roundtrip(timestamp: u64, key: Seq<u8>, value: Seq<u8>)
    requires
        key.len() <= usize::MAX,
        value.len() <= usize::MAX,
    ensures
        record_value(record_bytes(timestamp, key, value)) == Some(value),
{
    let r = record_bytes(timestamp, key, value);
    lemma_be_roundtrip(key.len() as u64);
    lemma_be_roundtrip(value.len() as u64);
    assert(r.subrange(8, 16) =~= be_bytes(key.len() as u64));
    assert(r.subrange(16, 24) =~= be_bytes(value.len() as u64));
    assert(r.subrange(24 + key.len() as int, 24 + key.len() + value.len() as int) =~= value);
}

/// A record's value is found from its own header, whatever bytes follow the
/// record: reading `record + rest` gives the record's value, taken from
/// offset `24 + key.len()` for `value.len()` bytes.
pub proof fn lemma_record_value_with_rest(
    timestamp: u64,
    key: Seq<u8>,
    value: Seq<u8>,
    rest: Seq<u8>,
)
    requires
        key.len() <= usize::MAX,
        value.len() <= usize::MAX,
    ensures
        record_value(record_bytes(timestamp, key, value) + rest) == Some(value),
        (record_bytes(timestamp, key, value) + rest).subrange(
            24 + key.len() as int,
            24 + key.len() + value.len() as int,
        ) == value,
{
    let r = record_bytes(timestamp, key, value);
    let buf = r + rest;
    lemma_be_roundtrip(key.len() as u64);
    lemma_be_roundtrip(value.len() as u64);
    assert(buf.subrange(8, 16) =~= be_bytes(key.len() as u64));
    assert(buf.subrange(16, 24) =~= be_bytes(value.len() as u64));
    assert(buf.subrange(24 + key.len() as int, 24 + key.len() + value.len() as int) =~= value);
}

} // verus!
