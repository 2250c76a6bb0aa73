//! The record format of the log.
//!
//! A record is `key_length` and `value_length`, each an unsigned 64-bit
//! integer in little-endian order, followed by the key's bytes and the
//! value's bytes. A record with an empty value is a tombstone.

use vstd::prelude::*;
use vstd::bytes::{spec_u64_from_le_bytes, spec_u64_to_le_bytes, u64_from_le_bytes, u64_to_le_bytes, lemma_auto_spec_u64_to_from_le_bytes};
use vstd::slice::slice_subrange;

verus! {

/// The number of bytes in front of a record's key: the two length fields.
pub const HEADER_LEN: usize = 16;

/// One key with its value, as the log and the index hold them.
#[derive(Debug)]
pub struct Record {
    pub key: Vec<u8>,
    pub value: Vec<u8>,
}

impl Record {
    /// The record as a pair of byte sequences: the key, then the value.
    pub open spec fn view(&self) -> (Seq<u8>, Seq<u8>) {
        (self.key@, self.value@)
    }

    /// Whether the record deletes its key: its value is empty.
    pub fn is_tombstone(&self) -> (r: bool)
        ensures
            r == (self@.1.len() == 0),
    {
        self.value.len() == 0
    }
}

/// The bytes of the record for `key` and `value`.
pub open spec fn encode_spec(key: Seq<u8>, value: Seq<u8>) -> Seq<u8> {
    spec_u64_to_le_bytes(key.len() as u64) + spec_u64_to_le_bytes(value.len() as u64) + key
        + value
}

/// The record at the start of `buf`, with the number of bytes it takes, or
/// `None` where `buf` does not hold a whole record.
pub open spec fn decode_spec(buf: Seq<u8>) -> Option<(Seq<u8>, Seq<u8>, int)> {
    if buf.len() < 16 {
        None
    } else {
        let klen = spec_u64_from_le_bytes(buf.subrange(0, 8)) as int;
        let vlen = spec_u64_from_le_bytes(buf.subrange(8, 16)) as int;
        if 16 + klen + vlen > buf.len() {
            None
        } else {
            Some((buf.subrange(16, 16 + klen), buf.subrange(16 + klen, 16 + klen + vlen), 16 + klen + vlen))
        }
    }
}

/// A fresh vector with the bytes of `src`.
pub fn copy_bytes(src: &[u8]) -> (out: Vec<u8>)
    ensures
        out@ == src@,
{
    let mut out: Vec<u8> = Vec::new();
    extend_bytes(&mut out, src);
    out
}

/// Appends the bytes of `src` to `dst`.
pub fn extend_bytes(dst: &mut Vec<u8>, src: &[u8])
    ensures
        final(dst)@ == old(dst)@ + src@,
{
    let n: usize = src.len();
    let mut i: usize = 0;
    while i < n
        invariant
            n == src@.len(),
            i <= n,
            dst@ == old(dst)@ + src@.take(i as int),
        decreases n - i,
    {
        dst.push(src[i]);
        i += 1;
        assert(dst@ =~= old(dst)@ + src@.take(i as int));
    }
    assert(src@.take(n as int) =~= src@);
}

/// Whether `a` and `b` hold the same bytes.
pub fn bytes_eq(a: &[u8], b: &[u8]) -> (r: bool)
    ensures
        r == (a@ == b@),
{
    if a.len() != b.len() {
        return false;
    }
    let n: usize = a.len();
    let mut i: usize = 0;
    while i < n
        invariant
            n == a@.len(),
            n == b@.len(),
            i <= n,
            a@.take(i as int) == b@.take(i as int),
        decreases n - i,
    {
        if a[i] != b[i] {
            return false;
        }
        i += 1;
        assert(a@.take(i as int) =~= a@.take(i - 1).push(a@[i - 1]));
        assert(b@.take(i as int) =~= b@.take(i - 1).push(b@[i - 1]));
    }
    assert(a@.take(n as int) =~= a@);
    assert(b@.take(n as int) =~= b@);
    true
}

/// Encodes one record: both lengths as little-endian `u64`, then the key and
/// the value.
pub fn encode(key: &[u8], value: &[u8]) -> (out: Vec<u8>)
    ensures
        out@ == encode_spec(key@, value@),
        out@.len() == 16 + key@.len() + value@.len(),
{
    let mut out: Vec<u8> = u64_to_le_bytes(key.len() as u64);
    let vlen: Vec<u8> = u64_to_le_bytes(value.len() as u64);
    extend_bytes(&mut out, vlen.as_slice());
    extend_bytes(&mut out, key);
    extend_bytes(&mut out, value);
    out
}

/// Decodes the record that starts at `offset` in `buffer`.
///
/// Returns the record and the number of bytes it takes, or `None` where the
/// buffer holds no whole record there: fewer than 16 bytes are left, or the
/// lengths in the header reach past the end of the buffer. Nothing is read
/// out of bounds, whatever the header says.
pub fn decode(buffer: &[u8], offset: usize) -> (r: Option<(Record, usize)>)
    ensures
        match r {
            Some((rec, n)) => 16 <= n && offset + n <= buffer@.len() && decode_spec(
                buffer@.skip(offset as int),
            ) == Some((rec@.0, rec@.1, n as int)),
            None => offset > buffer@.len() || decode_spec(buffer@.skip(offset as int)) is None,
        },
{
    let len: usize = buffer.len();
    if offset > len || len - offset < HEADER_LEN {
        return None;
    }
    let ghost rest = buffer@.skip(offset as int);
    let klen: u64 = u64_from_le_bytes(slice_subrange(buffer, offset, offset + 8));
    let vlen: u64 = u64_from_le_bytes(slice_subrange(buffer, offset + 8, offset + 16));
    assert(buffer@.subrange(offset as int, offset + 8) =~= rest.subrange(0, 8));
    assert(buffer@.subrange(offset + 8, offset + 16) =~= rest.subrange(8, 16));
    let avail: usize = len - offset - HEADER_LEN;
    if klen > avail as u64 {
        return None;
    }
    if vlen > avail as u64 - klen {
        return None;
    }
    let kl: usize = klen as usize;
    let vl: usize = vlen as usize;
    let start: usize = offset + HEADER_LEN;
    let key: Vec<u8> = copy_bytes(slice_subrange(buffer, start, start + kl));
    let value: Vec<u8> = copy_bytes(slice_subrange(buffer, start + kl, start + kl + vl));
    assert(key@ =~= rest.subrange(16, 16 + kl));
    assert(value@ =~= rest.subrange(16 + kl, 16 + kl + vl));
    Some((Record { key, value }, HEADER_LEN + kl + vl))
}

/// Decoding what was encoded gives back the key and the value, byte for byte,
/// and takes exactly the record's bytes, whatever follows the record. This
/// holds of a record with an empty value as of any other.
pub proof fn lemma_decode_encode(key: Seq<u8>, value: Seq<u8>, rest: Seq<u8>)
    requires
        key.len() <= u64::MAX,
        value.len() <= u64::MAX,
    ensures
        encode_spec(key, value).len() == 16 + key.len() + value.len(),
        decode_spec(encode_spec(key, value) + rest) == Some(
            (key, value, 16 + key.len() as int + value.len() as int),
        ),
{
    lemma_auto_spec_u64_to_from_le_bytes();
    let kh = spec_u64_to_le_bytes(key.len() as u64);
    let vh = spec_u64_to_le_bytes(value.len() as u64);
    let buf = encode_spec(key, value) + rest;
    assert(buf.subrange(0, 8) =~= kh);
    assert(buf.subrange(8, 16) =~= vh);
    let kl = key.len() as int;
    let vl = value.len() as int;
    assert(buf.subrange(16, 16 + kl) =~= key);
    assert(buf.subrange(16 + kl, 16 + kl + vl) =~= value);
}

} // verus!
