//! Field-level wire codec: header tokens and length-prefixed regions.
//!
//! Every field starts with a header token: a single variable-length integer
//! packing the field's tag, a critical flag, and a three-bit wire-type code.
//! Dynamically sized payloads (bytes, strings, nested messages, sequences)
//! follow the header behind a length prefix; fixed-size integers follow it
//! directly as one more variable-length integer.

use vstd::prelude::*;

use crate::error::{DecodeError, EncodeError};
use crate::vint::{matches_in, read_vint, vint_bytes, vint_len};

verus! {

/// The encoding category of a field's payload.
#[derive(Clone, Copy, Debug, PartialEq, Eq, Structural)]
pub enum WireType {
    /// 64-bit unsigned integer
    UInt64,
    /// Raw binary data
    Bytes,
    /// ASCII text
    String,
    /// Length-prefixed run of homogeneously typed elements
    Sequence,
    /// Nested message
    Message,
}

/// The three-bit code a wire type occupies inside a header token.
pub open spec fn wire_code(wt: WireType) -> int {
    match wt {
        WireType::UInt64 => 2,
        WireType::Bytes => 4,
        WireType::String => 5,
        WireType::Sequence => 7,
        WireType::Message => 6,
    }
}

/// The header token of a field: tag, critical flag and wire type packed
/// into one integer.
pub open spec fn header_value(tag: u64, critical: bool, wt: WireType) -> u64
    recommends
        tag < 0x1000_0000,
{
    (tag * 16 + (if critical {
        8int
    } else {
        0int
    }) + wire_code(wt)) as u64
}

/// The encoding of a 64-bit unsigned integer field.
pub open spec fn enc_u64_field(tag: u64, critical: bool, v: u64) -> Seq<u8> {
    vint_bytes(header_value(tag, critical, WireType::UInt64)) + vint_bytes(v)
}

/// The encoding of a dynamically sized field: header, length prefix, payload.
pub open spec fn enc_region_field(tag: u64, critical: bool, wt: WireType, body: Seq<u8>)
    -> Seq<u8> {
    vint_bytes(header_value(tag, critical, wt)) + vint_bytes(body.len() as u64) + body
}

/// A pattern made of two pieces occupies a region exactly when the pieces
/// occupy it back to back.
pub proof fn lemma_matches_split(s: Seq<u8>, pos: int, end: int, a: Seq<u8>, b: Seq<u8>)
    requires
        matches_in(s, pos, end, a + b),
    ensures
        matches_in(s, pos, end, a),
        matches_in(s, pos + a.len(), end, b),
{
    let ab = a + b;
    assert forall|i: int| 0 <= i < a.len() implies s.subrange(pos, pos + a.len())[i] == a[i] by {
        assert(s.subrange(pos, pos + ab.len())[i] == ab[i]);
    }
    assert(s.subrange(pos, pos + a.len()) =~= a);
    assert forall|i: int| 0 <= i < b.len() implies s.subrange(
        pos + a.len(), pos + a.len() + b.len())[i] == b[i] by {
        assert(s.subrange(pos, pos + ab.len())[a.len() + i] == ab[a.len() + i]);
    }
    assert(s.subrange(pos + a.len(), pos + a.len() + b.len()) =~= b);
}

/// The converse: adjacent pieces join into one pattern.
pub proof fn lemma_matches_join(s: Seq<u8>, pos: int, end: int, a: Seq<u8>, b: Seq<u8>)
    requires
        matches_in(s, pos, end, a),
        matches_in(s, pos + a.len(), end, b),
    ensures
        matches_in(s, pos, end, a + b),
{
    assert(s.subrange(pos, pos + a.len() + b.len()) =~= a + b);
}

/// Read one header token and insist on the expected value.
///
/// The decoder is strict: at every position the message layout names the one
/// header that may stand there, and any other token is an error.
pub fn expect_header(input: &[u8], pos: usize, end: usize, expected: u64) -> (r: Result<
    usize,
    DecodeError,
>)
    requires
        pos <= end <= input@.len(),
    ensures
        match r {
            Ok(p) => {
                &&& pos + vint_len(expected) == p <= end
                &&& matches_in(input@, pos as int, end as int, vint_bytes(expected))
            },
            Err(_) => !matches_in(input@, pos as int, end as int, vint_bytes(expected)),
        },
{
    match read_vint(input, pos, end) {
        Ok((v, p)) => {
            if v == expected {
                Ok(p)
            } else {
                Err(DecodeError::UnexpectedFieldHeader { tag: v / 16, wire_type: v % 8 })
            }
        },
        Err(e) => Err(e),
    }
}

/// Read a length prefix and check that it fits the remaining region.
pub fn read_length(input: &[u8], pos: usize, end: usize) -> (r: Result<
    (usize, usize),
    DecodeError,
>)
    requires
        pos <= end <= input@.len(),
    ensures
        match r {
            Ok(lp) => {
                &&& pos + vint_len(lp.0 as u64) == lp.1 <= end
                &&& lp.1 + lp.0 <= end
                &&& matches_in(input@, pos as int, end as int, vint_bytes(lp.0 as u64))
            },
            Err(_) => true,
        },
        forall|len: u64|
            matches_in(input@, pos as int, end as int, vint_bytes(len))
                && pos + vint_len(len) + len <= end ==> r == Ok::<(usize, usize), DecodeError>(
                (len as usize, (pos + vint_len(len)) as usize)),
{
    match read_vint(input, pos, end) {
        Ok((v, p)) => {
            if v > (end - p) as u64 {
                Err(DecodeError::LengthExceeded)
            } else {
                Ok((v as usize, p))
            }
        },
        Err(e) => Err(e),
    }
}

/// Overwrite the front of `buffer` with `bytes`, leaving the rest as it
/// was; fail without touching the buffer when it is too small.
pub(crate) fn copy_to_front(buffer: &mut Vec<u8>, bytes: &Vec<u8>) -> (r: Result<
    usize,
    EncodeError,
>)
    ensures
        match r {
            Ok(n) => {
                &&& n == bytes@.len() <= old(buffer)@.len()
                &&& final(buffer)@ == bytes@ + old(buffer)@.skip(n as int)
            },
            Err(e) => {
                &&& e == EncodeError::BufferTooSmall
                &&& old(buffer)@.len() < bytes@.len()
                &&& final(buffer)@ == old(buffer)@
            },
        },
{
    let n = bytes.len();
    if n > buffer.len() {
        return Err(EncodeError::BufferTooSmall);
    }
    let mut i: usize = 0;
    while i < n
        invariant
            i <= n == bytes@.len() <= buffer@.len(),
            buffer@.len() == old(buffer)@.len(),
            buffer@ =~= bytes@.take(i as int) + old(buffer)@.skip(i as int),
        decreases n - i,
    {
        buffer[i] = bytes[i];
        assert(buffer@ =~= bytes@.take(i + 1) + old(buffer)@.skip(i + 1));
        i = i + 1;
    }
    assert(buffer@ =~= bytes@ + old(buffer)@.skip(n as int));
    Ok(n)
}

} // verus!
