//! Timestamps: seconds and nanoseconds, carried as a nested message.
//!
//! On the wire a timestamp is a message of two unsigned-integer fields: the
//! seconds (tag 0, critical) and the nanoseconds (tag 1).

use vstd::prelude::*;

use crate::codec::{
    enc_u64_field, expect_header, header_value, lemma_matches_join, lemma_matches_split,
    WireType,
};
use crate::error::DecodeError;
use crate::vint::{
    le_value, lemma_vint_bytes_len, matches_in, read_le, read_vint, vint_bytes, vint_len,
    write_vint,
};

verus! {

/// Header token of the seconds field: tag 0, critical, unsigned integer.
pub const SECS_HEADER: u64 = 10;

/// Header token of the nanoseconds field: tag 1, not critical, unsigned
/// integer.
pub const NANOS_HEADER: u64 = 18;

/// A point in time, as seconds and nanoseconds.
#[derive(Clone, Copy, Debug, PartialEq, Eq, Structural)]
pub struct Timestamp {
    /// Seconds.
    pub secs: u64,
    /// Nanoseconds.
    pub nanos: u32,
}

impl Timestamp {
    /// The canonical wire encoding of this timestamp as a nested message.
    pub open spec fn spec_encoding(self) -> Seq<u8> {
        enc_u64_field(0, true, self.secs) + enc_u64_field(1, false, self.nanos as u64)
    }

    /// Build a timestamp from its twelve-byte serialized form: eight
    /// little-endian bytes of seconds followed by four of nanoseconds.
    pub fn from_slice(bytes: &[u8]) -> (r: Result<Timestamp, DecodeError>)
        ensures
            match r {
                Ok(ts) => {
                    &&& bytes@.len() == 12
                    &&& ts.secs as int == le_value(bytes@.subrange(0, 8))
                    &&& ts.nanos as int == le_value(bytes@.subrange(8, 12))
                },
                Err(e) => {
                    &&& e == DecodeError::MalformedElement
                    &&& bytes@.len() != 12
                },
            },
    {
        if bytes.len() != 12 {
            return Err(DecodeError::MalformedElement);
        }
        let secs = read_le(bytes, 0, 8);
        let nanos = read_le(bytes, 8, 4);
        proof {
            crate::vint::lemma_le_value_below(bytes@.subrange(8, 12));
        }
        Ok(Timestamp { secs, nanos: nanos as u32 })
    }

    /// Length of the canonical encoding.
    pub fn encoded_len(&self) -> (n: usize)
        ensures
            n == self.spec_encoding().len(),
    {
        proof {
            lemma_vint_bytes_len(SECS_HEADER);
            lemma_vint_bytes_len(NANOS_HEADER);
            lemma_vint_bytes_len(self.secs);
            lemma_vint_bytes_len(self.nanos as u64);
        }
        let mut n: usize = 2;
        n = n + crate::vint::vint_size(self.secs);
        n = n + crate::vint::vint_size(self.nanos as u64);
        n
    }

    /// Append the canonical encoding to `out`.
    pub fn encode_to(&self, out: &mut Vec<u8>)
        ensures
            final(out)@ == old(out)@ + self.spec_encoding(),
    {
        proof {
            assert(SECS_HEADER == header_value(0, true, WireType::UInt64));
            assert(NANOS_HEADER == header_value(1, false, WireType::UInt64));
        }
        write_vint(out, SECS_HEADER);
        write_vint(out, self.secs);
        write_vint(out, NANOS_HEADER);
        write_vint(out, self.nanos as u64);
        assert(out@ =~= old(out)@ + self.spec_encoding());
    }

    /// Parse the bytes of `input` from `pos` up to exactly `end` as one
    /// timestamp message.
    pub(crate) fn decode_region(input: &[u8], pos: usize, end: usize) -> (r: Result<
        Timestamp,
        DecodeError,
    >)
        requires
            pos <= end <= input@.len(),
        ensures
            match r {
                Ok(ts) => input@.subrange(pos as int, end as int) == ts.spec_encoding(),
                Err(_) => true,
            },
            forall|ts: Timestamp|
                input@.subrange(pos as int, end as int) == ts.spec_encoding()
                    ==> r == Ok::<Timestamp, DecodeError>(ts),
    {
        proof {
            assert forall|ts: Timestamp|
                input@.subrange(pos as int, end as int) == ts.spec_encoding()
                    implies matches_in(input@, pos as int, end as int, vint_bytes(SECS_HEADER))
                    && matches_in(input@, pos + 1, end as int, vint_bytes(ts.secs))
                    && matches_in(input@, pos + 1 + vint_len(ts.secs), end as int,
                    vint_bytes(NANOS_HEADER)) && matches_in(input@, pos + 2 + vint_len(ts.secs),
                    end as int, vint_bytes(ts.nanos as u64)) && pos + 2 + vint_len(ts.secs)
                    + vint_len(ts.nanos as u64) == end by {
                lemma_vint_bytes_len(ts.secs);
                lemma_vint_bytes_len(ts.nanos as u64);
                lemma_vint_bytes_len(SECS_HEADER);
                lemma_vint_bytes_len(NANOS_HEADER);
                assert(matches_in(input@, pos as int, end as int, ts.spec_encoding())) by {
                    assert(input@.subrange(pos as int, end as int).len() == end - pos);
                }
                let rest1 = vint_bytes(ts.secs) + (vint_bytes(NANOS_HEADER) + vint_bytes(
                    ts.nanos as u64));
                assert(ts.spec_encoding() =~= vint_bytes(SECS_HEADER) + rest1);
                lemma_matches_split(input@, pos as int, end as int, vint_bytes(SECS_HEADER),
                    rest1);
                lemma_matches_split(input@, pos + 1, end as int, vint_bytes(ts.secs),
                    vint_bytes(NANOS_HEADER) + vint_bytes(ts.nanos as u64));
                lemma_matches_split(input@, pos + 1 + vint_bytes(ts.secs).len(), end as int,
                    vint_bytes(NANOS_HEADER), vint_bytes(ts.nanos as u64));
            }
        }
        let p1 = match expect_header(input, pos, end, SECS_HEADER) {
            Ok(p) => p,
            Err(e) => {
                return Err(e);
            },
        };
        let (secs, p2) = match read_vint(input, p1, end) {
            Ok(vp) => vp,
            Err(e) => {
                return Err(e);
            },
        };
        let p3 = match expect_header(input, p2, end, NANOS_HEADER) {
            Ok(p) => p,
            Err(e) => {
                return Err(e);
            },
        };
        let (nanos, p4) = match read_vint(input, p3, end) {
            Ok(vp) => vp,
            Err(e) => {
                return Err(e);
            },
        };
        if nanos > 0xFFFF_FFFF {
            return Err(DecodeError::MalformedElement);
        }
        if p4 != end {
            return Err(DecodeError::TrailingData);
        }
        let ts = Timestamp { secs, nanos: nanos as u32 };
        proof {
            lemma_vint_bytes_len(SECS_HEADER);
            lemma_vint_bytes_len(NANOS_HEADER);
            lemma_vint_bytes_len(secs);
            lemma_vint_bytes_len(nanos);
            lemma_matches_join(input@, p2 as int, end as int, vint_bytes(NANOS_HEADER),
                vint_bytes(nanos));
            lemma_matches_join(input@, p1 as int, end as int, vint_bytes(secs),
                vint_bytes(NANOS_HEADER) + vint_bytes(nanos));
            lemma_matches_join(input@, pos as int, end as int, vint_bytes(SECS_HEADER),
                vint_bytes(secs) + (vint_bytes(NANOS_HEADER) + vint_bytes(nanos)));
            assert(ts.spec_encoding() =~= vint_bytes(SECS_HEADER) + (vint_bytes(secs)
                + (vint_bytes(NANOS_HEADER) + vint_bytes(nanos))));
            assert(input@.subrange(pos as int, end as int) =~= ts.spec_encoding());
        }
        Ok(ts)
    }

    /// Decode a complete timestamp message.
    pub fn decode(input: &[u8]) -> (r: Result<Timestamp, DecodeError>)
        ensures
            match r {
                Ok(ts) => input@ == ts.spec_encoding(),
                Err(_) => true,
            },
            forall|ts: Timestamp|
                #![trigger ts.spec_encoding()]
                input@ == ts.spec_encoding() ==> r == Ok::<Timestamp, DecodeError>(ts),
    {
        let r = Self::decode_region(input, 0, input.len());
        proof {
            assert(input@.subrange(0, input@.len() as int) =~= input@);
        }
        r
    }

    /// The canonical encoding as a fresh byte vector.
    pub fn to_vec(&self) -> (r: Vec<u8>)
        ensures
            r@ == self.spec_encoding(),
    {
        let mut bytes: Vec<u8> = Vec::new();
        self.encode_to(&mut bytes);
        bytes
    }
}

} // verus!
