//! Public key messages.

use vstd::prelude::*;

use crate::codec::{
    enc_region_field, expect_header, header_value, lemma_matches_join, lemma_matches_split,
    read_length, WireType,
};
use crate::error::{DecodeError, EncodeError};
use crate::vint::{lemma_vint_bytes_len, matches_in, vint_bytes, write_vint};

verus! {

/// A public key holding administrative authority.
///
/// One algorithm exists today; the tagged encoding leaves room for further
/// variants without disturbing existing encodings.
#[derive(Clone, Copy, Debug, PartialEq, Eq)]
pub enum PublicKey {
    /// An Ed25519 public key: exactly 32 bytes.
    Ed25519([u8; 32]),
}

/// Header token of the key-bytes field: tag 0, not critical, bytes payload.
pub const KEY_BYTES_HEADER: u64 = 4;

/// Encoded size of a public key message: two one-byte prefixes and 32 bytes
/// of key material.
pub const KEY_WIRE_LEN: usize = 34;

/// A public key message always encodes to `KEY_WIRE_LEN` bytes.
pub proof fn lemma_key_encoding_len(k: PublicKey)
    ensures
        k.spec_encoding().len() == KEY_WIRE_LEN,
{
    lemma_vint_bytes_len(KEY_BYTES_HEADER);
    lemma_vint_bytes_len(32);
}

impl PublicKey {
    /// The raw key material.
    pub open spec fn bytes_view(self) -> Seq<u8> {
        match self {
            PublicKey::Ed25519(b) => b@,
        }
    }

    /// The canonical wire encoding of this key as a message of its own.
    pub open spec fn spec_encoding(self) -> Seq<u8> {
        enc_region_field(0, false, WireType::Bytes, self.bytes_view())
    }

    /// Length of the canonical encoding.
    pub fn encoded_len(&self) -> (n: usize)
        ensures
            n == self.spec_encoding().len(),
    {
        proof {
            lemma_vint_bytes_len(KEY_BYTES_HEADER);
            lemma_vint_bytes_len(32);
        }
        KEY_WIRE_LEN
    }

    /// Append the canonical encoding to `out`.
    pub fn encode_to(&self, out: &mut Vec<u8>)
        ensures
            final(out)@ == old(out)@ + self.spec_encoding(),
    {
        proof {
            assert(KEY_BYTES_HEADER == header_value(0, false, WireType::Bytes));
        }
        write_vint(out, KEY_BYTES_HEADER);
        write_vint(out, 32);
        let ghost mid = out@;
        match self {
            PublicKey::Ed25519(b) => {
                let mut i: usize = 0;
                while i < 32
                    invariant
                        i <= 32,
                        out@ == mid + b@.subrange(0, i as int),
                    decreases 32 - i,
                {
                    out.push(b[i]);
                    assert(out@ =~= mid + b@.subrange(0, i + 1));
                    i = i + 1;
                }
                assert(b@.subrange(0, 32) =~= b@);
            },
        }
        assert(out@ =~= old(out)@ + self.spec_encoding());
    }

    /// Parse the bytes of `input` from `pos` up to exactly `end` as one
    /// public key message.
    ///
    /// Succeeds precisely on the canonical encoding of a key: the result's
    /// own encoding is the region parsed, and whenever the region is some
    /// key's encoding that key is returned.
    pub(crate) fn decode_region(input: &[u8], pos: usize, end: usize) -> (r: Result<
        PublicKey,
        DecodeError,
    >)
        requires
            pos <= end <= input@.len(),
        ensures
            match r {
                Ok(k) => input@.subrange(pos as int, end as int) == k.spec_encoding(),
                Err(_) => true,
            },
            forall|k: PublicKey|
                input@.subrange(pos as int, end as int) == k.spec_encoding()
                    ==> r == Ok::<PublicKey, DecodeError>(k),
    {
        proof {
            lemma_vint_bytes_len(KEY_BYTES_HEADER);
            lemma_vint_bytes_len(32);
            assert forall|k: PublicKey|
                input@.subrange(pos as int, end as int) == k.spec_encoding()
                    implies matches_in(input@, pos as int, end as int, vint_bytes(
                    KEY_BYTES_HEADER)) && matches_in(input@, pos + 1, end as int, vint_bytes(32))
                    && pos + 34 == end by {
                assert(matches_in(input@, pos as int, end as int, k.spec_encoding())) by {
                    assert(input@.subrange(pos as int, end as int).len() == end - pos);
                }
                assert(k.spec_encoding() =~= vint_bytes(KEY_BYTES_HEADER) + (vint_bytes(32)
                    + k.bytes_view()));
                lemma_matches_split(input@, pos as int, end as int, vint_bytes(KEY_BYTES_HEADER),
                    vint_bytes(32) + k.bytes_view());
                lemma_matches_split(input@, pos + 1, end as int, vint_bytes(32), k.bytes_view());
            }
        }
        let p1 = match expect_header(input, pos, end, KEY_BYTES_HEADER) {
            Ok(p) => p,
            Err(e) => {
                return Err(e);
            },
        };
        let (len, p2) = match read_length(input, p1, end) {
            Ok(lp) => lp,
            Err(e) => {
                return Err(e);
            },
        };
        if len != 32 {
            return Err(DecodeError::MalformedElement);
        }
        if end - p2 != 32 {
            return Err(DecodeError::TrailingData);
        }
        let mut b = [0u8; 32];
        let mut i: usize = 0;
        while i < 32
            invariant
                i <= 32,
                p2 + 32 == end <= input@.len(),
                b@.len() == 32,
                forall|t: int| 0 <= t < i ==> b@[t] == input@[p2 + t],
            decreases 32 - i,
        {
            b[i] = input[p2 + i];
            i = i + 1;
        }
        let k = PublicKey::Ed25519(b);
        proof {
            assert(b@ =~= input@.subrange(p2 as int, end as int));
            assert(matches_in(input@, p2 as int, end as int, k.bytes_view()));
            lemma_matches_join(input@, p1 as int, end as int, vint_bytes(32), k.bytes_view());
            lemma_matches_join(input@, pos as int, end as int, vint_bytes(KEY_BYTES_HEADER),
                vint_bytes(32) + k.bytes_view());
            assert(input@.subrange(pos as int, end as int) =~= k.spec_encoding());
            assert forall|k2: PublicKey|
                input@.subrange(pos as int, end as int) == k2.spec_encoding() implies k2 == k by {
                assert(matches_in(input@, pos as int, end as int, k2.spec_encoding())) by {
                    assert(input@.subrange(pos as int, end as int).len() == end - pos);
                }
                assert(k2.spec_encoding() =~= vint_bytes(KEY_BYTES_HEADER) + (vint_bytes(32)
                    + k2.bytes_view()));
                lemma_matches_split(input@, pos as int, end as int, vint_bytes(KEY_BYTES_HEADER),
                    vint_bytes(32) + k2.bytes_view());
                lemma_matches_split(input@, pos + 1, end as int, vint_bytes(32), k2.bytes_view());
                match (k2, k) {
                    (PublicKey::Ed25519(b2), PublicKey::Ed25519(b1)) => {
                        assert(b2@ =~= input@.subrange(p2 as int, end as int));
                        assert(b2 =~= b1);
                    },
                }
            }
        }
        Ok(k)
    }

    /// Decode a complete public key message.
    pub fn decode(input: &[u8]) -> (r: Result<PublicKey, DecodeError>)
        ensures
            match r {
                Ok(k) => input@ == k.spec_encoding(),
                Err(_) => true,
            },
            forall|k: PublicKey| input@ == k.spec_encoding() ==> r == Ok::<PublicKey, DecodeError>(
                k),
    {
        let r = Self::decode_region(input, 0, input.len());
        proof {
            assert(input@.subrange(0, input@.len() as int) =~= input@);
        }
        r
    }

    /// Encode this key into the front of `buffer`, returning the number of
    /// bytes written; the rest of the buffer is left as it was.
    pub fn encode(&self, buffer: &mut Vec<u8>) -> (r: Result<usize, EncodeError>)
        ensures
            match r {
                Ok(n) => {
                    &&& n == self.spec_encoding().len() <= old(buffer)@.len()
                    &&& final(buffer)@ == self.spec_encoding() + old(buffer)@.skip(n as int)
                },
                Err(e) => {
                    &&& e == EncodeError::BufferTooSmall
                    &&& old(buffer)@.len() < self.spec_encoding().len()
                    &&& final(buffer)@ == old(buffer)@
                },
            },
    {
        let mut bytes: Vec<u8> = Vec::new();
        self.encode_to(&mut bytes);
        crate::codec::copy_to_front(buffer, &bytes)
    }

    /// The canonical encoding as a fresh byte vector.
    pub fn to_vec(&self) -> (r: Vec<u8>)
        ensures
            r@ == self.spec_encoding(),
    {
        let mut bytes: Vec<u8> = Vec::new();
        self.encode_to(&mut bytes);
        bytes
    }
}

} // verus!
