//! Response envelope: the tagged union of every response the core sends.

use vstd::prelude::*;

use crate::codec::{
    enc_region_field, expect_header, header_value, lemma_matches_join, lemma_matches_split,
    read_length, WireType,
};
use crate::error::{DecodeError, EncodeError};
use crate::schema::provision;
use crate::vint::{lemma_vint_bytes_len, matches_in, vint_bytes, vint_len, write_vint};

verus! {

/// Header token of the provisioning variant: tag 0, critical, nested
/// message.
pub const PROVISION_HEADER: u64 = 14;

/// Responses the core sends.  One kind exists today; a new kind is a new
/// tag and variant, with no change to existing decode paths.
#[derive(Clone, Copy, Debug, PartialEq, Eq)]
pub enum Response {
    /// The result of initial device provisioning.
    Provision(provision::Response),
}

impl Response {
    /// The enclosed message is well formed.
    pub open spec fn wf(self) -> bool {
        match self {
            Response::Provision(m) => m.wf(),
        }
    }

    /// The canonical wire encoding: the variant's header, then the nested
    /// message behind a length prefix.
    pub open spec fn spec_encoding(self) -> Seq<u8> {
        match self {
            Response::Provision(m) => enc_region_field(0, true, WireType::Message,
                m.spec_encoding()),
        }
    }

    /// Get the provisioning response, if this is one.
    pub fn provision(&self) -> (r: Option<&provision::Response>)
        ensures
            match (r, self) {
                (Some(m), Response::Provision(inner)) => m == inner,
                _ => false,
            },
    {
        match self {
            Response::Provision(m) => Some(m),
        }
    }

    /// Length of the canonical encoding.
    pub fn encoded_len(&self) -> (n: usize)
        requires
            self.wf(),
        ensures
            n == self.spec_encoding().len(),
    {
        match self {
            Response::Provision(m) => {
                let inner = m.encoded_len();
                proof {
                    lemma_vint_bytes_len(PROVISION_HEADER);
                    lemma_vint_bytes_len(inner as u64);
                }
                1 + crate::vint::vint_size(inner as u64) + inner
            },
        }
    }

    /// Append the canonical encoding to `out`.
    pub fn encode_to(&self, out: &mut Vec<u8>)
        requires
            self.wf(),
        ensures
            final(out)@ == old(out)@ + self.spec_encoding(),
    {
        proof {
            assert(PROVISION_HEADER == header_value(0, true, WireType::Message));
        }
        match self {
            Response::Provision(m) => {
                let mut body: Vec<u8> = Vec::new();
                m.encode_to(&mut body);
                write_vint(out, PROVISION_HEADER);
                write_vint(out, body.len() as u64);
                out.append(&mut body);
                assert(out@ =~= old(out)@ + self.spec_encoding());
            },
        }
    }

    /// The canonical encoding as a fresh byte vector.
    pub fn to_vec(&self) -> (r: Vec<u8>)
        requires
            self.wf(),
        ensures
            r@ == self.spec_encoding(),
    {
        let mut bytes: Vec<u8> = Vec::new();
        self.encode_to(&mut bytes);
        bytes
    }

    /// Encode this response into the front of `buffer`, returning the
    /// number of bytes written; the rest of the buffer is left as it was.
    pub fn encode(&self, buffer: &mut Vec<u8>) -> (r: Result<usize, EncodeError>)
        requires
            self.wf(),
        ensures
            match r {
                Ok(n) => {
                    &&& n == self.spec_encoding().len() <= old(buffer)@.len()
                    &&& final(buffer)@ == self.spec_encoding() + old(buffer)@.skip(n as int)
                },
                Err(e) => {
                    &&& e == EncodeError::BufferTooSmall
                    &&& old(buffer)@.len() < self.spec_encoding().len()
                    &&& final(buffer)@ == old(buffer)@
                },
            },
    {
        let bytes = self.to_vec();
        crate::codec::copy_to_front(buffer, &bytes)
    }

    /// Decode a complete response from a delivered transfer.
    ///
    /// Decoding is strict both ways: exactly the canonical encodings of
    /// well-formed responses are accepted, and any bytes following a
    /// complete message are a `TrailingData` error.
    #[verifier::rlimit(100)]
    pub fn decode(input: &[u8]) -> (r: Result<Response, DecodeError>)
        ensures
            match r {
                Ok(resp) => resp.wf() && input@ == resp.spec_encoding(),
                Err(_) => true,
            },
            forall|resp: Response|
                #![trigger resp.spec_encoding()]
                resp.wf() && input@ == resp.spec_encoding() ==> r == Ok::<
                    Response,
                    DecodeError,
                >(resp),
            forall|resp: Response, extra: Seq<u8>|
                #![trigger resp.spec_encoding() + extra]
                resp.wf() && extra.len() > 0 && input@ == resp.spec_encoding() + extra ==> r
                    == Err::<Response, DecodeError>(DecodeError::TrailingData),
    {
        let n = input.len();
        proof {
            lemma_vint_bytes_len(PROVISION_HEADER);
            assert forall|resp: Response, extra: Seq<u8>|
                #![trigger resp.spec_encoding() + extra]
                resp.wf() && input@ == resp.spec_encoding() + extra implies {
                &&& matches_in(input@, 0, n as int, vint_bytes(PROVISION_HEADER))
                &&& match resp {
                    Response::Provision(m) => {
                        let bl = m.spec_encoding().len() as u64;
                        &&& matches_in(input@, 1, n as int, vint_bytes(bl))
                        &&& 1 + vint_len(bl) + bl + extra.len() == n
                        &&& input@.subrange(1 + vint_len(bl), 1 + vint_len(bl)
                            + m.spec_encoding().len()) == m.spec_encoding()
                    },
                }
            } by {
                match resp {
                    Response::Provision(m) => {
                        let bl = m.spec_encoding().len() as u64;
                        lemma_vint_bytes_len(bl);
                        assert(matches_in(input@, 0, n as int, resp.spec_encoding() + extra))
                            by {
                            assert(input@.subrange(0, n as int) =~= input@);
                        }
                        lemma_matches_split(input@, 0, n as int, resp.spec_encoding(), extra);
                        assert(resp.spec_encoding() == (vint_bytes(PROVISION_HEADER)
                            + vint_bytes(bl)) + m.spec_encoding());
                        lemma_matches_split(input@, 0, n as int, vint_bytes(PROVISION_HEADER)
                            + vint_bytes(bl), m.spec_encoding());
                        lemma_matches_split(input@, 0, n as int, vint_bytes(PROVISION_HEADER),
                            vint_bytes(bl));
                    },
                }
            }
            assert forall|resp: Response|
                #![trigger resp.spec_encoding()]
                resp.wf() && input@ == resp.spec_encoding() implies input@
                == resp.spec_encoding() + Seq::<u8>::empty() by {
                assert(resp.spec_encoding() + Seq::<u8>::empty() =~= resp.spec_encoding());
            }
        }
        let p1 = match expect_header(input, 0, n, PROVISION_HEADER) {
            Ok(p) => p,
            Err(e) => {
                return Err(e);
            },
        };
        let (len, p2) = match read_length(input, p1, n) {
            Ok(lp) => lp,
            Err(e) => {
                return Err(e);
            },
        };
        let m = match provision::Response::decode_region(input, p2, p2 + len) {
            Ok(m) => m,
            Err(e) => {
                return Err(e);
            },
        };
        if p2 + len != n {
            return Err(DecodeError::TrailingData);
        }
        let resp = Response::Provision(m);
        proof {
            lemma_vint_bytes_len(len as u64);
            assert(matches_in(input@, p2 as int, n as int, m.spec_encoding())) by {
                assert(input@.subrange(p2 as int, (p2 + len) as int).len() == len);
            }
            lemma_matches_join(input@, 0, n as int, vint_bytes(PROVISION_HEADER), vint_bytes(
                len as u64));
            lemma_matches_join(input@, 0, n as int, vint_bytes(PROVISION_HEADER) + vint_bytes(
                len as u64), m.spec_encoding());
            assert(resp.spec_encoding() == (vint_bytes(PROVISION_HEADER) + vint_bytes(
                len as u64)) + m.spec_encoding());
            assert(input@ =~= input@.subrange(0, n as int));
            assert(input@ == resp.spec_encoding());
        }
        Ok(resp)
    }
}

impl From<provision::Response> for Response {
    fn from(response: provision::Response) -> (r: Response) {
        Response::Provision(response)
    }
}

impl vstd::std_specs::convert::FromSpecImpl<provision::Response> for Response {
    open spec fn obeys_from_spec() -> bool {
        true
    }

    open spec fn from_spec(response: provision::Response) -> Response {
        Response::Provision(response)
    }
}

} // verus!
