//! Fixed-length textual identifiers.
//!
//! A provisioning response carries a 36-character ASCII identifier in the
//! usual hyphenated form.  The type holds exactly those bytes and nothing
//! else; the codec encodes it as a string field.

use vstd::prelude::*;

use vstd::string::StringSliceAdditionalSpecFns;

use crate::error::DecodeError;

verus! {

/// Number of characters in an identifier.
pub const UUID_LEN: usize = 36;

/// A 36-character ASCII identifier.
#[derive(Clone, Copy, Debug, PartialEq, Eq)]
pub struct Uuid {
    bytes: [u8; 36],
}

impl View for Uuid {
    type V = Seq<u8>;

    closed spec fn view(&self) -> Seq<u8> {
        self.bytes@
    }
}

/// Every byte of the identifier lies in the ASCII range.
pub open spec fn uuid_wf(s: Seq<u8>) -> bool {
    forall|i: int| 0 <= i < s.len() ==> s[i] < 0x80
}

impl Uuid {
    /// Wrap 36 bytes as an identifier, insisting that all are ASCII.
    pub fn from_array(b: [u8; 36]) -> (r: Result<Uuid, DecodeError>)
        ensures
            match r {
                Ok(u) => u@ == b@ && uuid_wf(b@),
                Err(e) => e == DecodeError::MalformedElement && !uuid_wf(b@),
            },
    {
        let mut i: usize = 0;
        while i < 36
            invariant
                i <= 36,
                forall|t: int| 0 <= t < i ==> b@[t] < 0x80,
            decreases 36 - i,
        {
            if b[i] >= 0x80 {
                return Err(DecodeError::MalformedElement);
            }
            i = i + 1;
        }
        Ok(Uuid { bytes: b })
    }

    /// Parse an identifier from text: exactly 36 ASCII characters.
    pub fn parse_str(s: &str) -> (r: Result<Uuid, DecodeError>)
        ensures
            match r {
                Ok(u) => {
                    &&& u@ == s.spec_bytes()
                    &&& s.spec_bytes().len() == 36
                    &&& uuid_wf(s.spec_bytes())
                },
                Err(e) => {
                    &&& e == DecodeError::MalformedElement
                    &&& (s.spec_bytes().len() != 36 || !uuid_wf(s.spec_bytes()))
                },
            },
    {
        let raw = s.as_bytes();
        if raw.len() != UUID_LEN {
            return Err(DecodeError::MalformedElement);
        }
        let mut b = [0u8; 36];
        let mut i: usize = 0;
        while i < 36
            invariant
                i <= 36,
                raw@.len() == 36,
                raw@ == s.spec_bytes(),
                b@.len() == 36,
                forall|t: int| 0 <= t < i ==> b@[t] == raw@[t],
            decreases 36 - i,
        {
            b[i] = raw[i];
            i = i + 1;
        }
        proof {
            assert(b@ =~= s.spec_bytes());
        }
        Self::from_array(b)
    }

    /// The identifier's bytes.
    pub fn as_bytes(&self) -> (r: &[u8; 36])
        ensures
            r@ == self@,
    {
        &self.bytes
    }
}

/// Identifiers with the same bytes are the same identifier.
pub proof fn lemma_uuid_ext(a: Uuid, b: Uuid)
    requires
        a@ == b@,
    ensures
        a == b,
{
    assert(a.bytes =~= b.bytes);
}

} // verus!
