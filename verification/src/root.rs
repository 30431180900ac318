//! Root configuration: the provisionable state controlling sensitive
//! administrative authority.
//!
//! A root configuration is a threshold and a bounded, ordered set of public
//! keys.  It is unprovisioned exactly while the threshold is zero; a
//! provisioned configuration keeps `1 <= threshold <= number_of_keys <= 8`
//! for the lifetime of the process.

use vstd::prelude::*;

use crate::crypto::{sha256, sha256_of, PublicKey};
use crate::error::Error;
use crate::schema::uuid::{uuid_wf, Uuid};
use crate::vint::{vint_bytes, write_vint};

verus! {

/// The run of raw key material: each key's bytes, in order.
pub open spec fn keys_material(keys: Seq<PublicKey>) -> Seq<u8>
    decreases keys.len(),
{
    if keys.len() == 0 {
        Seq::empty()
    } else {
        keys[0].bytes_view() + keys_material(keys.drop_first())
    }
}

/// The canonical bytes an identifier is derived from: the threshold in its
/// wire form, then each key's material in order.
pub open spec fn root_canon_bytes(threshold: u64, keys: Seq<PublicKey>) -> Seq<u8> {
    vint_bytes(threshold) + keys_material(keys)
}

/// A lower-case hexadecimal digit.
pub open spec fn hex_digit(n: int) -> u8 {
    if n < 10 {
        (0x30 + n) as u8
    } else {
        (0x57 + n) as u8
    }
}

/// Two hexadecimal digits for one byte.
pub open spec fn hex_pair(b: u8) -> Seq<u8> {
    seq![hex_digit(b as int / 16), hex_digit(b as int % 16)]
}

/// The hexadecimal text of a run of bytes.
pub open spec fn hex_of(d: Seq<u8>, from: int, to: int) -> Seq<u8>
    decreases to - from,
{
    if from >= to {
        Seq::empty()
    } else {
        hex_pair(d[from]) + hex_of(d, from + 1, to)
    }
}

/// The 36-character hyphenated identifier text over the first sixteen bytes
/// of a digest.
pub open spec fn uuid_text(d: Seq<u8>) -> Seq<u8> {
    hex_of(d, 0, 4) + seq![45u8] + hex_of(d, 4, 6) + seq![45u8] + hex_of(d, 6, 8) + seq![45u8]
        + hex_of(d, 8, 10) + seq![45u8] + hex_of(d, 10, 16)
}

/// The identifier a root configuration deterministically receives: the
/// hyphenated hex of its digest's first half.  The same threshold and keys
/// always give the same identifier.
pub open spec fn spec_uuid(threshold: u64, keys: Seq<PublicKey>) -> Seq<u8> {
    uuid_text(sha256_of(root_canon_bytes(threshold, keys)))
}

/// Hexadecimal text is ASCII and two characters per byte.
proof fn lemma_hex_of_wf(d: Seq<u8>, from: int, to: int)
    ensures
        hex_of(d, from, to).len() == if from >= to {
            0int
        } else {
            2 * (to - from)
        },
        forall|i: int| 0 <= i < hex_of(d, from, to).len() ==> hex_of(d, from, to)[i] < 0x80,
    decreases to - from,
{
    if from < to {
        lemma_hex_of_wf(d, from + 1, to);
        assert forall|i: int| 0 <= i < hex_of(d, from, to).len() implies hex_of(d, from, to)[i]
            < 0x80 by {
            if i >= 2 {
                assert(hex_of(d, from, to)[i] == hex_of(d, from + 1, to)[i - 2]);
            }
        }
    }
}

/// Growing a hexadecimal run by one byte appends its pair.
proof fn lemma_hex_of_snoc(d: Seq<u8>, from: int, i: int)
    requires
        from <= i,
    ensures
        hex_of(d, from, i + 1) == hex_of(d, from, i) + hex_pair(d[i]),
    decreases i - from,
{
    if from == i {
        assert(hex_of(d, i + 1, i + 1) == Seq::<u8>::empty());
        assert(hex_of(d, i, i + 1) =~= Seq::<u8>::empty() + hex_pair(d[i]));
    } else {
        lemma_hex_of_snoc(d, from + 1, i);
        assert(hex_of(d, from, i + 1) =~= hex_of(d, from, i) + hex_pair(d[i]));
    }
}

/// Append the hexadecimal text of `d[from..to]` to `out`.
fn push_hex(out: &mut Vec<u8>, d: &[u8; 32], from: usize, to: usize)
    requires
        from <= to <= 32,
    ensures
        final(out)@ == old(out)@ + hex_of(d@, from as int, to as int),
{
    let mut i = from;
    proof {
        assert(out@ =~= out@ + hex_of(d@, from as int, from as int));
    }
    while i < to
        invariant
            from <= i <= to <= 32,
            out@ == old(out)@ + hex_of(d@, from as int, i as int),
        decreases to - i,
    {
        let b = d[i];
        let hi = b / 16;
        let lo = b % 16;
        out.push(if hi < 10 {
            0x30 + hi
        } else {
            0x57 + hi
        });
        out.push(if lo < 10 {
            0x30 + lo
        } else {
            0x57 + lo
        });
        proof {
            lemma_hex_of_snoc(d@, from as int, i as int);
            assert(out@ =~= old(out)@ + hex_of(d@, from as int, i + 1));
        }
        i = i + 1;
    }
}

/// Root configuration: controls sensitive administrative authority.
pub struct Root {
    /// Threshold of keys required to perform a root action.
    threshold: u64,
    /// Public keys holding the root role, at most eight.
    public_keys: Vec<PublicKey>,
}

impl Root {
    /// The configured threshold.
    pub closed spec fn threshold_view(self) -> u64 {
        self.threshold
    }

    /// The configured keys, in order.
    pub closed spec fn keys_view(self) -> Seq<PublicKey> {
        self.public_keys@
    }

    /// Unprovisioned exactly while the threshold is zero; provisioned
    /// configurations keep the threshold within the key count.
    pub open spec fn wf(self) -> bool {
        &&& self.keys_view().len() <= 8
        &&& (self.threshold_view() == 0 ==> self.keys_view().len() == 0)
        &&& (self.threshold_view() != 0 ==> 1 <= self.threshold_view()
            <= self.keys_view().len())
    }

    /// Validate and commit a new configuration.
    ///
    /// All-or-nothing: more than eight keys is a capacity error, a
    /// threshold outside `[1, number_of_keys]` a threshold error, and in
    /// both cases nothing is committed.
    pub fn new(threshold: u64, keys: &Vec<PublicKey>) -> (r: Result<Root, Error>)
        ensures
            match r {
                Ok(root) => {
                    &&& keys@.len() <= 8
                    &&& 1 <= threshold <= keys@.len()
                    &&& root.threshold_view() == threshold
                    &&& root.keys_view() == keys@
                    &&& root.wf()
                },
                Err(e) => if keys@.len() > 8 {
                    e == Error::CapacityExceeded
                } else {
                    &&& e == Error::InvalidThreshold
                    &&& !(1 <= threshold <= keys@.len())
                },
            },
    {
        let mut public_keys: Vec<PublicKey> = Vec::new();
        let mut i: usize = 0;
        while i < keys.len()
            invariant
                i <= keys@.len(),
                i <= 8,
                public_keys@ == keys@.take(i as int),
            decreases keys@.len() - i,
        {
            if i >= 8 {
                return Err(Error::CapacityExceeded);
            }
            public_keys.push(keys[i]);
            proof {
                assert(public_keys@ =~= keys@.take(i + 1));
            }
            i = i + 1;
        }
        proof {
            assert(keys@.take(keys@.len() as int) =~= keys@);
        }
        if threshold < 1 || threshold > public_keys.len() as u64 {
            return Err(Error::InvalidThreshold);
        }
        Ok(Root { threshold, public_keys })
    }

    /// An unprovisioned configuration, as held at boot.
    pub fn empty() -> (r: Root)
        ensures
            r.threshold_view() == 0,
            r.keys_view() == Seq::<PublicKey>::empty(),
            r.wf(),
    {
        let root = Root { threshold: 0, public_keys: Vec::new() };
        proof {
            assert(root.keys_view() =~= Seq::<PublicKey>::empty());
        }
        root
    }

    /// Is the root role presently empty, that is, unprovisioned?
    pub fn is_empty(&self) -> (r: bool)
        ensures
            r == (self.threshold_view() == 0),
    {
        self.threshold == 0
    }

    /// The threshold of required keys.
    pub fn threshold(&self) -> (r: u64)
        ensures
            r == self.threshold_view(),
    {
        self.threshold
    }

    /// The public keys holding the root role.
    pub fn public_keys(&self) -> (r: &[PublicKey])
        ensures
            r@ == self.keys_view(),
    {
        self.public_keys.as_slice()
    }

    /// The identifier this configuration deterministically receives.
    pub fn uuid(&self) -> (u: Uuid)
        ensures
            u@ == spec_uuid(self.threshold_view(), self.keys_view()),
            u@.len() == 36,
            uuid_wf(u@),
    {
        // the canonical bytes: threshold, then each key's material
        let mut canon: Vec<u8> = Vec::new();
        write_vint(&mut canon, self.threshold);
        let ghost base = canon@;
        let mut i: usize = 0;
        while i < self.public_keys.len()
            invariant
                i <= self.keys_view().len(),
                base == vint_bytes(self.threshold_view()),
                canon@ == base + keys_material(self.keys_view().take(i as int)),
            decreases self.public_keys@.len() - i,
        {
            let k = self.public_keys[i];
            match k {
                PublicKey::Ed25519(b) => {
                    let mut j: usize = 0;
                    let ghost mid = canon@;
                    while j < 32
                        invariant
                            j <= 32,
                            canon@ == mid + b@.subrange(0, j as int),
                        decreases 32 - j,
                    {
                        canon.push(b[j]);
                        assert(canon@ =~= mid + b@.subrange(0, j + 1));
                        j = j + 1;
                    }
                    proof {
                        assert(b@.subrange(0, 32) =~= b@);
                    }
                },
            }
            proof {
                lemma_keys_material_snoc(self.keys_view(), i as int);
                assert(canon@ =~= base + keys_material(self.keys_view().take(i + 1)));
            }
            i = i + 1;
        }
        proof {
            assert(self.keys_view().take(self.keys_view().len() as int) =~= self.keys_view());
        }
        let digest = sha256(canon.as_slice());
        // format the first sixteen digest bytes as the hyphenated text
        let mut text: Vec<u8> = Vec::new();
        push_hex(&mut text, &digest, 0, 4);
        text.push(45);
        push_hex(&mut text, &digest, 4, 6);
        text.push(45);
        push_hex(&mut text, &digest, 6, 8);
        text.push(45);
        push_hex(&mut text, &digest, 8, 10);
        text.push(45);
        push_hex(&mut text, &digest, 10, 16);
        proof {
            assert(text@ =~= uuid_text(digest@));
            lemma_hex_of_wf(digest@, 0, 4);
            lemma_hex_of_wf(digest@, 4, 6);
            lemma_hex_of_wf(digest@, 6, 8);
            lemma_hex_of_wf(digest@, 8, 10);
            lemma_hex_of_wf(digest@, 10, 16);
            assert(uuid_wf(text@));
        }
        let mut b = [0u8; 36];
        let mut t: usize = 0;
        while t < 36
            invariant
                t <= 36,
                text@.len() == 36,
                b@.len() == 36,
                forall|x: int| 0 <= x < t ==> b@[x] == text@[x],
            decreases 36 - t,
        {
            b[t] = text[t];
            t = t + 1;
        }
        proof {
            assert(b@ =~= text@);
        }
        match Uuid::from_array(b) {
            Ok(u) => u,
            Err(_) => {
                proof {
                    assert(false);
                }
                vstd::pervasive::unreached()
            },
        }
    }
}

/// Taking one more key appends its material.
proof fn lemma_keys_material_snoc(keys: Seq<PublicKey>, i: int)
    requires
        0 <= i < keys.len(),
    ensures
        keys_material(keys.take(i + 1)) == keys_material(keys.take(i)) + keys[i].bytes_view(),
    decreases i,
{
    let a = keys.take(i + 1);
    if i == 0 {
        assert(a.drop_first() =~= Seq::<PublicKey>::empty());
        assert(keys.take(0) =~= Seq::<PublicKey>::empty());
        assert(keys_material(a) =~= keys_material(keys.take(0)) + keys[0].bytes_view());
    } else {
        let b = keys.take(i);
        assert(a[0] == keys[0] && b[0] == keys[0]);
        assert(a.drop_first() =~= keys.drop_first().take(i));
        assert(b.drop_first() =~= keys.drop_first().take(i - 1));
        lemma_keys_material_snoc(keys.drop_first(), i - 1);
        assert(keys.drop_first()[i - 1] == keys[i]);
        assert(keys_material(a) =~= keys_material(b) + keys[i].bytes_view());
    }
}

} // verus!
