//! Device provisioning messages: the request that establishes the root of
//! trust and the response that answers it.

use vstd::prelude::*;

use crate::codec::{
    enc_region_field, enc_u64_field, expect_header, header_value, lemma_matches_join,
    lemma_matches_split, read_length, wire_code, WireType,
};
use crate::crypto::{sha256, sha256_of};
use crate::schema::timestamp::Timestamp;
use crate::schema::uuid::{lemma_uuid_ext, uuid_wf, Uuid};
use crate::error::{CapacityError, DecodeError, EncodeError};
use crate::schema::public_key::{lemma_key_encoding_len, PublicKey, KEY_WIRE_LEN};
use crate::vint::{lemma_vint_bytes_len, matches_in, read_vint, vint_bytes, vint_len};

verus! {

/// Capacity of the root key set.
pub const MAX_KEYS: usize = 8;

/// A blank key holds all-zero material; blanks fill the unused slots of a
/// bounded key list so that lists with the same contents are equal values.
pub open spec fn is_blank(k: PublicKey) -> bool {
    k.bytes_view() == Seq::<u8>::new(32, |i: int| 0u8)
}

/// Any two blank keys are the same value.
proof fn lemma_blank_unique(a: PublicKey, b: PublicKey)
    requires
        is_blank(a),
        is_blank(b),
    ensures
        a == b,
{
    match (a, b) {
        (PublicKey::Ed25519(x), PublicKey::Ed25519(y)) => {
            assert(x =~= y);
        },
    }
}

/// The bounded, ordered root key list: a fixed-capacity array with an
/// explicit length counter.  Pushing beyond the capacity is a typed error,
/// never a reallocation.
#[derive(Clone, Copy, Debug, PartialEq, Eq)]
pub struct RootKeys {
    keys: [PublicKey; 8],
    count: usize,
}

impl View for RootKeys {
    type V = Seq<PublicKey>;

    closed spec fn view(&self) -> Seq<PublicKey> {
        self.keys@.take(self.count as int)
    }
}

impl RootKeys {
    /// The slots beyond the counter hold blank keys, so that lists with
    /// the same contents are the same value.
    pub closed spec fn wf(self) -> bool {
        &&& self.count <= 8
        &&& forall|i: int| self.count <= i < 8 ==> is_blank(#[trigger] self.keys@[i])
    }

    /// An empty key list.
    pub fn new() -> (r: RootKeys)
        ensures
            r@ == Seq::<PublicKey>::empty(),
            r.wf(),
    {
        let mut z = [0u8; 32];
        let mut i: usize = 0;
        while i < 32
            invariant
                i <= 32,
                forall|t: int| 0 <= t < i ==> z@[t] == 0u8,
            decreases 32 - i,
        {
            z[i] = 0;
            i = i + 1;
        }
        let blank = PublicKey::Ed25519(z);
        proof {
            assert(z@ =~= Seq::<u8>::new(32, |t: int| 0u8));
            assert(is_blank(blank));
        }
        let keys = [blank, blank, blank, blank, blank, blank, blank, blank];
        let r = RootKeys { keys, count: 0 };
        proof {
            assert(r@ =~= Seq::<PublicKey>::empty());
        }
        r
    }

    /// Number of keys held.
    pub fn len(&self) -> (n: usize)
        requires
            self.wf(),
        ensures
            n == self@.len(),
            n <= 8,
    {
        self.count
    }

    /// The key at position `i`.
    pub fn get(&self, i: usize) -> (k: &PublicKey)
        requires
            self.wf(),
            i < self@.len(),
        ensures
            *k == self@[i as int],
    {
        &self.keys[i]
    }

    /// Append a key, failing with a capacity error when the list is full.
    pub fn push(&mut self, key: PublicKey) -> (r: Result<(), CapacityError>)
        requires
            old(self).wf(),
        ensures
            final(self).wf(),
            if old(self)@.len() < 8 {
                r is Ok && final(self)@ == old(self)@.push(key)
            } else {
                r is Err && final(self)@ == old(self)@
            },
    {
        if self.count >= MAX_KEYS {
            return Err(CapacityError);
        }
        self.keys[self.count] = key;
        self.count = self.count + 1;
        proof {
            assert(self@ =~= old(self)@.push(key));
        }
        Ok(())
    }
}

/// Header token of the threshold field: tag 0, critical, unsigned integer.
pub const THRESHOLD_HEADER: u64 = 10;

/// Header token of the root keys field: tag 1, critical, sequence.
pub const ROOT_KEYS_HEADER: u64 = 31;

/// Header token of the timestamp field: tag 2, critical, nested message.
pub const TIMESTAMP_HEADER: u64 = 46;

/// Header token of the response identifier field: tag 0, critical, string.
pub const UUID_HEADER: u64 = 13;

/// The body of a key sequence: each element is its length prefix followed
/// by the key's own message encoding.
pub open spec fn enc_keys_body(keys: Seq<PublicKey>) -> Seq<u8>
    decreases keys.len(),
{
    if keys.len() == 0 {
        Seq::empty()
    } else {
        vint_bytes(KEY_WIRE_LEN as u64) + keys[0].spec_encoding() + enc_keys_body(
            keys.drop_first())
    }
}

/// Each key occupies 35 bytes of a sequence body.
pub proof fn lemma_enc_keys_body_len(keys: Seq<PublicKey>)
    ensures
        enc_keys_body(keys).len() == 35 * keys.len(),
    decreases keys.len(),
{
    if keys.len() > 0 {
        lemma_vint_bytes_len(KEY_WIRE_LEN as u64);
        lemma_key_encoding_len(keys[0]);
        lemma_enc_keys_body_len(keys.drop_first());
    }
}

/// Appending a key extends the body at its end.
pub proof fn lemma_enc_keys_body_snoc(keys: Seq<PublicKey>, k: PublicKey)
    ensures
        enc_keys_body(keys.push(k)) == enc_keys_body(keys) + (vint_bytes(KEY_WIRE_LEN as u64)
            + k.spec_encoding()),
    decreases keys.len(),
{
    let whole = keys.push(k);
    assert(enc_keys_body(Seq::<PublicKey>::empty()) == Seq::<u8>::empty());
    if keys.len() == 0 {
        assert(whole[0] == k);
        assert(whole.drop_first() =~= Seq::<PublicKey>::empty());
        assert(enc_keys_body(whole) == vint_bytes(KEY_WIRE_LEN as u64) + k.spec_encoding()
            + enc_keys_body(whole.drop_first()));
        assert(enc_keys_body(keys.push(k)) =~= enc_keys_body(keys) + (vint_bytes(
            KEY_WIRE_LEN as u64) + k.spec_encoding()));
    } else {
        assert(whole.drop_first() =~= keys.drop_first().push(k));
        lemma_enc_keys_body_snoc(keys.drop_first(), k);
        assert(enc_keys_body(keys.push(k)) =~= enc_keys_body(keys) + (vint_bytes(
            KEY_WIRE_LEN as u64) + k.spec_encoding()));
    }
}

/// The sequence header of a key list: the body length and the element wire
/// type packed into one integer.
pub open spec fn keys_seq_header(keys: Seq<PublicKey>) -> u64 {
    (35 * keys.len() * 16 + wire_code(WireType::Message)) as u64
}

/// The complete root keys field.
pub open spec fn enc_keys_field(keys: Seq<PublicKey>) -> Seq<u8> {
    vint_bytes(ROOT_KEYS_HEADER) + vint_bytes(keys_seq_header(keys)) + enc_keys_body(keys)
}

/// Well-formed key lists with the same contents are the same value.
pub proof fn lemma_root_keys_ext(a: RootKeys, b: RootKeys)
    requires
        a.wf(),
        b.wf(),
        a@ == b@,
    ensures
        a == b,
{
    assert(a@.len() == a.count);
    assert(b@.len() == b.count);
    assert forall|i: int| 0 <= i < 8 implies a.keys@[i] == b.keys@[i] by {
        if i < a.count {
            assert(a.keys@[i] == a@[i]);
            assert(b.keys@[i] == b@[i]);
        } else {
            lemma_blank_unique(a.keys@[i], b.keys@[i]);
        }
    }
    assert(a.keys =~= b.keys);
}

/// Key lists encode piece by piece.
pub proof fn lemma_enc_keys_body_cat(a: Seq<PublicKey>, b: Seq<PublicKey>)
    ensures
        enc_keys_body(a + b) == enc_keys_body(a) + enc_keys_body(b),
    decreases a.len(),
{
    if a.len() == 0 {
        assert(a + b =~= b);
        assert(enc_keys_body(a) + enc_keys_body(b) =~= enc_keys_body(b));
    } else {
        assert((a + b).drop_first() =~= a.drop_first() + b);
        assert((a + b)[0] == a[0]);
        assert((a + b).len() > 0);
        lemma_enc_keys_body_cat(a.drop_first(), b);
        assert(enc_keys_body(a + b) =~= enc_keys_body(a) + enc_keys_body(b));
    }
}

/// A well-formed key list stays within its capacity.
pub proof fn lemma_root_keys_cap(rk: RootKeys)
    requires
        rk.wf(),
    ensures
        rk@.len() <= 8,
{
}

/// A request to provision the device: the threshold, the ordered root keys,
/// an optional timestamp, and the digest bound to the decoded bytes.
#[derive(Clone, Copy, Debug, PartialEq, Eq)]
pub struct Request {
    /// Number of signatures required to perform root key operations.
    pub root_key_threshold: u64,
    /// Root keys granted administrative authority, in order.
    pub root_keys: RootKeys,
    /// When provisioning occurs, as agreed upon by the root keys.
    pub timestamp: Option<Timestamp>,
    /// Digest of the exact wire bytes of this message's critical fields,
    /// filled in while decoding.
    pub digest: Option<[u8; 32]>,
}

impl Request {
    /// The key list stays within its capacity.
    pub open spec fn wf(self) -> bool {
        self.root_keys.wf()
    }

    /// The canonical wire encoding: every field of this message is
    /// critical, and the digest is computed over these bytes rather than
    /// carried among them.
    pub open spec fn spec_encoding(self) -> Seq<u8> {
        enc_u64_field(0, true, self.root_key_threshold) + enc_keys_field(self.root_keys@)
            + (match self.timestamp {
            Some(ts) => enc_region_field(2, true, WireType::Message, ts.spec_encoding()),
            None => Seq::empty(),
        })
    }

    /// The digest field holds exactly the digest of the canonical encoding.
    pub open spec fn digest_bound(self) -> bool {
        match self.digest {
            Some(d) => d@ == sha256_of(self.spec_encoding()),
            None => false,
        }
    }

    /// Length of the canonical encoding.
    pub fn encoded_len(&self) -> (n: usize)
        requires
            self.wf(),
        ensures
            n == self.spec_encoding().len(),
    {
        proof {
            lemma_vint_bytes_len(THRESHOLD_HEADER);
            lemma_vint_bytes_len(self.root_key_threshold);
            lemma_vint_bytes_len(ROOT_KEYS_HEADER);
            lemma_vint_bytes_len(keys_seq_header(self.root_keys@));
            lemma_enc_keys_body_len(self.root_keys@);
        }
        let nkeys = self.root_keys.len();
        let body_len = 35 * nkeys;
        let seq_header: u64 = (body_len as u64) * 16 + 6;
        let mut n: usize = 1 + crate::vint::vint_size(self.root_key_threshold);
        n = n + 1 + crate::vint::vint_size(seq_header) + body_len;
        match &self.timestamp {
            Some(ts) => {
                let ts_len = ts.encoded_len();
                proof {
                    lemma_vint_bytes_len(TIMESTAMP_HEADER);
                    lemma_vint_bytes_len(ts_len as u64);
                    lemma_vint_bytes_len(ts.secs);
                    lemma_vint_bytes_len(ts.nanos as u64);
                    lemma_vint_bytes_len(crate::schema::timestamp::SECS_HEADER);
                    lemma_vint_bytes_len(crate::schema::timestamp::NANOS_HEADER);
                    assert(ts_len <= 20);
                }
                n = n + 1 + crate::vint::vint_size(ts_len as u64) + ts_len;
            },
            None => {},
        }
        n
    }

    /// Append the canonical encoding to `out`.
    pub fn encode_to(&self, out: &mut Vec<u8>)
        requires
            self.wf(),
        ensures
            final(out)@ == old(out)@ + self.spec_encoding(),
    {
        proof {
            assert(THRESHOLD_HEADER == header_value(0, true, WireType::UInt64));
            assert(ROOT_KEYS_HEADER == header_value(1, true, WireType::Sequence));
            assert(TIMESTAMP_HEADER == header_value(2, true, WireType::Message));
        }
        crate::vint::write_vint(out, THRESHOLD_HEADER);
        crate::vint::write_vint(out, self.root_key_threshold);
        // the keys field: sequence header, then each key behind its own
        // length prefix
        let mut body: Vec<u8> = Vec::new();
        let nkeys = self.root_keys.len();
        let mut i: usize = 0;
        while i < nkeys
            invariant
                i <= nkeys == self.root_keys@.len(),
                self.root_keys.wf(),
                body@ == enc_keys_body(self.root_keys@.take(i as int)),
            decreases nkeys - i,
        {
            crate::vint::write_vint(&mut body, KEY_WIRE_LEN as u64);
            let k = self.root_keys.get(i);
            k.encode_to(&mut body);
            proof {
                lemma_enc_keys_body_snoc(self.root_keys@.take(i as int), self.root_keys@[
                    i as int]);
                assert(self.root_keys@.take(i + 1) =~= self.root_keys@.take(i as int).push(
                    self.root_keys@[i as int]));
            }
            i = i + 1;
        }
        proof {
            assert(self.root_keys@.take(nkeys as int) =~= self.root_keys@);
            lemma_enc_keys_body_len(self.root_keys@);
        }
        let seq_header: u64 = (body.len() as u64) * 16 + 6;
        crate::vint::write_vint(out, ROOT_KEYS_HEADER);
        crate::vint::write_vint(out, seq_header);
        let ghost before_body = out@;
        out.append(&mut body);
        match &self.timestamp {
            Some(ts) => {
                let mut ts_bytes: Vec<u8> = Vec::new();
                ts.encode_to(&mut ts_bytes);
                crate::vint::write_vint(out, TIMESTAMP_HEADER);
                crate::vint::write_vint(out, ts_bytes.len() as u64);
                out.append(&mut ts_bytes);
            },
            None => {},
        }
        assert(out@ =~= old(out)@ + self.spec_encoding());
    }

    /// Where the root keys field starts, relative to `pos`.
    pub open spec fn keys_field_at(self, pos: int) -> int {
        pos + 1 + vint_len(self.root_key_threshold)
    }

    /// Where the key sequence body starts.
    pub open spec fn keys_body_at(self, pos: int) -> int {
        self.keys_field_at(pos) + 1 + vint_len(keys_seq_header(self.root_keys@))
    }

    /// Where the key sequence body ends.
    pub open spec fn keys_body_end(self, pos: int) -> int {
        self.keys_body_at(pos) + 35 * self.root_keys@.len()
    }
}

/// How a request's encoding lies in a byte string: each field in turn, the
/// message ending with the timestamp field or with the key sequence.
proof fn lemma_request_layout(s: Seq<u8>, pos: int, end: int, m: Request)
    requires
        0 <= pos <= end <= s.len(),
        s.subrange(pos, end) == m.spec_encoding(),
    ensures
        matches_in(s, pos, end, vint_bytes(THRESHOLD_HEADER)),
        matches_in(s, pos + 1, end, vint_bytes(m.root_key_threshold)),
        matches_in(s, m.keys_field_at(pos), end, vint_bytes(ROOT_KEYS_HEADER)),
        matches_in(s, m.keys_field_at(pos) + 1, end, vint_bytes(keys_seq_header(
            m.root_keys@))),
        s.subrange(m.keys_body_at(pos), m.keys_body_end(pos)) == enc_keys_body(m.root_keys@),
        m.keys_body_end(pos) <= end,
        match m.timestamp {
            None => m.keys_body_end(pos) == end,
            Some(ts) => {
                &&& matches_in(s, m.keys_body_end(pos), end, vint_bytes(TIMESTAMP_HEADER))
                &&& matches_in(s, m.keys_body_end(pos) + 1, end, vint_bytes(
                    ts.spec_encoding().len() as u64))
                &&& m.keys_body_end(pos) + 1 + vint_len(ts.spec_encoding().len() as u64)
                    + ts.spec_encoding().len() == end
                &&& s.subrange(end - ts.spec_encoding().len(), end) == ts.spec_encoding()
            },
        },
{
    lemma_vint_bytes_len(THRESHOLD_HEADER);
    lemma_vint_bytes_len(m.root_key_threshold);
    lemma_vint_bytes_len(ROOT_KEYS_HEADER);
    lemma_vint_bytes_len(keys_seq_header(m.root_keys@));
    lemma_enc_keys_body_len(m.root_keys@);
    let a = vint_bytes(THRESHOLD_HEADER);
    let b = vint_bytes(m.root_key_threshold);
    let c = vint_bytes(ROOT_KEYS_HEADER);
    let d = vint_bytes(keys_seq_header(m.root_keys@));
    let e = enc_keys_body(m.root_keys@);
    let f = match m.timestamp {
        Some(ts) => enc_region_field(2, true, WireType::Message, ts.spec_encoding()),
        None => Seq::<u8>::empty(),
    };
    assert(matches_in(s, pos, end, m.spec_encoding())) by {
        assert(s.subrange(pos, end).len() == end - pos);
    }
    assert(m.spec_encoding() =~= a + (b + (c + (d + (e + f)))));
    lemma_matches_split(s, pos, end, a, b + (c + (d + (e + f))));
    lemma_matches_split(s, pos + 1, end, b, c + (d + (e + f)));
    lemma_matches_split(s, m.keys_field_at(pos), end, c, d + (e + f));
    lemma_matches_split(s, m.keys_field_at(pos) + 1, end, d, e + f);
    lemma_matches_split(s, m.keys_body_at(pos), end, e, f);
    assert(s.subrange(m.keys_body_at(pos), m.keys_body_end(pos)) == e);
    match m.timestamp {
        None => {
            assert(end - pos == m.spec_encoding().len());
            assert(m.keys_body_end(pos) == end);
        },
        Some(ts) => {
            let tl = ts.spec_encoding().len() as u64;
            lemma_vint_bytes_len(TIMESTAMP_HEADER);
            lemma_vint_bytes_len(tl);
            assert(f =~= vint_bytes(TIMESTAMP_HEADER) + (vint_bytes(tl) + ts.spec_encoding()));
            lemma_matches_split(s, m.keys_body_end(pos), end, vint_bytes(TIMESTAMP_HEADER),
                vint_bytes(tl) + ts.spec_encoding());
            lemma_matches_split(s, m.keys_body_end(pos) + 1, end, vint_bytes(tl),
                ts.spec_encoding());
            assert(end - pos == m.spec_encoding().len());
            assert(m.keys_body_end(pos) + 1 + vint_len(tl) + ts.spec_encoding().len() == end);
            assert(s.subrange(end - ts.spec_encoding().len(), end) == ts.spec_encoding());
        },
    }
}

/// Where the `i`th element of a key sequence body lies.
proof fn lemma_keys_element(s: Seq<u8>, p4: int, body_end: int, ks: Seq<PublicKey>, i: int)
    requires
        0 <= p4 <= body_end <= s.len(),
        s.subrange(p4, body_end) == enc_keys_body(ks),
        0 <= i < ks.len(),
    ensures
        p4 + 35 * i + 35 <= body_end,
        matches_in(s, p4 + 35 * i, body_end, vint_bytes(KEY_WIRE_LEN as u64)),
        s.subrange(p4 + 35 * i + 1, p4 + 35 * i + 35) == ks[i].spec_encoding(),
{
    lemma_enc_keys_body_len(ks);
    assert(ks.take(i) + ks.skip(i) =~= ks);
    lemma_enc_keys_body_cat(ks.take(i), ks.skip(i));
    lemma_enc_keys_body_len(ks.take(i));
    lemma_enc_keys_body_len(ks.skip(i));
    assert(matches_in(s, p4, body_end, enc_keys_body(ks))) by {
        assert(s.subrange(p4, body_end).len() == body_end - p4);
    }
    assert(enc_keys_body(ks) =~= enc_keys_body(ks.take(i)) + enc_keys_body(ks.skip(i)));
    lemma_matches_split(s, p4, body_end, enc_keys_body(ks.take(i)), enc_keys_body(ks.skip(i)));
    let tail = ks.skip(i);
    assert(tail.len() > 0);
    lemma_vint_bytes_len(KEY_WIRE_LEN as u64);
    lemma_key_encoding_len(tail[0]);
    lemma_enc_keys_body_len(tail.drop_first());
    assert(enc_keys_body(tail) =~= vint_bytes(KEY_WIRE_LEN as u64) + (tail[0].spec_encoding()
        + enc_keys_body(tail.drop_first())));
    lemma_matches_split(s, p4 + 35 * i, body_end, vint_bytes(KEY_WIRE_LEN as u64), tail[
        0].spec_encoding() + enc_keys_body(tail.drop_first()));
    lemma_matches_split(s, p4 + 35 * i + 1, body_end, tail[0].spec_encoding(), enc_keys_body(
        tail.drop_first()));
    assert(tail[0] == ks[i]);
    assert(s.subrange(p4 + 35 * i + 1, p4 + 35 * i + 35) == ks[i].spec_encoding());
}

/// The converse of the layout lemma: fields found in place assemble into
/// the one canonical encoding.
#[verifier::rlimit(100)]
proof fn lemma_request_assemble(s: Seq<u8>, pos: int, end: int, m: Request)
    requires
        0 <= pos <= end <= s.len(),
        matches_in(s, pos, end, vint_bytes(THRESHOLD_HEADER)),
        matches_in(s, pos + 1, end, vint_bytes(m.root_key_threshold)),
        matches_in(s, m.keys_field_at(pos), end, vint_bytes(ROOT_KEYS_HEADER)),
        matches_in(s, m.keys_field_at(pos) + 1, end, vint_bytes(keys_seq_header(
            m.root_keys@))),
        s.subrange(m.keys_body_at(pos), m.keys_body_end(pos)) == enc_keys_body(m.root_keys@),
        m.keys_body_end(pos) <= end,
        match m.timestamp {
            None => m.keys_body_end(pos) == end,
            Some(ts) => {
                &&& matches_in(s, m.keys_body_end(pos), end, vint_bytes(TIMESTAMP_HEADER))
                &&& matches_in(s, m.keys_body_end(pos) + 1, end, vint_bytes(
                    ts.spec_encoding().len() as u64))
                &&& m.keys_body_end(pos) + 1 + vint_len(ts.spec_encoding().len() as u64)
                    + ts.spec_encoding().len() == end
                &&& s.subrange(end - ts.spec_encoding().len(), end) == ts.spec_encoding()
            },
        },
    ensures
        s.subrange(pos, end) == m.spec_encoding(),
{
    lemma_vint_bytes_len(THRESHOLD_HEADER);
    lemma_vint_bytes_len(m.root_key_threshold);
    lemma_vint_bytes_len(ROOT_KEYS_HEADER);
    lemma_vint_bytes_len(keys_seq_header(m.root_keys@));
    lemma_enc_keys_body_len(m.root_keys@);
    let a = vint_bytes(THRESHOLD_HEADER);
    let b = vint_bytes(m.root_key_threshold);
    let c = vint_bytes(ROOT_KEYS_HEADER);
    let d = vint_bytes(keys_seq_header(m.root_keys@));
    let e = enc_keys_body(m.root_keys@);
    let kf = m.keys_field_at(pos);
    let kb = m.keys_body_at(pos);
    let kbe = m.keys_body_end(pos);
    assert(matches_in(s, kb, end, e)) by {
        assert(s.subrange(kb, kbe).len() == kbe - kb);
    }
    let f = match m.timestamp {
        Some(ts) => enc_region_field(2, true, WireType::Message, ts.spec_encoding()),
        None => Seq::<u8>::empty(),
    };
    match m.timestamp {
        None => {
            assert(matches_in(s, kbe, end, f)) by {
                assert(s.subrange(kbe, kbe) =~= f);
            }
        },
        Some(ts) => {
            let tl = ts.spec_encoding().len() as u64;
            lemma_vint_bytes_len(TIMESTAMP_HEADER);
            lemma_vint_bytes_len(tl);
            assert(matches_in(s, kbe + 1 + vint_len(tl), end, ts.spec_encoding())) by {
                assert(s.subrange(end - ts.spec_encoding().len(), end).len()
                    == ts.spec_encoding().len());
            }
            lemma_matches_join(s, kbe, end, vint_bytes(TIMESTAMP_HEADER), vint_bytes(tl));
            lemma_matches_join(s, kbe, end, vint_bytes(TIMESTAMP_HEADER) + vint_bytes(tl),
                ts.spec_encoding());
            assert(f == (vint_bytes(TIMESTAMP_HEADER) + vint_bytes(tl)) + ts.spec_encoding());
        },
    }
    // join the pieces in the very shape the encoding is written in
    lemma_matches_join(s, pos, end, a, b);
    assert(a + b == enc_u64_field(0, true, m.root_key_threshold));
    lemma_matches_join(s, kf, end, c, d);
    lemma_matches_join(s, kf, end, c + d, e);
    assert((c + d) + e == enc_keys_field(m.root_keys@));
    lemma_matches_join(s, pos, end, a + b, (c + d) + e);
    lemma_matches_join(s, pos, end, (a + b) + ((c + d) + e), f);
    assert(((a + b) + ((c + d) + e)) + f == m.spec_encoding());
    assert(pos + m.spec_encoding().len() == end);
    assert(s.subrange(pos, end) == m.spec_encoding());
}

/// A well-formed request encodes to a bounded number of bytes.
pub proof fn lemma_request_encoding_bound(m: Request)
    requires
        m.wf(),
    ensures
        m.spec_encoding().len() <= 320,
{
    lemma_vint_bytes_len(THRESHOLD_HEADER);
    lemma_vint_bytes_len(m.root_key_threshold);
    lemma_vint_bytes_len(ROOT_KEYS_HEADER);
    lemma_vint_bytes_len(keys_seq_header(m.root_keys@));
    lemma_root_keys_cap(m.root_keys);
    lemma_enc_keys_body_len(m.root_keys@);
    assert(keys_seq_header(m.root_keys@) < 0x4000);
    assert(vint_len(keys_seq_header(m.root_keys@)) <= 2);
    match m.timestamp {
        Some(ts) => {
            let tl = ts.spec_encoding().len() as u64;
            lemma_vint_bytes_len(TIMESTAMP_HEADER);
            lemma_vint_bytes_len(crate::schema::timestamp::SECS_HEADER);
            lemma_vint_bytes_len(crate::schema::timestamp::NANOS_HEADER);
            lemma_vint_bytes_len(ts.secs);
            lemma_vint_bytes_len(ts.nanos as u64);
            assert(ts.spec_encoding().len() <= 20);
            lemma_vint_bytes_len(tl);
        },
        None => {},
    }
}

/// The region between `pos` and `end` opens with a threshold field
/// carrying `t` and a keys field carrying `ks`, whatever follows them.
pub open spec fn keys_run_at(
    s: Seq<u8>,
    pos: int,
    end: int,
    t: u64,
    ks: Seq<PublicKey>,
    rest: Seq<u8>,
) -> bool {
    s.subrange(pos, end) == enc_u64_field(0, true, t) + enc_keys_field(ks) + rest
}

/// How such a region lies in a byte string, field by field.
proof fn lemma_keys_run_layout(
    s: Seq<u8>,
    pos: int,
    end: int,
    t: u64,
    ks: Seq<PublicKey>,
    rest: Seq<u8>,
)
    requires
        0 <= pos <= end <= s.len(),
        keys_run_at(s, pos, end, t, ks, rest),
    ensures
        matches_in(s, pos, end, vint_bytes(THRESHOLD_HEADER)),
        matches_in(s, pos + 1, end, vint_bytes(t)),
        matches_in(s, pos + 1 + vint_len(t), end, vint_bytes(ROOT_KEYS_HEADER)),
        matches_in(s, pos + 2 + vint_len(t), end, vint_bytes(keys_seq_header(ks))),
        s.subrange(pos + 2 + vint_len(t) + vint_len(keys_seq_header(ks)), pos + 2 + vint_len(
            t) + vint_len(keys_seq_header(ks)) + 35 * ks.len()) == enc_keys_body(ks),
        pos + 2 + vint_len(t) + vint_len(keys_seq_header(ks)) + 35 * ks.len() <= end,
{
    lemma_vint_bytes_len(THRESHOLD_HEADER);
    lemma_vint_bytes_len(t);
    lemma_vint_bytes_len(ROOT_KEYS_HEADER);
    lemma_vint_bytes_len(keys_seq_header(ks));
    lemma_enc_keys_body_len(ks);
    let x = enc_u64_field(0, true, t);
    let y = enc_keys_field(ks);
    assert(matches_in(s, pos, end, (x + y) + rest)) by {
        assert(s.subrange(pos, end).len() == end - pos);
    }
    lemma_matches_split(s, pos, end, x + y, rest);
    lemma_matches_split(s, pos, end, x, y);
    assert(x == vint_bytes(THRESHOLD_HEADER) + vint_bytes(t));
    lemma_matches_split(s, pos, end, vint_bytes(THRESHOLD_HEADER), vint_bytes(t));
    let kf = pos + 2 + vint_len(t);
    assert(y == (vint_bytes(ROOT_KEYS_HEADER) + vint_bytes(keys_seq_header(ks)))
        + enc_keys_body(ks));
    lemma_matches_split(s, kf - 1, end, vint_bytes(ROOT_KEYS_HEADER) + vint_bytes(
        keys_seq_header(ks)), enc_keys_body(ks));
    lemma_matches_split(s, kf - 1, end, vint_bytes(ROOT_KEYS_HEADER), vint_bytes(
        keys_seq_header(ks)));
}

/// `m` is a well-formed request whose canonical encoding fills `s` between
/// `pos` and `end`, with its digest bound to those bytes.
pub open spec fn request_at(s: Seq<u8>, pos: int, end: int, m: Request) -> bool {
    &&& m.wf()
    &&& m.digest_bound()
    &&& s.subrange(pos, end) == m.spec_encoding()
}

impl Request {
    /// Read the threshold field and the keys field's header and sequence
    /// token, common to every request layout.
    #[verifier::rlimit(100)]
    fn read_prefix(input: &[u8], pos: usize, end: usize) -> (r: Result<
        (u64, u64, usize),
        DecodeError,
    >)
        requires
            pos <= end <= input@.len(),
        ensures
            match r {
                Ok((threshold, seq_header, p4)) => {
                    &&& pos + 2 + vint_len(threshold) + vint_len(seq_header) == p4 <= end
                    &&& matches_in(input@, pos as int, end as int, vint_bytes(
                        THRESHOLD_HEADER))
                    &&& matches_in(input@, pos + 1, end as int, vint_bytes(threshold))
                    &&& matches_in(input@, pos + 1 + vint_len(threshold), end as int,
                        vint_bytes(ROOT_KEYS_HEADER))
                    &&& matches_in(input@, pos + 2 + vint_len(threshold), end as int,
                        vint_bytes(seq_header))
                },
                Err(_) => true,
            },
            forall|m: Request|
                #![trigger request_at(input@, pos as int, end as int, m)]
                request_at(input@, pos as int, end as int, m) ==> r == Ok::<
                    (u64, u64, usize),
                    DecodeError,
                >((m.root_key_threshold, keys_seq_header(m.root_keys@), (m.keys_body_at(
                    pos as int)) as usize)),
            forall|t: u64, ks: Seq<PublicKey>, rest: Seq<u8>|
                #![trigger keys_run_at(input@, pos as int, end as int, t, ks, rest)]
                keys_run_at(input@, pos as int, end as int, t, ks, rest) ==> r == Ok::<
                    (u64, u64, usize),
                    DecodeError,
                >((t, keys_seq_header(ks), (pos + 2 + vint_len(t) + vint_len(keys_seq_header(
                    ks))) as usize)),
    {
        proof {
            assert forall|m: Request| #![trigger request_at(input@, pos as int, end as int, m)]
                request_at(input@, pos as int, end as int, m) implies matches_in(input@, pos as int, end as int,
                vint_bytes(THRESHOLD_HEADER)) by {
                lemma_request_layout(input@, pos as int, end as int, m);
            }
            assert forall|t: u64, ks: Seq<PublicKey>, rest: Seq<u8>|
                #![trigger keys_run_at(input@, pos as int, end as int, t, ks, rest)]
                keys_run_at(input@, pos as int, end as int, t, ks, rest) implies matches_in(
                input@, pos as int, end as int, vint_bytes(THRESHOLD_HEADER)) by {
                lemma_keys_run_layout(input@, pos as int, end as int, t, ks, rest);
            }
        }
        let p1 = match expect_header(input, pos, end, THRESHOLD_HEADER) {
            Ok(p) => p,
            Err(e) => {
                proof {
                    assert forall|m: Request| #![trigger request_at(input@, pos as int, end as int, m)]
                !request_at(input@, pos as int, end as int, m) by {
                        if m.wf() && input@.subrange(pos as int, end as int)
                            == m.spec_encoding() {
                            lemma_request_layout(input@, pos as int, end as int, m);
                        }
                    }
                }
                return Err(e);
            },
        };
        proof {
            assert forall|m: Request| #![trigger request_at(input@, pos as int, end as int, m)]
                request_at(input@, pos as int, end as int, m) implies matches_in(input@, p1 as int, end as int,
                vint_bytes(m.root_key_threshold)) by {
                lemma_request_layout(input@, pos as int, end as int, m);
            }
            assert forall|t: u64, ks: Seq<PublicKey>, rest: Seq<u8>|
                #![trigger keys_run_at(input@, pos as int, end as int, t, ks, rest)]
                keys_run_at(input@, pos as int, end as int, t, ks, rest) implies matches_in(
                input@, p1 as int, end as int, vint_bytes(t)) by {
                lemma_keys_run_layout(input@, pos as int, end as int, t, ks, rest);
            }
        }
        let (threshold, p2) = match read_vint(input, p1, end) {
            Ok(vp) => vp,
            Err(e) => {
                return Err(e);
            },
        };
        proof {
            assert forall|m: Request| #![trigger request_at(input@, pos as int, end as int, m)]
                request_at(input@, pos as int, end as int, m) implies m.root_key_threshold == threshold
                && m.keys_field_at(pos as int) == p2 && matches_in(input@, p2 as int,
                end as int, vint_bytes(ROOT_KEYS_HEADER)) by {
                lemma_request_layout(input@, pos as int, end as int, m);
            }
            assert forall|t: u64, ks: Seq<PublicKey>, rest: Seq<u8>|
                #![trigger keys_run_at(input@, pos as int, end as int, t, ks, rest)]
                keys_run_at(input@, pos as int, end as int, t, ks, rest) implies t == threshold
                && matches_in(input@, p2 as int, end as int, vint_bytes(ROOT_KEYS_HEADER)) by {
                lemma_keys_run_layout(input@, pos as int, end as int, t, ks, rest);
            }
        }
        let p3 = match expect_header(input, p2, end, ROOT_KEYS_HEADER) {
            Ok(p) => p,
            Err(e) => {
                return Err(e);
            },
        };
        proof {
            assert forall|m: Request| #![trigger request_at(input@, pos as int, end as int, m)]
                request_at(input@, pos as int, end as int, m) implies matches_in(input@, p3 as int, end as int,
                vint_bytes(keys_seq_header(m.root_keys@))) by {
                lemma_request_layout(input@, pos as int, end as int, m);
            }
            assert forall|t: u64, ks: Seq<PublicKey>, rest: Seq<u8>|
                #![trigger keys_run_at(input@, pos as int, end as int, t, ks, rest)]
                keys_run_at(input@, pos as int, end as int, t, ks, rest) implies matches_in(
                input@, p3 as int, end as int, vint_bytes(keys_seq_header(ks))) by {
                lemma_keys_run_layout(input@, pos as int, end as int, t, ks, rest);
            }
        }
        let (seq_header, p4) = match read_vint(input, p3, end) {
            Ok(vp) => vp,
            Err(e) => {
                return Err(e);
            },
        };
        proof {
            assert forall|m: Request| #![trigger request_at(input@, pos as int, end as int, m)]
                request_at(input@, pos as int, end as int, m) implies m.keys_body_at(
                pos as int) == p4 by {
                lemma_request_layout(input@, pos as int, end as int, m);
            }
        }
        Ok((threshold, seq_header, p4))
    }

    /// Parse the bytes of `input` from `pos` up to exactly `end` as one
    /// provisioning request, computing the digest over exactly those bytes.
    ///
    /// Succeeds precisely on the canonical encoding of a request: the
    /// result's own encoding is the region parsed and its digest field
    /// holds the digest of those bytes; conversely, whenever the region is
    /// some well-formed request's encoding, that request is returned.
    #[verifier::loop_isolation(false)]
    #[verifier::rlimit(100)]
    pub(crate) fn decode_region(input: &[u8], pos: usize, end: usize) -> (r: Result<
        Request,
        DecodeError,
    >)
        requires
            pos <= end <= input@.len(),
        ensures
            match r {
                Ok(m) => {
                    &&& m.wf()
                    &&& input@.subrange(pos as int, end as int) == m.spec_encoding()
                    &&& m.digest_bound()
                },
                Err(_) => true,
            },
            forall|m: Request|
                request_at(input@, pos as int, end as int, m) ==> r == Ok::<
                    Request,
                    DecodeError,
                >(m),
            forall|t: u64, ks: Seq<PublicKey>, rest: Seq<u8>|
                #![trigger keys_run_at(input@, pos as int, end as int, t, ks, rest)]
                keys_run_at(input@, pos as int, end as int, t, ks, rest) && 8 < ks.len()
                    < 0x4_0000_0000_0000 ==> r == Err::<Request, DecodeError>(
                    DecodeError::Capacity),
    {
        let (threshold, seq_header, p4) = match Self::read_prefix(input, pos, end) {
            Ok(v) => v,
            Err(e) => {
                return Err(e);
            },
        };
        proof {
            assert forall|m: Request| #![trigger request_at(input@, pos as int, end as int, m)]
                request_at(input@, pos as int, end as int, m) implies {
                &&& seq_header == keys_seq_header(m.root_keys@)
                &&& seq_header % 16 == 6
                &&& seq_header / 16 == 35 * m.root_keys@.len()
                &&& m.root_keys@.len() <= 8
                &&& m.keys_body_at(pos as int) == p4
                &&& p4 + 35 * m.root_keys@.len() == m.keys_body_end(pos as int) <= end
                &&& input@.subrange(p4 as int, m.keys_body_end(pos as int)) == enc_keys_body(
                    m.root_keys@)
            } by {
                lemma_request_layout(input@, pos as int, end as int, m);
                lemma_root_keys_cap(m.root_keys);
                let l = m.root_keys@.len() as int;
                assert(keys_seq_header(m.root_keys@) == (16 * (35 * l) + 6) as u64);
                vstd::arithmetic::div_mod::lemma_fundamental_div_mod_converse(
                    16 * (35 * l) + 6, 16, 35 * l, 6);
            }
            assert forall|t: u64, ks: Seq<PublicKey>, rest: Seq<u8>|
                #![trigger keys_run_at(input@, pos as int, end as int, t, ks, rest)]
                keys_run_at(input@, pos as int, end as int, t, ks, rest) && ks.len()
                    < 0x4_0000_0000_0000 implies {
                &&& seq_header == keys_seq_header(ks)
                &&& seq_header % 16 == 6
                &&& seq_header / 16 == 35 * ks.len()
                &&& p4 + 35 * ks.len() <= end
                &&& input@.subrange(p4 as int, p4 + 35 * ks.len()) == enc_keys_body(ks)
            } by {
                lemma_keys_run_layout(input@, pos as int, end as int, t, ks, rest);
                let l = ks.len() as int;
                assert(keys_seq_header(ks) == (16 * (35 * l) + 6) as u64);
                vstd::arithmetic::div_mod::lemma_fundamental_div_mod_converse(
                    16 * (35 * l) + 6, 16, 35 * l, 6);
            }
        }
        if seq_header % 16 != 6 {
            return Err(DecodeError::MalformedElement);
        }
        let body_words = seq_header / 16;
        if body_words > (end - p4) as u64 {
            return Err(DecodeError::LengthExceeded);
        }
        let body_len = body_words as usize;
        let body_end = p4 + body_len;
        let mut rk = RootKeys::new();
        let mut pc = p4;
        proof {
            assert(enc_keys_body(Seq::<PublicKey>::empty()) == Seq::<u8>::empty());
            assert(input@.subrange(p4 as int, pc as int) =~= enc_keys_body(rk@));
        }
        while pc < body_end
            invariant
                p4 <= pc <= body_end,
                rk.wf(),
                rk@.len() <= 8,
                pc - p4 == 35 * rk@.len(),
                input@.subrange(p4 as int, pc as int) == enc_keys_body(rk@),
                forall|ks: Seq<PublicKey>|
                    #![trigger enc_keys_body(ks)]
                    input@.subrange(p4 as int, body_end as int) == enc_keys_body(ks)
                        ==> rk@.len() <= ks.len() && rk@ == ks.take(rk@.len() as int),
            decreases body_end - pc,
        {
            let ghost i = rk@.len() as int;
            proof {
                assert forall|ks: Seq<PublicKey>|
                    #![trigger enc_keys_body(ks)]
                    input@.subrange(p4 as int, body_end as int) == enc_keys_body(ks) implies {
                    &&& i < ks.len()
                    &&& matches_in(input@, pc as int, body_end as int, vint_bytes(
                        KEY_WIRE_LEN as u64))
                    &&& input@.subrange(pc + 1, pc + 35) == ks[i].spec_encoding()
                    &&& pc + 35 <= body_end
                } by {
                    lemma_enc_keys_body_len(ks);
                    lemma_keys_element(input@, p4 as int, body_end as int, ks, i);
                }
            }
            let (elen, pe) = match read_length(input, pc, body_end) {
                Ok(lp) => lp,
                Err(e) => {
                    return Err(e);
                },
            };
            let k = match PublicKey::decode_region(input, pe, pe + elen) {
                Ok(k) => k,
                Err(e) => {
                    return Err(e);
                },
            };
            proof {
                lemma_key_encoding_len(k);
                lemma_vint_bytes_len(KEY_WIRE_LEN as u64);
            }
            let ghost old_rk = rk;
            match rk.push(k) {
                Ok(()) => {},
                Err(_) => {
                    return Err(DecodeError::Capacity);
                },
            }
            pc = pe + elen;
            proof {
                lemma_enc_keys_body_snoc(old_rk@, k);
                lemma_enc_keys_body_len(rk@);
                assert(input@.subrange(pe as int, pc as int) == k.spec_encoding());
                assert(matches_in(input@, pe - 1, pc as int, vint_bytes(KEY_WIRE_LEN as u64)));
                assert(matches_in(input@, pe as int, pc as int, k.spec_encoding())) by {
                    assert(input@.subrange(pe as int, pc as int).len() == 34);
                }
                lemma_matches_join(input@, pe - 1, pc as int, vint_bytes(KEY_WIRE_LEN as u64),
                    k.spec_encoding());
                assert(matches_in(input@, p4 as int, pc as int, enc_keys_body(old_rk@))) by {
                    assert(input@.subrange(p4 as int, pe - 1).len() == pe - 1 - p4);
                }
                lemma_matches_join(input@, p4 as int, pc as int, enc_keys_body(old_rk@),
                    vint_bytes(KEY_WIRE_LEN as u64) + k.spec_encoding());
                assert(input@.subrange(p4 as int, pc as int) == enc_keys_body(rk@));
                assert forall|ks: Seq<PublicKey>|
                    #![trigger enc_keys_body(ks)]
                    input@.subrange(p4 as int, body_end as int) == enc_keys_body(ks)
                        implies rk@.len() <= ks.len() && rk@ == ks.take(rk@.len() as int) by {
                    assert(input@.subrange(pc - 34, pc as int) == ks[i].spec_encoding());
                    assert(k == ks[i]);
                    assert(ks.take(i + 1) =~= ks.take(i).push(ks[i]));
                }
            }
        }
        proof {
            assert forall|m: Request| #![trigger request_at(input@, pos as int, end as int, m)]
                request_at(input@, pos as int, end as int, m) implies m.root_keys == rk by {
                let ks = m.root_keys@;
                lemma_enc_keys_body_len(ks);
                lemma_enc_keys_body_len(rk@);
                assert(rk@ == ks.take(rk@.len() as int));
                assert(ks.len() == rk@.len());
                assert(ks.take(rk@.len() as int) =~= ks);
                lemma_root_keys_ext(m.root_keys, rk);
            }
        }
        let timestamp: Option<Timestamp>;
        if body_end == end {
            proof {
                assert forall|m: Request| #![trigger request_at(input@, pos as int, end as int, m)]
                request_at(input@, pos as int, end as int, m) implies m.timestamp is None by {
                    lemma_request_layout(input@, pos as int, end as int, m);
                }
            }
            timestamp = None;
        } else {
            proof {
                assert forall|m: Request| #![trigger request_at(input@, pos as int, end as int, m)]
                request_at(input@, pos as int, end as int, m) implies m.timestamp is Some && matches_in(
                    input@, body_end as int, end as int, vint_bytes(TIMESTAMP_HEADER)) by {
                    lemma_request_layout(input@, pos as int, end as int, m);
                }
            }
            let q1 = match expect_header(input, body_end, end, TIMESTAMP_HEADER) {
                Ok(p) => p,
                Err(e) => {
                    return Err(e);
                },
            };
            proof {
                assert forall|m: Request| #![trigger request_at(input@, pos as int, end as int, m)]
                request_at(input@, pos as int, end as int, m) implies match m.timestamp {
                    Some(ts) => matches_in(input@, q1 as int, end as int, vint_bytes(
                        ts.spec_encoding().len() as u64)) && q1 + vint_len(
                        ts.spec_encoding().len() as u64) + ts.spec_encoding().len() == end
                        && input@.subrange(end - ts.spec_encoding().len(), end as int)
                        == ts.spec_encoding(),
                    None => false,
                } by {
                    lemma_request_layout(input@, pos as int, end as int, m);
                }
            }
            let (tlen, q2) = match read_length(input, q1, end) {
                Ok(lp) => lp,
                Err(e) => {
                    return Err(e);
                },
            };
            if q2 + tlen != end {
                return Err(DecodeError::TrailingData);
            }
            let ts = match Timestamp::decode_region(input, q2, end) {
                Ok(ts) => ts,
                Err(e) => {
                    return Err(e);
                },
            };
            timestamp = Some(ts);
        }
        let region = vstd::slice::slice_subrange(input, pos, end);
        let digest = sha256(region);
        let m = Request {
            root_key_threshold: threshold,
            root_keys: rk,
            timestamp,
            digest: Some(digest),
        };
        proof {
            lemma_vint_bytes_len(threshold);
            lemma_vint_bytes_len(seq_header);
            lemma_enc_keys_body_len(rk@);
            assert(seq_header == keys_seq_header(rk@)) by {
                vstd::arithmetic::div_mod::lemma_fundamental_div_mod(seq_header as int, 16);
            }
            assert(m.keys_body_at(pos as int) == p4);
            assert(m.keys_body_end(pos as int) == body_end);
            lemma_request_assemble(input@, pos as int, end as int, m);
            assert(m.digest_bound());
            assert forall|m2: Request| request_at(input@, pos as int, end as int, m2) implies m2 == m by {
                assert(m2.root_key_threshold == m.root_key_threshold);
                assert(m2.root_keys == m.root_keys);
                match (m2.timestamp, m.timestamp) {
                    (Some(t2), Some(t1)) => {
                        assert(t2 == t1);
                    },
                    (None, None) => {},
                    _ => {
                        assert(false);
                    },
                }
                match (m2.digest, m.digest) {
                    (Some(d2), Some(d1)) => {
                        assert(d2@ == d1@);
                        assert(d2 =~= d1);
                    },
                    _ => {
                        assert(false);
                    },
                }
            }
        }
        Ok(m)
    }
}

impl Request {
    /// Decode a complete provisioning request message.
    pub fn decode(input: &[u8]) -> (r: Result<Request, DecodeError>)
        ensures
            match r {
                Ok(m) => {
                    &&& m.wf()
                    &&& input@ == m.spec_encoding()
                    &&& m.digest_bound()
                },
                Err(_) => true,
            },
            forall|m: Request|
                #![trigger m.spec_encoding()]
                request_at(input@, 0, input@.len() as int, m) ==> r == Ok::<
                    Request,
                    DecodeError,
                >(m),
            forall|t: u64, ks: Seq<PublicKey>, rest: Seq<u8>|
                #![trigger keys_run_at(input@, 0, input@.len() as int, t, ks, rest)]
                keys_run_at(input@, 0, input@.len() as int, t, ks, rest) && 8 < ks.len()
                    < 0x4_0000_0000_0000 ==> r == Err::<Request, DecodeError>(
                    DecodeError::Capacity),
    {
        let r = Self::decode_region(input, 0, input.len());
        proof {
            assert(input@.subrange(0, input@.len() as int) =~= input@);
        }
        r
    }

    /// The canonical encoding as a fresh byte vector.
    pub fn to_vec(&self) -> (r: Vec<u8>)
        requires
            self.wf(),
        ensures
            r@ == self.spec_encoding(),
    {
        let mut bytes: Vec<u8> = Vec::new();
        self.encode_to(&mut bytes);
        bytes
    }

    /// Encode this message into the front of `buffer`, returning the
    /// number of bytes written; the rest of the buffer is left as it was.
    pub fn encode(&self, buffer: &mut Vec<u8>) -> (r: Result<usize, EncodeError>)
        requires
            self.wf(),
        ensures
            match r {
                Ok(n) => {
                    &&& n == self.spec_encoding().len() <= old(buffer)@.len()
                    &&& final(buffer)@ == self.spec_encoding() + old(buffer)@.skip(n as int)
                },
                Err(e) => {
                    &&& e == EncodeError::BufferTooSmall
                    &&& old(buffer)@.len() < self.spec_encoding().len()
                    &&& final(buffer)@ == old(buffer)@
                },
            },
    {
        let bytes = self.to_vec();
        crate::codec::copy_to_front(buffer, &bytes)
    }
}

/// A response to a device being provisioned: the identifier assigned to
/// the committed root configuration.
#[derive(Clone, Copy, Debug, PartialEq, Eq)]
pub struct Response {
    /// Identifier deterministically assigned at provisioning time.
    pub uuid: Uuid,
}

impl Response {
    /// The identifier is exactly 36 ASCII characters.
    pub open spec fn wf(self) -> bool {
        &&& self.uuid@.len() == 36
        &&& uuid_wf(self.uuid@)
    }

    /// The canonical wire encoding: one critical string field.
    pub open spec fn spec_encoding(self) -> Seq<u8> {
        enc_region_field(0, true, WireType::String, self.uuid@)
    }

    /// Length of the canonical encoding.
    pub fn encoded_len(&self) -> (n: usize)
        requires
            self.wf(),
        ensures
            n == self.spec_encoding().len(),
            n == 38,
    {
        proof {
            lemma_vint_bytes_len(UUID_HEADER);
            lemma_vint_bytes_len(36);
        }
        38
    }

    /// Append the canonical encoding to `out`.
    pub fn encode_to(&self, out: &mut Vec<u8>)
        requires
            self.wf(),
        ensures
            final(out)@ == old(out)@ + self.spec_encoding(),
    {
        proof {
            assert(UUID_HEADER == header_value(0, true, WireType::String));
        }
        crate::vint::write_vint(out, UUID_HEADER);
        crate::vint::write_vint(out, 36);
        let ghost mid = out@;
        let bytes = self.uuid.as_bytes();
        let mut i: usize = 0;
        while i < 36
            invariant
                i <= 36,
                bytes@ == self.uuid@,
                bytes@.len() == 36,
                out@ == mid + bytes@.subrange(0, i as int),
            decreases 36 - i,
        {
            out.push(bytes[i]);
            assert(out@ =~= mid + bytes@.subrange(0, i + 1));
            i = i + 1;
        }
        proof {
            assert(bytes@.subrange(0, 36) =~= self.uuid@);
            assert(out@ =~= old(out)@ + self.spec_encoding());
        }
    }

    /// Parse the bytes of `input` from `pos` up to exactly `end` as one
    /// provisioning response.
    pub(crate) fn decode_region(input: &[u8], pos: usize, end: usize) -> (r: Result<
        Response,
        DecodeError,
    >)
        requires
            pos <= end <= input@.len(),
        ensures
            match r {
                Ok(m) => m.wf() && input@.subrange(pos as int, end as int)
                    == m.spec_encoding(),
                Err(_) => true,
            },
            forall|m: Response|
                m.wf() && input@.subrange(pos as int, end as int) == m.spec_encoding()
                    ==> r == Ok::<Response, DecodeError>(m),
    {
        proof {
            lemma_vint_bytes_len(UUID_HEADER);
            lemma_vint_bytes_len(36);
            assert forall|m: Response|
                m.wf() && input@.subrange(pos as int, end as int) == m.spec_encoding()
                    implies matches_in(input@, pos as int, end as int, vint_bytes(UUID_HEADER))
                    && matches_in(input@, pos + 1, end as int, vint_bytes(36)) && pos + 38
                    == end && input@.subrange(pos + 2, end as int) == m.uuid@ by {
                assert(matches_in(input@, pos as int, end as int, m.spec_encoding())) by {
                    assert(input@.subrange(pos as int, end as int).len() == end - pos);
                }
                assert(m.spec_encoding() == (vint_bytes(UUID_HEADER) + vint_bytes(36))
                    + m.uuid@);
                lemma_matches_split(input@, pos as int, end as int, vint_bytes(UUID_HEADER)
                    + vint_bytes(36), m.uuid@);
                lemma_matches_split(input@, pos as int, end as int, vint_bytes(UUID_HEADER),
                    vint_bytes(36));
                assert(input@.subrange(pos + 2, pos + 2 + 36) == m.uuid@);
            }
        }
        let p1 = match expect_header(input, pos, end, UUID_HEADER) {
            Ok(p) => p,
            Err(e) => {
                return Err(e);
            },
        };
        let (len, p2) = match read_length(input, p1, end) {
            Ok(lp) => lp,
            Err(e) => {
                return Err(e);
            },
        };
        if len != 36 {
            return Err(DecodeError::MalformedElement);
        }
        if end - p2 != 36 {
            return Err(DecodeError::TrailingData);
        }
        let mut b = [0u8; 36];
        let mut i: usize = 0;
        while i < 36
            invariant
                i <= 36,
                p2 + 36 == end <= input@.len(),
                b@.len() == 36,
                forall|t: int| 0 <= t < i ==> b@[t] == input@[p2 + t],
            decreases 36 - i,
        {
            b[i] = input[p2 + i];
            i = i + 1;
        }
        proof {
            assert(b@ =~= input@.subrange(p2 as int, end as int));
        }
        let uuid = match Uuid::from_array(b) {
            Ok(u) => u,
            Err(e) => {
                return Err(e);
            },
        };
        let m = Response { uuid };
        proof {
            assert(matches_in(input@, p2 as int, end as int, m.uuid@));
            lemma_matches_join(input@, p1 as int, end as int, vint_bytes(36), m.uuid@);
            lemma_matches_join(input@, pos as int, end as int, vint_bytes(UUID_HEADER),
                vint_bytes(36) + m.uuid@);
            assert(m.spec_encoding() =~= vint_bytes(UUID_HEADER) + (vint_bytes(36) + m.uuid@));
            assert(input@.subrange(pos as int, end as int) == m.spec_encoding());
            assert forall|m2: Response|
                m2.wf() && input@.subrange(pos as int, end as int) == m2.spec_encoding()
                    implies m2 == m by {
                assert(m2.uuid@ == m.uuid@);
                lemma_uuid_ext(m2.uuid, m.uuid);
            }
        }
        Ok(m)
    }

    /// Decode a complete provisioning response message.
    pub fn decode(input: &[u8]) -> (r: Result<Response, DecodeError>)
        ensures
            match r {
                Ok(m) => m.wf() && input@ == m.spec_encoding(),
                Err(_) => true,
            },
            forall|m: Response|
                #![trigger m.spec_encoding()]
                m.wf() && input@ == m.spec_encoding() ==> r == Ok::<Response, DecodeError>(m),
    {
        let r = Self::decode_region(input, 0, input.len());
        proof {
            assert(input@.subrange(0, input@.len() as int) =~= input@);
        }
        r
    }

    /// The canonical encoding as a fresh byte vector.
    pub fn to_vec(&self) -> (r: Vec<u8>)
        requires
            self.wf(),
        ensures
            r@ == self.spec_encoding(),
    {
        let mut bytes: Vec<u8> = Vec::new();
        self.encode_to(&mut bytes);
        bytes
    }

    /// Encode this message into the front of `buffer`, returning the
    /// number of bytes written; the rest of the buffer is left as it was.
    pub fn encode(&self, buffer: &mut Vec<u8>) -> (r: Result<usize, EncodeError>)
        requires
            self.wf(),
        ensures
            match r {
                Ok(n) => {
                    &&& n == self.spec_encoding().len() <= old(buffer)@.len()
                    &&& final(buffer)@ == self.spec_encoding() + old(buffer)@.skip(n as int)
                },
                Err(e) => {
                    &&& e == EncodeError::BufferTooSmall
                    &&& old(buffer)@.len() < self.spec_encoding().len()
                    &&& final(buffer)@ == old(buffer)@
                },
            },
    {
        let bytes = self.to_vec();
        crate::codec::copy_to_front(buffer, &bytes)
    }
}

} // verus!
