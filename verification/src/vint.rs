//! Minimal prefix variable-length encoding of 64-bit unsigned integers.
//!
//! A value occupies one to nine bytes.  The count of trailing zero bits in
//! the first byte says how many further bytes follow: a first byte ending in
//! `1` stands alone, one ending in `10` brings one more byte, and so on; an
//! all-zero first byte announces eight further bytes holding the full value
//! in little-endian order.  For the shorter forms the value `v` and the
//! length marker are packed into a single little-endian integer
//! `v * 2^l + 2^(l-1)` whose low `l` bits are the marker.  Every value has
//! exactly one admissible (minimal) encoding; the decoder rejects all others.

use vstd::prelude::*;

use crate::error::DecodeError;

verus! {

/// Number of bytes the encoding of `v` occupies (1 through 9).
pub open spec fn vint_len(v: u64) -> int {
    if v < 0x80 {
        1
    } else if v < 0x4000 {
        2
    } else if v < 0x20_0000 {
        3
    } else if v < 0x1000_0000 {
        4
    } else if v < 0x8_0000_0000 {
        5
    } else if v < 0x400_0000_0000 {
        6
    } else if v < 0x2_0000_0000_0000 {
        7
    } else if v < 0x100_0000_0000_0000 {
        8
    } else {
        9
    }
}

/// 2^l, for the small exponents the encoding works with.
pub open spec fn two_pow(l: int) -> int {
    if l <= 0 {
        1
    } else if l == 1 {
        2
    } else if l == 2 {
        4
    } else if l == 3 {
        8
    } else if l == 4 {
        0x10
    } else if l == 5 {
        0x20
    } else if l == 6 {
        0x40
    } else if l == 7 {
        0x80
    } else {
        0x100
    }
}

/// 256^n, for n up to 8.
pub open spec fn pow256(n: int) -> int {
    if n <= 0 {
        1
    } else if n == 1 {
        0x100
    } else if n == 2 {
        0x1_0000
    } else if n == 3 {
        0x100_0000
    } else if n == 4 {
        0x1_0000_0000
    } else if n == 5 {
        0x100_0000_0000
    } else if n == 6 {
        0x1_0000_0000_0000
    } else if n == 7 {
        0x100_0000_0000_0000
    } else {
        0x1_0000_0000_0000_0000
    }
}

/// The least value whose encoding occupies `l` bytes.
pub open spec fn min_for(l: int) -> int {
    if l <= 1 {
        0
    } else if l == 2 {
        0x80
    } else if l == 3 {
        0x4000
    } else if l == 4 {
        0x20_0000
    } else if l == 5 {
        0x1000_0000
    } else if l == 6 {
        0x8_0000_0000
    } else if l == 7 {
        0x400_0000_0000
    } else if l == 8 {
        0x2_0000_0000_0000
    } else {
        0x100_0000_0000_0000
    }
}

/// The `n` little-endian bytes of `e`.
pub open spec fn le_bytes(e: int, n: int) -> Seq<u8>
    decreases n,
{
    if n <= 0 {
        Seq::empty()
    } else {
        seq![(e % 256) as u8] + le_bytes(e / 256, n - 1)
    }
}

/// The integer a little-endian byte string stands for.
pub open spec fn le_value(s: Seq<u8>) -> int
    decreases s.len(),
{
    if s.len() == 0 {
        0
    } else {
        s[0] + 256 * le_value(s.drop_first())
    }
}

/// The canonical encoding of `v`.
pub open spec fn vint_bytes(v: u64) -> Seq<u8> {
    let l = vint_len(v);
    if l == 9 {
        seq![0u8] + le_bytes(v as int, 8)
    } else {
        le_bytes(v * two_pow(l) + two_pow(l - 1), l)
    }
}

/// The byte length the decoder infers from a first byte: one more than its
/// count of trailing zero bits.
pub open spec fn first_byte_len(b: u8) -> int {
    if b % 2 == 1 {
        1
    } else if b % 4 == 2 {
        2
    } else if b % 8 == 4 {
        3
    } else if b % 0x10 == 8 {
        4
    } else if b % 0x20 == 0x10 {
        5
    } else if b % 0x40 == 0x20 {
        6
    } else if b % 0x80 == 0x40 {
        7
    } else if b == 0x80 {
        8
    } else {
        9
    }
}

/// `pat` occupies the bytes of `s` from `pos` on, inside the region that
/// ends at `end`.
pub open spec fn matches_in(s: Seq<u8>, pos: int, end: int, pat: Seq<u8>) -> bool {
    &&& 0 <= pos
    &&& pos + pat.len() <= end
    &&& end <= s.len()
    &&& s.subrange(pos, pos + pat.len()) == pat
}

proof fn lemma_le_bytes_len(e: int, n: int)
    ensures
        le_bytes(e, n).len() == if n <= 0 { 0int } else { n },
    decreases n,
{
    if n > 0 {
        lemma_le_bytes_len(e / 256, n - 1);
    }
}

/// The encoding of `v` is `vint_len(v)` bytes long.
pub proof fn lemma_vint_bytes_len(v: u64)
    ensures
        vint_bytes(v).len() == vint_len(v),
        1 <= vint_len(v) <= 9,
{
    let l = vint_len(v);
    if l == 9 {
        lemma_le_bytes_len(v as int, 8);
    } else {
        lemma_le_bytes_len(v * two_pow(l) + two_pow(l - 1), l);
    }
}

/// Rebuilding the integer a byte string stands for and re-serialising it
/// gives back the same bytes.
proof fn lemma_le_bytes_of_value(s: Seq<u8>)
    requires
        s.len() <= 8,
    ensures
        0 <= le_value(s) < pow256(s.len() as int),
        le_bytes(le_value(s), s.len() as int) == s,
    decreases s.len(),
{
    if s.len() == 0 {
        assert(le_bytes(le_value(s), 0) == s);
    } else {
        let rest = s.drop_first();
        lemma_le_bytes_of_value(rest);
        let r = le_value(rest);
        let e = s[0] + 256 * r;
        assert(e / 256 == r && e % 256 == s[0]) by {
            vstd::arithmetic::div_mod::lemma_fundamental_div_mod_converse(
                e, 256, r, s[0] as int);
        }
        assert(pow256(s.len() as int) == 256 * pow256(rest.len() as int));
        assert(e < pow256(s.len() as int));
        assert(le_bytes(e, s.len() as int) == seq![(e % 256) as u8] + le_bytes(
            e / 256, s.len() - 1));
        assert(le_bytes(r, rest.len() as int) == rest);
        assert(le_bytes(e, s.len() as int) =~= s);
    }
}

/// Reducing modulo 256 first does not change a residue modulo a smaller
/// power of two.
proof fn lemma_mod_256_refine(e: int, l: int)
    requires
        1 <= l <= 8,
    ensures
        e % two_pow(l) == (e % 256) % two_pow(l),
{
    let m = two_pow(l);
    let k = 256int / m;
    assert(m * k == 256);
    vstd::arithmetic::div_mod::lemma_fundamental_div_mod(e, 256);
    vstd::arithmetic::mul::lemma_mul_is_associative(m, k, e / 256);
    assert(e == m * (k * (e / 256)) + e % 256);
    vstd::arithmetic::div_mod::lemma_mod_multiples_vanish(k * (e / 256), e % 256, m);
}

/// The first byte of a canonical encoding announces its length.
pub proof fn lemma_vint_first_byte(v: u64)
    ensures
        vint_bytes(v).len() == vint_len(v),
        1 <= vint_len(v) <= 9,
        first_byte_len(vint_bytes(v)[0]) == vint_len(v),
{
    lemma_vint_bytes_len(v);
    let l = vint_len(v);
    if l == 9 {
        assert(vint_bytes(v)[0] == 0u8);
    } else {
        let e = v * two_pow(l) + two_pow(l - 1);
        let b = vint_bytes(v)[0];
        assert(b == (e % 256) as u8);
        assert(0 <= e) by {
            vstd::arithmetic::mul::lemma_mul_nonnegative(v as int, two_pow(l));
        }
        assert(e % two_pow(l) == two_pow(l - 1)) by {
            vstd::arithmetic::div_mod::lemma_mod_multiples_vanish(
                v as int, two_pow(l - 1), two_pow(l));
            vstd::arithmetic::div_mod::lemma_small_mod(
                two_pow(l - 1) as nat, two_pow(l) as nat);
        }
        lemma_mod_256_refine(e, l);
        assert((b as int) % two_pow(l) == two_pow(l - 1));
        // the moduli of the earlier branches all divide `two_pow(l - 1)`,
        // so those branches cannot fire
        if l == 2 {
            assert(b % 4 == 2 ==> b % 2 == 0) by (bit_vector);
        } else if l == 3 {
            assert(b % 8 == 4 ==> b % 2 == 0 && b % 4 == 0) by (bit_vector);
        } else if l == 4 {
            assert(b % 0x10 == 8 ==> b % 2 == 0 && b % 4 == 0 && b % 8 == 0) by (bit_vector);
        } else if l == 5 {
            assert(b % 0x20 == 0x10 ==> b % 2 == 0 && b % 4 == 0 && b % 8 == 0 && b % 0x10 == 0)
                by (bit_vector);
        } else if l == 6 {
            assert(b % 0x40 == 0x20 ==> b % 2 == 0 && b % 4 == 0 && b % 8 == 0 && b % 0x10 == 0
                && b % 0x20 == 0) by (bit_vector);
        } else if l == 7 {
            assert(b % 0x80 == 0x40 ==> b % 2 == 0 && b % 4 == 0 && b % 8 == 0 && b % 0x10 == 0
                && b % 0x20 == 0 && b % 0x40 == 0) by (bit_vector);
        } else if l == 8 {
            assert((b as u64) % 0x100 == 0x80 ==> b == 0x80) by (bit_vector);
            assert(b == 0x80 ==> b % 2 == 0 && b % 4 == 0 && b % 8 == 0 && b % 0x10 == 0
                && b % 0x20 == 0 && b % 0x40 == 0 && b % 0x80 == 0) by (bit_vector);
        }
        assert(first_byte_len(b) == l);
    }
}

/// Serialising `e` and reading the bytes back gives `e` again.
proof fn lemma_le_value_of_bytes(e: int, n: int)
    requires
        0 <= n <= 8,
        0 <= e < pow256(n),
    ensures
        le_value(le_bytes(e, n)) == e,
    decreases n,
{
    if n == 0 {
    } else {
        lemma_le_bytes_len(e / 256, n - 1);
        assert(0 <= e / 256 < pow256(n - 1)) by {
            assert(256 * pow256(n - 1) == pow256(n));
            vstd::arithmetic::div_mod::lemma_fundamental_div_mod(e, 256);
        }
        lemma_le_value_of_bytes(e / 256, n - 1);
        let s = le_bytes(e, n);
        assert(s.drop_first() =~= le_bytes(e / 256, n - 1));
        assert(le_value(s) == e % 256 + 256 * (e / 256));
        vstd::arithmetic::div_mod::lemma_fundamental_div_mod(e, 256);
    }
}

/// 2^l paired with the least value whose encoding occupies `l` bytes.
fn vint_consts(l: usize) -> (r: (u64, u64))
    requires
        1 <= l <= 8,
    ensures
        r.0 == two_pow(l as int),
        r.1 == min_for(l as int),
{
    match l {
        1 => (2, 0),
        2 => (4, 0x80),
        3 => (8, 0x4000),
        4 => (0x10, 0x20_0000),
        5 => (0x20, 0x1000_0000),
        6 => (0x40, 0x8_0000_0000),
        7 => (0x80, 0x400_0000_0000),
        _ => (0x100, 0x2_0000_0000_0000),
    }
}

/// Append the `n` little-endian bytes of `e` to `out`.
fn push_le_bytes(out: &mut Vec<u8>, e: u64, n: usize)
    requires
        n <= 8,
    ensures
        final(out)@ == old(out)@ + le_bytes(e as int, n as int),
{
    let ghost base = out@;
    let mut w = e;
    let mut i: usize = 0;
    while i < n
        invariant
            i <= n <= 8,
            base + le_bytes(e as int, n as int) =~= out@ + le_bytes(w as int, (n - i) as int),
            out@.len() == base.len() + i,
        decreases n - i,
    {
        out.push((w % 256) as u8);
        w = w / 256;
        i = i + 1;
        assert(base + le_bytes(e as int, n as int) =~= out@ + le_bytes(w as int, (n - i) as int));
    }
    assert(out@ =~= base + le_bytes(e as int, n as int));
}

/// Append the canonical encoding of `v` to `out`.
pub fn write_vint(out: &mut Vec<u8>, v: u64)
    ensures
        final(out)@ == old(out)@ + vint_bytes(v),
{
    proof {
        lemma_vint_bytes_len(v);
    }
    let l: usize = if v < 0x80 {
        1
    } else if v < 0x4000 {
        2
    } else if v < 0x20_0000 {
        3
    } else if v < 0x1000_0000 {
        4
    } else if v < 0x8_0000_0000 {
        5
    } else if v < 0x400_0000_0000 {
        6
    } else if v < 0x2_0000_0000_0000 {
        7
    } else if v < 0x100_0000_0000_0000 {
        8
    } else {
        9
    };
    if l == 9 {
        out.push(0);
        push_le_bytes(out, v, 8);
        assert(out@ =~= old(out)@ + vint_bytes(v));
    } else {
        let (tp, _) = vint_consts(l);
        proof {
            if l == 1 {
                assert(v * 2 + 1 < 0x100);
            } else if l == 2 {
                assert(v * 4 + 2 < 0x1_0000);
            } else if l == 3 {
                assert(v * 8 + 4 < 0x100_0000);
            } else if l == 4 {
                assert(v * 0x10 + 8 < 0x1_0000_0000);
            } else if l == 5 {
                assert(v * 0x20 + 0x10 < 0x100_0000_0000);
            } else if l == 6 {
                assert(v * 0x40 + 0x20 < 0x1_0000_0000_0000);
            } else if l == 7 {
                assert(v * 0x80 + 0x40 < 0x100_0000_0000_0000);
            } else {
                assert(v * 0x100 + 0x80 < 0x1_0000_0000_0000_0000);
            }
        }
        let e = v * tp + tp / 2;
        push_le_bytes(out, e, l);
        assert(e as int == v * two_pow(l as int) + two_pow(l as int - 1));
    }
}

/// The integer a short little-endian byte string stands for is below
/// 256 to the power of its length.
pub proof fn lemma_le_value_below(s: Seq<u8>)
    requires
        s.len() <= 8,
    ensures
        0 <= le_value(s) < pow256(s.len() as int),
{
    lemma_le_bytes_of_value(s);
}

/// Length of the canonical encoding of `v`.
pub fn vint_size(v: u64) -> (n: usize)
    ensures
        n == vint_len(v),
{
    if v < 0x80 {
        1
    } else if v < 0x4000 {
        2
    } else if v < 0x20_0000 {
        3
    } else if v < 0x1000_0000 {
        4
    } else if v < 0x8_0000_0000 {
        5
    } else if v < 0x400_0000_0000 {
        6
    } else if v < 0x2_0000_0000_0000 {
        7
    } else if v < 0x100_0000_0000_0000 {
        8
    } else {
        9
    }
}

/// Read the `n` little-endian bytes starting at `start` as one integer.
pub(crate) fn read_le(input: &[u8], start: usize, n: usize) -> (e: u64)
    requires
        n <= 8,
        start + n <= input@.len(),
    ensures
        e as int == le_value(input@.subrange(start as int, start as int + n)),
{
    let ilen = input.len();
    let mut e: u64 = 0;
    let mut j: usize = n;
    proof {
        lemma_le_bytes_of_value(input@.subrange(start as int, start as int + n));
    }
    while j > 0
        invariant
            j <= n <= 8,
            start + n <= ilen == input@.len(),
            e as int == le_value(input@.subrange(start + j, start as int + n)),
            (e as int) < pow256((n - j) as int),
        decreases j,
    {
        let ghost tail = input@.subrange(start + j, start as int + n);
        let ghost tail2 = input@.subrange(start + j - 1, start as int + n);
        proof {
            lemma_le_bytes_of_value(tail);
            assert(tail2.drop_first() =~= tail);
            assert(le_value(tail2) == tail2[0] + 256 * le_value(tail));
        }
        let b = input[start + j - 1];
        e = e * 256 + (b as u64);
        j = j - 1;
        proof {
            lemma_le_bytes_of_value(tail2);
        }
    }
    assert(input@.subrange(start + j, start as int + n) =~= input@.subrange(
        start as int, start as int + n));
    e
}

/// The packed integer behind a short-form encoding stays below 256^l.
proof fn lemma_packed_bound(w: u64)
    requires
        vint_len(w) <= 8,
    ensures
        0 <= w * two_pow(vint_len(w)) + two_pow(vint_len(w) - 1) < pow256(vint_len(w)),
{
    let l = vint_len(w);
    if l == 1 {
        assert(w * 2 + 1 < 0x100);
    } else if l == 2 {
        assert(w * 4 + 2 < 0x1_0000);
    } else if l == 3 {
        assert(w * 8 + 4 < 0x100_0000);
    } else if l == 4 {
        assert(w * 0x10 + 8 < 0x1_0000_0000);
    } else if l == 5 {
        assert(w * 0x20 + 0x10 < 0x100_0000_0000);
    } else if l == 6 {
        assert(w * 0x40 + 0x20 < 0x1_0000_0000_0000);
    } else if l == 7 {
        assert(w * 0x80 + 0x40 < 0x100_0000_0000_0000);
    } else {
        assert(w * 0x100 + 0x80 < 0x1_0000_0000_0000_0000);
    }
}

/// Read one canonically encoded integer from `input` between `pos` and
/// `end`, returning the value and the position just past it.
///
/// The contract pins the result down in both directions: a successful read
/// returns a value whose canonical encoding is exactly the bytes consumed,
/// and whenever a canonical encoding starts at `pos` the read returns that
/// value and no other.
#[verifier::rlimit(80)]
pub fn read_vint(input: &[u8], pos: usize, end: usize) -> (r: Result<(u64, usize), DecodeError>)
    requires
        pos <= end <= input@.len(),
    ensures
        match r {
            Ok(vp) => {
                &&& pos + vint_len(vp.0) == vp.1 <= end
                &&& matches_in(input@, pos as int, end as int, vint_bytes(vp.0))
            },
            Err(e) => e == DecodeError::MalformedElement,
        },
        forall|w: u64| matches_in(input@, pos as int, end as int, vint_bytes(w))
            ==> r == Ok::<(u64, usize), DecodeError>((w, (pos + vint_len(w)) as usize)),
{
    if pos >= end {
        proof {
            assert forall|w: u64| !matches_in(input@, pos as int, end as int, vint_bytes(w)) by {
                lemma_vint_bytes_len(w);
            }
        }
        return Err(DecodeError::MalformedElement);
    }
    let b0 = input[pos];
    let l: usize = if b0 % 2 == 1 {
        1
    } else if b0 % 4 == 2 {
        2
    } else if b0 % 8 == 4 {
        3
    } else if b0 % 0x10 == 8 {
        4
    } else if b0 % 0x20 == 0x10 {
        5
    } else if b0 % 0x40 == 0x20 {
        6
    } else if b0 % 0x80 == 0x40 {
        7
    } else if b0 == 0x80 {
        8
    } else {
        9
    };
    assert(l == first_byte_len(b0));
    // any canonical encoding that starts here must be `l` bytes long
    proof {
        assert forall|w: u64| matches_in(input@, pos as int, end as int, vint_bytes(w))
            implies vint_len(w) == l && vint_bytes(w).len() == l by {
            lemma_vint_first_byte(w);
            assert(vint_bytes(w)[0] == input@.subrange(
                pos as int, pos + vint_bytes(w).len())[0]);
            assert(vint_bytes(w)[0] == b0);
        }
    }
    if end - pos < l {
        return Err(DecodeError::MalformedElement);
    }
    if l == 9 {
        proof {
            assert(b0 == 0) by (bit_vector)
                requires
                    !(b0 % 2 == 1) && !(b0 % 4 == 2) && !(b0 % 8 == 4) && !(b0 % 0x10 == 8)
                        && !(b0 % 0x20 == 0x10) && !(b0 % 0x40 == 0x20) && !(b0 % 0x80 == 0x40)
                        && !(b0 == 0x80),
            ;
        }
        let e = read_le(input, pos + 1, 8);
        let ghost s8 = input@.subrange(pos + 1, pos as int + 9);
        proof {
            lemma_le_bytes_of_value(s8);
            assert forall|w: u64| matches_in(input@, pos as int, end as int, vint_bytes(w))
                implies w == e by {
                lemma_vint_first_byte(w);
                lemma_le_bytes_len(w as int, 8);
                assert(vint_bytes(w) =~= input@.subrange(pos as int, pos as int + 9));
                assert forall|i: int| 0 <= i < 8 implies le_bytes(w as int, 8)[i] == s8[i] by {
                    assert(le_bytes(w as int, 8)[i] == vint_bytes(w)[i + 1]);
                }
                assert(le_bytes(w as int, 8) =~= s8);
                lemma_le_value_of_bytes(w as int, 8);
            }
        }
        if e < 0x100_0000_0000_0000 {
            return Err(DecodeError::MalformedElement);
        }
        proof {
            assert(vint_bytes(e) =~= input@.subrange(pos as int, pos as int + 9));
        }
        return Ok((e, pos + 9));
    }
    // short form: the value and the length marker share one packed integer
    let e = read_le(input, pos, l);
    let (tp, minv) = vint_consts(l);
    let v = e / tp;
    let ghost s = input@.subrange(pos as int, pos as int + l);
    proof {
        lemma_le_bytes_of_value(s);
        assert(s[0] == b0);
        assert(le_value(s) == s[0] + 256 * le_value(s.drop_first()));
        vstd::arithmetic::div_mod::lemma_fundamental_div_mod_converse(
            e as int, 256, le_value(s.drop_first()), b0 as int);
        assert((e as int) % 256 == b0 as int);
        lemma_mod_256_refine(e as int, l as int);
        assert((b0 as int) % two_pow(l as int) == two_pow(l as int - 1));
        assert((e as int) % two_pow(l as int) == two_pow(l as int - 1));
        vstd::arithmetic::div_mod::lemma_fundamental_div_mod(e as int, two_pow(l as int));
        assert(e as int == v * two_pow(l as int) + two_pow(l as int - 1));
        assert(pow256(l as int) == two_pow(l as int) * min_for(l as int + 1));
        assert((v as int) < min_for(l as int + 1)) by {
            vstd::arithmetic::div_mod::lemma_multiply_divide_lt(
                e as int, two_pow(l as int), min_for(l as int + 1));
        }
        // any matching canonical encoding carries exactly the value `v`
        assert forall|w: u64| matches_in(input@, pos as int, end as int, vint_bytes(w))
            implies w == v by {
            lemma_vint_first_byte(w);
            assert(vint_bytes(w) =~= s);
            let ew = w * two_pow(l as int) + two_pow(l as int - 1);
            lemma_packed_bound(w);
            lemma_le_value_of_bytes(ew, l as int);
            assert(le_value(s) == ew);
            vstd::arithmetic::div_mod::lemma_fundamental_div_mod_converse(
                ew, two_pow(l as int), w as int, two_pow(l as int - 1));
        }
    }
    if l > 1 && v < minv {
        // a shorter encoding exists for this value: reject the non-minimal form
        return Err(DecodeError::MalformedElement);
    }
    proof {
        assert(vint_len(v) == l);
        assert(vint_bytes(v) =~= s);
    }
    Ok((v, pos + l))
}

} // verus!
