//! Positional codecs for the persistence layer: a number's digits in a fixed
//! base, their round-trip proofs, and the two concrete renderings the store
//! uses (32 lowercase hex characters, and 16 big-endian raw bytes).

use vstd::prelude::*;

use vstd::arithmetic::div_mod::{
    lemma_breakdown, lemma_fundamental_div_mod_converse, lemma_small_mod,
};
use vstd::arithmetic::mul::lemma_mul_inequality;
use vstd::arithmetic::power::{lemma_pow_increases, lemma_pow_multiplies, lemma_pow_positive, pow};
use vstd::arithmetic::power2::{lemma2_to64, lemma_pow2, lemma_pow2_adds, pow2};

verus! {

/// The `n` digits of `x` in base `b`, least significant first.
pub open spec fn le_digits(x: int, b: int, n: nat) -> Seq<int>
    decreases n,
{
    if n == 0 {
        Seq::empty()
    } else {
        seq![x % b] + le_digits(x / b, b, (n - 1) as nat)
    }
}

/// The `n` digits of `x` in base `b`, most significant first.
pub open spec fn be_digits(x: int, b: int, n: nat) -> Seq<int> {
    le_digits(x, b, n).reverse()
}

/// The value of a big-endian digit string in base `b`.
pub open spec fn from_be_digits(s: Seq<int>, b: int) -> int
    decreases s.len(),
{
    if s.len() == 0 {
        0
    } else {
        from_be_digits(s.drop_last(), b) * b + s.last()
    }
}

/// All entries are digits of base `b`.
pub open spec fn all_digits(s: Seq<int>, b: int) -> bool {
    forall|i: int| 0 <= i < s.len() ==> 0 <= #[trigger] s[i] < b
}

pub proof fn lemma_le_digits_range(x: int, b: int, n: nat)
    requires
        0 <= x,
        2 <= b,
    ensures
        all_digits(le_digits(x, b, n), b),
        le_digits(x, b, n).len() == n,
    decreases n,
{
    if n > 0 {
        lemma_le_digits_range(x / b, b, (n - 1) as nat);
        let s = le_digits(x, b, n);
        assert forall|i: int| 0 <= i < s.len() implies 0 <= #[trigger] s[i] < b by {
            if i > 0 {
                assert(s[i] == le_digits(x / b, b, (n - 1) as nat)[i - 1]);
            }
        }
    }
}

/// Reading the digits of `x` back recovers `x` modulo `b` to the `n`.
pub proof fn lemma_digits_round_trip(x: int, b: int, n: nat)
    requires
        0 <= x,
        2 <= b,
    ensures
        from_be_digits(be_digits(x, b, n), b) == x % pow(b, n),
    decreases n,
{
    reveal(pow);
    if n == 0 {
        assert(be_digits(x, b, 0) =~= Seq::<int>::empty());
        assert(pow(b, 0) == 1);
        assert(x % 1 == 0) by {
            lemma_small_mod(0, 1);
            assert(x % 1 == (x * 1) % 1);
            vstd::arithmetic::div_mod::lemma_mod_multiples_basic(x, 1);
        }
    } else {
        let t = le_digits(x / b, b, (n - 1) as nat);
        assert(le_digits(x, b, n) == seq![x % b] + t);
        let r = le_digits(x, b, n).reverse();
        assert(r =~= t.reverse().push(x % b));
        assert(r.drop_last() =~= t.reverse());
        assert(r.last() == x % b);
        assert(from_be_digits(r, b) == from_be_digits(t.reverse(), b) * b + x % b);
        lemma_digits_round_trip(x / b, b, (n - 1) as nat);
        lemma_pow_positive(b, (n - 1) as nat);
        lemma_breakdown(x, b, pow(b, (n - 1) as nat));
        assert(pow(b, n) == b * pow(b, (n - 1) as nat));
        assert(x % (b * pow(b, (n - 1) as nat)) == b * ((x / b) % pow(b, (n - 1) as nat)) + x % b);
        assert(from_be_digits(t.reverse(), b) * b == b * ((x / b) % pow(b, (n - 1) as nat))) by {
            assert(from_be_digits(t.reverse(), b) == (x / b) % pow(b, (n - 1) as nat));
            vstd::arithmetic::mul::lemma_mul_is_commutative(
                from_be_digits(t.reverse(), b),
                b,
            );
        }
    }
}

/// The value of a digit string is non-negative and below `b` to its length.
pub proof fn lemma_from_be_digits_bounds(s: Seq<int>, b: int)
    requires
        2 <= b,
        all_digits(s, b),
    ensures
        0 <= from_be_digits(s, b) < pow(b, s.len() as nat),
    decreases s.len(),
{
    reveal(pow);
    if s.len() == 0 {
        assert(pow(b, 0) == 1);
    } else {
        let d = s.drop_last();
        assert(all_digits(d, b)) by {
            assert(forall|i: int| 0 <= i < d.len() ==> d[i] == s[i]);
        }
        lemma_from_be_digits_bounds(d, b);
        let q = from_be_digits(d, b);
        let p = pow(b, (s.len() - 1) as nat);
        assert(pow(b, s.len() as nat) == b * p);
        assert(q * b >= 0) by {
            lemma_mul_inequality(0, q, b);
        }
        assert(q * b <= (p - 1) * b) by {
            lemma_mul_inequality(q, p - 1, b);
        }
        assert((p - 1) * b == p * b - b) by {
            vstd::arithmetic::mul::lemma_mul_is_distributive_sub_other_way(b, p, 1);
        }
        assert(p * b == b * p) by {
            vstd::arithmetic::mul::lemma_mul_is_commutative(p, b);
        }
    }
}

/// A digit string of digits of base `b` is the digit string of its own value:
/// the representation is canonical.
pub proof fn lemma_digits_canonical(s: Seq<int>, b: int)
    requires
        2 <= b,
        all_digits(s, b),
    ensures
        be_digits(from_be_digits(s, b), b, s.len() as nat) == s,
    decreases s.len(),
{
    reveal(pow);
    if s.len() == 0 {
        assert(be_digits(0, b, 0) =~= Seq::<int>::empty());
        assert(s =~= Seq::<int>::empty());
    } else {
        let d = s.drop_last();
        let r = s.last();
        assert(all_digits(d, b)) by {
            assert(forall|i: int| 0 <= i < d.len() ==> d[i] == s[i]);
        }
        lemma_from_be_digits_bounds(d, b);
        let q = from_be_digits(d, b);
        let v = from_be_digits(s, b);
        assert(v == q * b + r);
        lemma_fundamental_div_mod_converse(v, b, q, r);
        lemma_digits_canonical(d, b);
        let t = le_digits(v, b, s.len() as nat);
        assert(t == seq![v % b] + le_digits(v / b, b, (s.len() - 1) as nat));
        assert(t.reverse() =~= le_digits(v / b, b, (s.len() - 1) as nat).reverse().push(v % b));
        assert(le_digits(q, b, d.len() as nat).reverse() == d);
        assert(t.reverse() =~= d.push(r));
        assert(d.push(r) =~= s);
    }
}

/// Sixteen to the thirty-second power is one more than the largest `u128`.
pub proof fn lemma_pow16_32()
    ensures
        pow(16, 32) == 0x100000000000000000000000000000000,
{
    lemma2_to64();
    lemma_pow2_adds(64, 64);
    lemma_pow2(128);
    lemma_pow2(4);
    lemma_pow_multiplies(2, 4, 32);
    assert(pow(2, 4) == pow2(4));
    assert(pow(pow(2, 4), 32) == pow(2, 128));
    assert(pow(2, 128) == pow2(128));
}

/// 256 to the sixteenth power is one more than the largest `u128`.
pub proof fn lemma_pow256_16()
    ensures
        pow(256, 16) == 0x100000000000000000000000000000000,
{
    lemma2_to64();
    lemma_pow2_adds(64, 64);
    lemma_pow2(128);
    lemma_pow2(8);
    lemma_pow_multiplies(2, 8, 16);
    assert(pow(2, 8) == pow2(8));
    assert(pow(pow(2, 8), 16) == pow(2, 128));
    assert(pow(2, 128) == pow2(128));
}

/// The ASCII character of one hex digit, lowercase.
pub open spec fn hex_char(d: int) -> u8 {
    if d < 10 {
        (48 + d) as u8
    } else {
        (87 + d) as u8
    }
}

/// An ASCII character that the parser accepts: `0..9` or lowercase `a..f`.
pub open spec fn is_hex_char(c: u8) -> bool {
    (48 <= c <= 57) || (97 <= c <= 102)
}

/// The digit value of an accepted character.
pub open spec fn hex_val(c: u8) -> int {
    if c <= 57 {
        c - 48
    } else {
        c - 87
    }
}

pub open spec fn all_hex(s: Seq<u8>) -> bool {
    forall|i: int| 0 <= i < s.len() ==> is_hex_char(#[trigger] s[i])
}

/// `x` written as exactly 32 lowercase hex characters, most significant
/// first.
pub open spec fn hex32(x: int) -> Seq<u8> {
    be_digits(x, 16, 32).map(|i: int, d: int| hex_char(d))
}

/// The value of a hex character string.
pub open spec fn hex_parse(s: Seq<u8>) -> int {
    from_be_digits(s.map(|i: int, c: u8| hex_val(c)), 16)
}

pub proof fn lemma_hex_char_val(d: int)
    requires
        0 <= d < 16,
    ensures
        is_hex_char(hex_char(d)),
        hex_val(hex_char(d)) == d,
{
}

/// Rendering a `u128` as 32 hex characters and parsing them back recovers
/// it, and every character rendered is an accepted hex character.
pub proof fn lemma_hex32_round_trip(x: u128)
    ensures
        hex32(x as int).len() == 32,
        all_hex(hex32(x as int)),
        hex_parse(hex32(x as int)) == x as int,
{
    lemma_le_digits_range(x as int, 16, 32);
    let ds = be_digits(x as int, 16, 32);
    assert(all_digits(ds, 16)) by {
        assert(forall|i: int|
            0 <= i < 32 ==> ds[i] == le_digits(x as int, 16, 32)[31 - i]);
    }
    let h = hex32(x as int);
    assert forall|i: int| 0 <= i < h.len() implies is_hex_char(#[trigger] h[i]) by {
        assert(h[i] == hex_char(ds[i]));
        lemma_hex_char_val(ds[i]);
    }
    assert(h.map(|i: int, c: u8| hex_val(c)) =~= ds) by {
        assert forall|i: int| 0 <= i < 32 implies h.map(|i: int, c: u8| hex_val(c))[i] == ds[i] by {
            assert(h[i] == hex_char(ds[i]));
            lemma_hex_char_val(ds[i]);
        }
    }
    lemma_digits_round_trip(x as int, 16, 32);
    lemma_pow16_32();
    lemma_small_mod(x as nat, pow(16, 32) as nat);
}

/// Any 32 accepted hex characters are the rendering of their own value,
/// which fits a `u128`: the rendering is canonical.
pub proof fn lemma_hex32_canonical(s: Seq<u8>)
    requires
        s.len() == 32,
        all_hex(s),
    ensures
        0 <= hex_parse(s) <= u128::MAX,
        hex32(hex_parse(s)) == s,
{
    let ds = s.map(|i: int, c: u8| hex_val(c));
    assert(all_digits(ds, 16)) by {
        assert forall|i: int| 0 <= i < ds.len() implies 0 <= #[trigger] ds[i] < 16 by {
            assert(ds[i] == hex_val(s[i]));
            assert(is_hex_char(s[i]));
        }
    }
    lemma_from_be_digits_bounds(ds, 16);
    lemma_pow16_32();
    lemma_digits_canonical(ds, 16);
    assert(hex32(hex_parse(s)) =~= s) by {
        assert forall|i: int| 0 <= i < 32 implies hex32(hex_parse(s))[i] == s[i] by {
            assert(hex32(hex_parse(s))[i] == hex_char(ds[i]));
            assert(ds[i] == hex_val(s[i]));
            assert(is_hex_char(s[i]));
        }
    }
}

/// Two values with the same hex rendering are equal.
pub proof fn lemma_hex32_inj(a: int, b: int)
    requires
        0 <= a <= u128::MAX,
        0 <= b <= u128::MAX,
        hex32(a) == hex32(b),
    ensures
        a == b,
{
    lemma_hex32_round_trip(a as u128);
    lemma_hex32_round_trip(b as u128);
}

/// `x` written as exactly 16 big-endian raw bytes.
pub open spec fn be_bytes16(x: int) -> Seq<u8> {
    be_digits(x, 256, 16).map(|i: int, d: int| d as u8)
}

/// The value of a big-endian byte string.
pub open spec fn bytes_parse(s: Seq<u8>) -> int {
    from_be_digits(s.map(|i: int, c: u8| c as int), 256)
}

/// Rendering a `u128` as 16 big-endian bytes and reading them back recovers
/// it.
pub proof fn lemma_be_bytes16_round_trip(x: u128)
    ensures
        be_bytes16(x as int).len() == 16,
        bytes_parse(be_bytes16(x as int)) == x as int,
{
    lemma_le_digits_range(x as int, 256, 16);
    let ds = be_digits(x as int, 256, 16);
    assert(all_digits(ds, 256)) by {
        assert(forall|i: int|
            0 <= i < 16 ==> ds[i] == le_digits(x as int, 256, 16)[15 - i]);
    }
    let h = be_bytes16(x as int);
    assert(h.map(|i: int, c: u8| c as int) =~= ds) by {
        assert forall|i: int| 0 <= i < 16 implies h.map(|i: int, c: u8| c as int)[i] == ds[i] by {
            assert(h[i] == (ds[i]) as u8);
        }
    }
    lemma_digits_round_trip(x as int, 256, 16);
    lemma_pow256_16();
    lemma_small_mod(x as nat, pow(256, 16) as nat);
}

/// Any 16 bytes are the rendering of their own value, which fits a `u128`.
pub proof fn lemma_be_bytes16_canonical(s: Seq<u8>)
    requires
        s.len() == 16,
    ensures
        0 <= bytes_parse(s) <= u128::MAX,
        be_bytes16(bytes_parse(s)) == s,
{
    let ds = s.map(|i: int, c: u8| c as int);
    assert(all_digits(ds, 256));
    lemma_from_be_digits_bounds(ds, 256);
    lemma_pow256_16();
    lemma_digits_canonical(ds, 256);
    assert(be_bytes16(bytes_parse(s)) =~= s) by {
        assert forall|i: int| 0 <= i < 16 implies be_bytes16(bytes_parse(s))[i] == s[i] by {
            assert(be_bytes16(bytes_parse(s))[i] == (ds[i]) as u8);
        }
    }
}

/// Append the 32-hex-character rendering of `x`.
pub fn push_hex32(out: &mut Vec<u8>, x: u128)
    ensures
        final(out)@ == old(out)@ + hex32(x as int),
{
    let ghost le = le_digits(x as int, 16, 32);
    proof {
        lemma_le_digits_range(x as int, 16, 32);
        assert(le.skip(0) =~= le);
    }
    let mut tmp: Vec<u8> = Vec::new();
    let mut v: u128 = x;
    let mut i: usize = 0;
    while i < 32
        invariant
            le == le_digits(x as int, 16, 32),
            le.len() == 32,
            all_digits(le, 16),
            i <= 32,
            tmp@.len() == i,
            forall|k: int| 0 <= k < i ==> tmp@[k] == hex_char(le[k]),
            0 <= v as int,
            le_digits(v as int, 16, (32 - i) as nat) == le.skip(i as int),
        decreases 32 - i,
    {
        proof {
            assert(le_digits(v as int, 16, (32 - i) as nat) == seq![(v as int) % 16] + le_digits(
                v as int / 16,
                16,
                (31 - i) as nat,
            ));
            assert(le.skip(i as int)[0] == le[i as int]);
            assert(le[i as int] == (v as int) % 16);
            assert((seq![(v as int) % 16] + le_digits(v as int / 16, 16, (31 - i) as nat)).skip(1)
                =~= le_digits(v as int / 16, 16, (31 - i) as nat));
            assert(le.skip(i as int).skip(1) =~= le.skip(i as int + 1));
        }
        let d = (v % 16) as u8;
        let ch = if d < 10 {
            48 + d
        } else {
            87 + d
        };
        proof {
            assert(ch == hex_char(le[i as int]));
        }
        tmp.push(ch);
        v = v / 16;
        i = i + 1;
    }
    let ghost out0 = out@;
    let mut j: usize = 0;
    while j < 32
        invariant
            le == le_digits(x as int, 16, 32),
            le.len() == 32,
            tmp@.len() == 32,
            forall|k: int| 0 <= k < 32 ==> tmp@[k] == hex_char(le[k]),
            j <= 32,
            out@.len() == out0.len() + j,
            forall|k: int| 0 <= k < out0.len() ==> out@[k] == out0[k],
            forall|k: int| 0 <= k < j ==> out@[out0.len() + k] == hex_char(#[trigger] le[31 - k]),
        decreases 32 - j,
    {
        let c = tmp[31 - j];
        out.push(c);
        j = j + 1;
    }
    proof {
        assert(out@ =~= out0 + hex32(x as int)) by {
            assert forall|k: int| 0 <= k < 32 implies hex32(x as int)[k] == hex_char(
                le[31 - k],
            ) by {
                assert(hex32(x as int)[k] == hex_char(be_digits(x as int, 16, 32)[k]));
                assert(be_digits(x as int, 16, 32)[k] == le[31 - k]);
            }
        }
    }
}

/// Parse 32 characters as lowercase hex, or report that some character is
/// not an accepted hex character.
pub fn parse_hex32(bytes: &Vec<u8>, off: usize) -> (r: Option<u128>)
    requires
        off + 32 <= bytes@.len(),
    ensures
        ({
            let sub = bytes@.subrange(off as int, off as int + 32);
            match r {
                Some(v) => sub == hex32(v as int),
                None => !all_hex(sub),
            }
        }),
{
    let ghost sub = bytes@.subrange(off as int, off as int + 32);
    let ghost vals = sub.map(|i: int, c: u8| hex_val(c));
    proof {
        reveal(pow);
        lemma_pow16_32();
        assert(vals.take(0) =~= Seq::<int>::empty());
    }
    let blen = bytes.len();
    let mut acc: u128 = 0;
    let mut j: usize = 0;
    while j < 32
        invariant
            blen == bytes@.len(),
            off + 32 <= blen,
            off + 32 <= bytes@.len(),
            sub == bytes@.subrange(off as int, off as int + 32),
            vals == sub.map(|i: int, c: u8| hex_val(c)),
            pow(16, 32) == 0x100000000000000000000000000000000,
            j <= 32,
            forall|k: int| 0 <= k < j ==> is_hex_char(#[trigger] sub[k]),
            acc as int == from_be_digits(vals.take(j as int), 16),
            (acc as int) < pow(16, j as nat),
        decreases 32 - j,
    {
        let ch = bytes[off + j];
        proof {
            assert(sub[j as int] == ch);
        }
        if !((48 <= ch && ch <= 57) || (97 <= ch && ch <= 102)) {
            proof {
                assert(!is_hex_char(sub[j as int]));
            }
            return None;
        }
        let d: u128 = if ch <= 57 {
            (ch - 48) as u128
        } else {
            (ch - 87) as u128
        };
        proof {
            reveal(pow);
            assert(d as int == hex_val(ch));
            assert(d < 16);
            lemma_pow_increases(16, (j + 1) as nat, 32);
            assert(pow(16, (j + 1) as nat) == 16 * pow(16, j as nat));
            assert(acc as int * 16 <= (pow(16, j as nat) - 1) * 16) by {
                lemma_mul_inequality(acc as int, pow(16, j as nat) - 1, 16);
            }
            assert((pow(16, j as nat) - 1) * 16 == 16 * pow(16, j as nat) - 16) by {
                vstd::arithmetic::mul::lemma_mul_is_commutative(pow(16, j as nat) - 1, 16);
                vstd::arithmetic::mul::lemma_mul_is_distributive_sub(16, pow(16, j as nat), 1);
            }
            assert(vals.take(j as int + 1).drop_last() =~= vals.take(j as int));
            assert(vals.take(j as int + 1).last() == hex_val(ch));
        }
        acc = acc * 16 + d;
        j = j + 1;
    }
    proof {
        assert(vals.take(32) =~= vals);
        assert(acc as int == hex_parse(sub));
        lemma_hex32_canonical(sub);
    }
    Some(acc)
}

/// Render a `u128` as 16 big-endian raw bytes.
pub fn u128_to_be_bytes(x: u128) -> (r: Vec<u8>)
    ensures
        r@ == be_bytes16(x as int),
{
    let ghost le = le_digits(x as int, 256, 16);
    proof {
        lemma_le_digits_range(x as int, 256, 16);
        assert(le.skip(0) =~= le);
    }
    let mut tmp: Vec<u8> = Vec::new();
    let mut v: u128 = x;
    let mut i: usize = 0;
    while i < 16
        invariant
            le == le_digits(x as int, 256, 16),
            le.len() == 16,
            all_digits(le, 256),
            i <= 16,
            tmp@.len() == i,
            forall|k: int| 0 <= k < i ==> tmp@[k] as int == le[k],
            0 <= v as int,
            le_digits(v as int, 256, (16 - i) as nat) == le.skip(i as int),
        decreases 16 - i,
    {
        proof {
            assert(le_digits(v as int, 256, (16 - i) as nat) == seq![(v as int) % 256]
                + le_digits(v as int / 256, 256, (15 - i) as nat));
            assert(le.skip(i as int)[0] == le[i as int]);
            assert(le[i as int] == (v as int) % 256);
            assert((seq![(v as int) % 256] + le_digits(v as int / 256, 256, (15 - i) as nat)).skip(
                1,
            ) =~= le_digits(v as int / 256, 256, (15 - i) as nat));
            assert(le.skip(i as int).skip(1) =~= le.skip(i as int + 1));
        }
        let d = (v % 256) as u8;
        tmp.push(d);
        v = v / 256;
        i = i + 1;
    }
    let mut r: Vec<u8> = Vec::new();
    let mut j: usize = 0;
    while j < 16
        invariant
            le == le_digits(x as int, 256, 16),
            le.len() == 16,
            tmp@.len() == 16,
            forall|k: int| 0 <= k < 16 ==> tmp@[k] as int == le[k],
            j <= 16,
            r@.len() == j,
            forall|k: int| 0 <= k < j ==> r@[k] as int == le[15 - k],
        decreases 16 - j,
    {
        let c = tmp[15 - j];
        r.push(c);
        j = j + 1;
    }
    proof {
        assert(r@ =~= be_bytes16(x as int)) by {
            assert forall|k: int| 0 <= k < 16 implies be_bytes16(x as int)[k] as int == le[15
                - k] by {
                assert(be_bytes16(x as int)[k] == (be_digits(x as int, 256, 16)[k]) as u8);
                assert(be_digits(x as int, 256, 16)[k] == le[15 - k]);
            }
        }
    }
    r
}

/// Read a `u128` from 16 big-endian raw bytes.
pub fn u128_from_be_bytes(bytes: &Vec<u8>) -> (r: u128)
    requires
        bytes@.len() == 16,
    ensures
        bytes@ == be_bytes16(r as int),
{
    let ghost vals = bytes@.map(|i: int, c: u8| c as int);
    proof {
        reveal(pow);
        lemma_pow256_16();
        assert(vals.take(0) =~= Seq::<int>::empty());
    }
    let mut acc: u128 = 0;
    let mut j: usize = 0;
    while j < 16
        invariant
            bytes@.len() == 16,
            vals == bytes@.map(|i: int, c: u8| c as int),
            pow(256, 16) == 0x100000000000000000000000000000000,
            j <= 16,
            acc as int == from_be_digits(vals.take(j as int), 256),
            (acc as int) < pow(256, j as nat),
        decreases 16 - j,
    {
        let b = bytes[j];
        proof {
            reveal(pow);
            lemma_pow_increases(256, (j + 1) as nat, 16);
            assert(pow(256, (j + 1) as nat) == 256 * pow(256, j as nat));
            assert(acc as int * 256 <= (pow(256, j as nat) - 1) * 256) by {
                lemma_mul_inequality(acc as int, pow(256, j as nat) - 1, 256);
            }
            assert((pow(256, j as nat) - 1) * 256 == 256 * pow(256, j as nat) - 256) by {
                vstd::arithmetic::mul::lemma_mul_is_commutative(pow(256, j as nat) - 1, 256);
                vstd::arithmetic::mul::lemma_mul_is_distributive_sub(256, pow(256, j as nat), 1);
            }
            assert(vals.take(j as int + 1).drop_last() =~= vals.take(j as int));
            assert(vals.take(j as int + 1).last() == b as int);
        }
        acc = acc * 256 + (b as u128);
        j = j + 1;
    }
    proof {
        assert(vals.take(16) =~= vals);
        assert(acc as int == bytes_parse(bytes@));
        lemma_be_bytes16_canonical(bytes@);
    }
    acc
}

} // verus!
