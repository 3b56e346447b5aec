//! 256-bit integers as byte strings and as 32-bit limbs.
//!
//! Three encodings of a natural number occur: little-endian bytes, big-endian
//! bytes, and little-endian 32-bit limbs (the layout of the compute device).
//! [`le_value`], [`be_value`] and [`limbs_value`] give the number that each of
//! them stands for; every conversion is stated through these.

use vstd::arithmetic::div_mod::*;
use vstd::arithmetic::power2::*;
use vstd::prelude::*;

verus! {

/// The number whose little-endian bytes are `s`.
pub open spec fn le_value(s: Seq<u8>) -> nat
    decreases s.len(),
{
    if s.len() == 0 {
        0
    } else {
        le_value(s.drop_last()) + s.last() as nat * pow2((8 * (s.len() - 1)) as nat)
    }
}

/// The number whose big-endian bytes are `s`.
pub open spec fn be_value(s: Seq<u8>) -> nat
    decreases s.len(),
{
    if s.len() == 0 {
        0
    } else {
        256 * be_value(s.drop_last()) + s.last() as nat
    }
}

/// The number whose little-endian 32-bit limbs are `s`.
pub open spec fn limbs_value(s: Seq<u32>) -> nat
    decreases s.len(),
{
    if s.len() == 0 {
        0
    } else {
        limbs_value(s.drop_last()) + s.last() as nat * pow2((32 * (s.len() - 1)) as nat)
    }
}

// ---------------------------------------------------------------------------
// Concatenation, bounds and uniqueness
// ---------------------------------------------------------------------------

/// Little-endian bytes: the second part counts in units of the first part's range.
pub proof fn lemma_le_concat(a: Seq<u8>, b: Seq<u8>)
    ensures
        le_value(a + b) == le_value(a) + pow2(8 * a.len()) * le_value(b),
    decreases b.len(),
{
    let p = pow2(8 * a.len());
    if b.len() == 0 {
        assert(a + b =~= a);
        assert(p * 0 == 0) by (nonlinear_arith);
    } else {
        let q = pow2((8 * (b.len() - 1)) as nat);
        let d = b.last() as nat;
        lemma_le_concat(a, b.drop_last());
        assert((a + b).drop_last() =~= a + b.drop_last());
        assert(pow2((8 * ((a + b).len() - 1)) as nat) == p * q) by {
            lemma_pow2_adds(8 * a.len(), (8 * (b.len() - 1)) as nat);
        }
        assert(d * (p * q) == p * (d * q)) by (nonlinear_arith);
        assert(p * (le_value(b.drop_last()) + d * q) == p * le_value(b.drop_last()) + p * (d * q))
            by (nonlinear_arith);
    }
}

/// Big-endian bytes: the first part counts in units of the second part's range.
pub proof fn lemma_be_concat(a: Seq<u8>, b: Seq<u8>)
    ensures
        be_value(a + b) == be_value(a) * pow2(8 * b.len()) + be_value(b),
    decreases b.len(),
{
    if b.len() == 0 {
        assert(a + b =~= a);
        lemma2_to64();
        assert(be_value(a) * 1 == be_value(a));
    } else {
        let q = pow2((8 * (b.len() - 1)) as nat);
        let x = be_value(a);
        let y = be_value(b.drop_last());
        lemma_be_concat(a, b.drop_last());
        assert((a + b).drop_last() =~= a + b.drop_last());
        lemma_pow2_adds(8, (8 * (b.len() - 1)) as nat);
        lemma2_to64();
        assert(256 * (x * q + y) == x * (256 * q) + 256 * y) by (nonlinear_arith);
    }
}

/// Little-endian limbs: the second part counts in units of the first part's range.
pub proof fn lemma_limbs_concat(a: Seq<u32>, b: Seq<u32>)
    ensures
        limbs_value(a + b) == limbs_value(a) + pow2(32 * a.len()) * limbs_value(b),
    decreases b.len(),
{
    let p = pow2(32 * a.len());
    if b.len() == 0 {
        assert(a + b =~= a);
        assert(p * 0 == 0) by (nonlinear_arith);
    } else {
        let q = pow2((32 * (b.len() - 1)) as nat);
        let d = b.last() as nat;
        lemma_limbs_concat(a, b.drop_last());
        assert((a + b).drop_last() =~= a + b.drop_last());
        assert(pow2((32 * ((a + b).len() - 1)) as nat) == p * q) by {
            lemma_pow2_adds(32 * a.len(), (32 * (b.len() - 1)) as nat);
        }
        assert(d * (p * q) == p * (d * q)) by (nonlinear_arith);
        assert(p * (limbs_value(b.drop_last()) + d * q) == p * limbs_value(b.drop_last()) + p * (d
            * q)) by (nonlinear_arith);
    }
}

/// `n` bytes hold a number below `2^(8 n)`.
pub proof fn lemma_le_bound(s: Seq<u8>)
    ensures
        le_value(s) < pow2(8 * s.len()),
    decreases s.len(),
{
    lemma2_to64();
    if s.len() > 0 {
        let q = pow2((8 * (s.len() - 1)) as nat);
        let d = s.last() as nat;
        lemma_le_bound(s.drop_last());
        lemma_pow2_adds(8, (8 * (s.len() - 1)) as nat);
        assert(d * q + q <= 256 * q) by (nonlinear_arith)
            requires
                d <= 255,
        ;
    }
}

/// Reading bytes backwards turns one byte order into the other.
pub proof fn lemma_be_is_reversed_le(s: Seq<u8>)
    ensures
        be_value(s) == le_value(s.reverse()),
    decreases s.len(),
{
    if s.len() > 0 {
        let head = seq![s.last()];
        lemma_be_is_reversed_le(s.drop_last());
        assert(s.reverse() =~= head + s.drop_last().reverse());
        lemma_le_concat(head, s.drop_last().reverse());
        lemma_le_single(s.last());
        lemma2_to64();
    }
}

/// One byte stands for itself.
pub proof fn lemma_le_single(b: u8)
    ensures
        le_value(seq![b]) == b,
{
    lemma2_to64();
    let s = seq![b];
    assert(s.drop_last() =~= Seq::<u8>::empty());
    assert(le_value(s.drop_last()) == 0);
    assert(b as nat * pow2(0) == b) by (nonlinear_arith)
        requires
            pow2(0) == 1,
    ;
}

/// `n` big-endian bytes hold a number below `2^(8 n)`.
pub proof fn lemma_be_bound(s: Seq<u8>)
    ensures
        be_value(s) < pow2(8 * s.len()),
{
    lemma_be_is_reversed_le(s);
    lemma_le_bound(s.reverse());
}

/// Equal numbers of equally many little-endian bytes have the same bytes.
pub proof fn lemma_le_unique(a: Seq<u8>, b: Seq<u8>)
    requires
        a.len() == b.len(),
        le_value(a) == le_value(b),
    ensures
        a == b,
    decreases a.len(),
{
    if a.len() > 0 {
        let q = pow2((8 * (a.len() - 1)) as nat);
        lemma_le_bound(a.drop_last());
        lemma_le_bound(b.drop_last());
        lemma_fundamental_div_mod_converse(
            le_value(a) as int,
            q as int,
            a.last() as int,
            le_value(a.drop_last()) as int,
        );
        lemma_fundamental_div_mod_converse(
            le_value(b) as int,
            q as int,
            b.last() as int,
            le_value(b.drop_last()) as int,
        );
        lemma_le_unique(a.drop_last(), b.drop_last());
        assert(a =~= a.drop_last().push(a.last()));
        assert(b =~= b.drop_last().push(b.last()));
    } else {
        assert(a =~= b);
    }
}

/// Equal numbers of equally many big-endian bytes have the same bytes.
pub proof fn lemma_be_unique(a: Seq<u8>, b: Seq<u8>)
    requires
        a.len() == b.len(),
        be_value(a) == be_value(b),
    ensures
        a == b,
{
    lemma_be_is_reversed_le(a);
    lemma_be_is_reversed_le(b);
    lemma_le_unique(a.reverse(), b.reverse());
    assert(a =~= a.reverse().reverse());
    assert(b =~= b.reverse().reverse());
}

// ---------------------------------------------------------------------------
// Conversions
// ---------------------------------------------------------------------------

/// The four bytes of a word, least significant first.
fn word_bytes(v: u32) -> (r: [u8; 4])
    ensures
        le_value(r@) == v,
        be_value(r@.reverse()) == v,
{
    let r: [u8; 4] = [
        (v % 256) as u8,
        (v / 0x100 % 256) as u8,
        (v / 0x1_0000 % 256) as u8,
        (v / 0x100_0000) as u8,
    ];
    proof {
        let s = r@.reverse();
        assert(v == r[0] + 0x100 * r[1] + 0x1_0000 * r[2] + 0x100_0000 * r[3]);
        assert(be_value(s) == v) by {
            reveal_with_fuel(be_value, 5);
            assert(s[0] == r[3] && s[1] == r[2] && s[2] == r[1] && s[3] == r[0]);
        }
        assert(s.reverse() =~= r@);
        lemma_be_is_reversed_le(s);
    }
    r
}

/// Little-endian limbs to big-endian bytes.
pub fn le_limbs_to_be_bytes(limbs: &[u32; 8]) -> (b: [u8; 32])
    ensures
        be_value(b@) == limbs_value(limbs@),
{
    let mut b = [0u8; 32];
    for i in 0..8usize
        invariant
            be_value(b@.take(4 * i)) == limbs_value(limbs@.skip(8 - i)),
    {
        let v = limbs[7 - i];
        let w = word_bytes(v);
        let ghost before = b@;
        b[i * 4] = w[3];
        b[i * 4 + 1] = w[2];
        b[i * 4 + 2] = w[1];
        b[i * 4 + 3] = w[0];
        proof {
            lemma2_to64();
            assert(b@.take(4 * (i + 1)) =~= before.take(4 * i) + w@.reverse());
            lemma_be_concat(before.take(4 * i), w@.reverse());
            assert(w@.reverse().len() == 4);
            assert(limbs@.skip(7 - i) =~= seq![v] + limbs@.skip(8 - i));
            lemma_limbs_concat(seq![v], limbs@.skip(8 - i));
            lemma_limbs_single(v);
            let high = limbs_value(limbs@.skip(8 - i));
            assert(high * pow2(32) == pow2(32) * high) by (nonlinear_arith);
        }
    }
    proof {
        assert(b@.take(32) =~= b@);
        assert(limbs@.skip(0) =~= limbs@);
    }
    b
}

/// Little-endian limbs to little-endian bytes.
pub fn limbs_to_le_bytes(limbs: &[u32; 8]) -> (b: [u8; 32])
    ensures
        le_value(b@) == limbs_value(limbs@),
{
    let mut b = [0u8; 32];
    for i in 0..8usize
        invariant
            le_value(b@.take(4 * i)) == limbs_value(limbs@.take(i as int)),
    {
        let v = limbs[i];
        let w = word_bytes(v);
        let ghost before = b@;
        b[i * 4] = w[0];
        b[i * 4 + 1] = w[1];
        b[i * 4 + 2] = w[2];
        b[i * 4 + 3] = w[3];
        proof {
            assert(b@.take(4 * (i + 1)) =~= before.take(4 * i) + w@);
            lemma_le_concat(before.take(4 * i), w@);
            assert(limbs@.take(i + 1) =~= limbs@.take(i as int) + seq![v]);
            lemma_limbs_concat(limbs@.take(i as int), seq![v]);
            lemma_limbs_single(v);
        }
    }
    proof {
        assert(b@.take(32) =~= b@);
        assert(limbs@.take(8) =~= limbs@);
    }
    b
}

/// One limb stands for itself.
pub proof fn lemma_limbs_single(v: u32)
    ensures
        limbs_value(seq![v]) == v,
{
    lemma2_to64();
    let s = seq![v];
    assert(s.drop_last() =~= Seq::<u32>::empty());
    assert(limbs_value(s.drop_last()) == 0);
    assert(v as nat * pow2(0) == v) by (nonlinear_arith)
        requires
            pow2(0) == 1,
    ;
}

/// Limbs that are all zero stand for zero.
pub proof fn lemma_limbs_zeros(s: Seq<u32>)
    requires
        forall|j: int| 0 <= j < s.len() ==> s[j] == 0,
    ensures
        limbs_value(s) == 0,
    decreases s.len(),
{
    if s.len() > 0 {
        lemma_limbs_zeros(s.drop_last());
        assert(0 * pow2((32 * (s.len() - 1)) as nat) == 0) by (nonlinear_arith);
    }
}

/// `n` limbs hold a number below `2^(32 n)`.
pub proof fn lemma_limbs_bound(s: Seq<u32>)
    ensures
        limbs_value(s) < pow2(32 * s.len()),
    decreases s.len(),
{
    lemma2_to64();
    if s.len() > 0 {
        let q = pow2((32 * (s.len() - 1)) as nat);
        let d = s.last() as nat;
        lemma_limbs_bound(s.drop_last());
        lemma_pow2_adds(32, (32 * (s.len() - 1)) as nat);
        assert(d * q + q <= 0x1_0000_0000 * q) by (nonlinear_arith)
            requires
                d <= 0xffff_ffff,
        ;
    }
}

/// Equal numbers of equally many limbs have the same limbs.
pub proof fn lemma_limbs_unique(a: Seq<u32>, b: Seq<u32>)
    requires
        a.len() == b.len(),
        limbs_value(a) == limbs_value(b),
    ensures
        a == b,
    decreases a.len(),
{
    if a.len() > 0 {
        let q = pow2((32 * (a.len() - 1)) as nat);
        lemma_limbs_bound(a.drop_last());
        lemma_limbs_bound(b.drop_last());
        lemma_fundamental_div_mod_converse(
            limbs_value(a) as int,
            q as int,
            a.last() as int,
            limbs_value(a.drop_last()) as int,
        );
        lemma_fundamental_div_mod_converse(
            limbs_value(b) as int,
            q as int,
            b.last() as int,
            limbs_value(b.drop_last()) as int,
        );
        lemma_limbs_unique(a.drop_last(), b.drop_last());
        assert(a =~= a.drop_last().push(a.last()));
        assert(b =~= b.drop_last().push(b.last()));
    } else {
        assert(a =~= b);
    }
}

/// A number below `2^128` leaves the upper four of eight limbs zero.
pub proof fn lemma_short_limbs(s: Seq<u32>)
    requires
        s.len() == 8,
        limbs_value(s) < pow2(128),
    ensures
        forall|i: int| 4 <= i < 8 ==> s[i] == 0,
{
    let (low, high) = (s.take(4), s.skip(4));
    let zeros = Seq::new(4, |i: int| 0u32);
    assert(s =~= low + high);
    lemma_limbs_concat(low, high);
    lemma_limbs_zeros(zeros);
    let (v, q) = (limbs_value(high), pow2(128));
    assert(v == 0) by (nonlinear_arith)
        requires
            q * v < q,
            v >= 0,
    ;
    lemma_limbs_unique(high, zeros);
    assert forall|i: int| 4 <= i < 8 implies s[i] == 0 by {
        assert(s[i] == high[i - 4]);
    }
}

/// Big-endian bytes to little-endian limbs.
pub fn scalar_be_to_limbs(be: &[u8; 32]) -> (limbs: [u32; 8])
    ensures
        limbs_value(limbs@) == be_value(be@),
{
    let mut limbs = [0u32; 8];
    for i in 0..8usize
        invariant
            limbs_value(limbs@.take(i as int)) == be_value(be@.skip(32 - 4 * i)),
    {
        let at: usize = 28 - 4 * i;
        let v: u32 = be[at] as u32 * 0x100_0000 + be[at + 1] as u32 * 0x1_0000 + be[at + 2] as u32
            * 0x100 + be[at + 3] as u32;
        let ghost before = limbs@;
        limbs[i] = v;
        proof {
            let chunk = be@.subrange(at as int, at + 4);
            assert(be_value(chunk) == v) by {
                reveal_with_fuel(be_value, 5);
            }
            assert(be@.skip(at as int) =~= chunk + be@.skip(at + 4));
            lemma_be_concat(chunk, be@.skip(at + 4));
            assert(limbs@.take(i + 1) =~= before.take(i as int) + seq![v]);
            lemma_limbs_concat(before.take(i as int), seq![v]);
            lemma_limbs_single(v);
            assert(v as nat * pow2((32 * i) as nat) == pow2((32 * i) as nat) * v as nat)
                by (nonlinear_arith);
        }
    }
    proof {
        assert(limbs@.take(8) =~= limbs@);
        assert(be@.skip(0) =~= be@);
    }
    limbs
}

/// A number below `2^128` as 32 big-endian bytes.
pub fn u128_to_be_bytes(v: u128) -> (b: [u8; 32])
    ensures
        be_value(b@) == v,
{
    let mut b = [0u8; 32];
    let mut rest: u128 = v;
    proof {
        lemma2_to64();
        assert(rest * pow2(0) == rest) by (nonlinear_arith)
            requires
                pow2(0) == 1,
        ;
    }
    for i in 0..16usize
        invariant
            v == rest * pow2((8 * i) as nat) + be_value(b@.skip(32 - i)),
            forall|j: int| 0 <= j < 32 - i ==> b@[j] == 0,
    {
        let ghost before = b@;
        let ghost q = pow2((8 * i) as nat);
        let digit = (rest % 256) as u8;
        b[31 - i] = digit;
        proof {
            let tail = before.skip(32 - i);
            assert(b@.skip(31 - i) =~= seq![digit] + tail);
            lemma_be_concat(seq![digit], tail);
            lemma_be_single(digit);
            lemma_pow2_adds(8, (8 * i) as nat);
            lemma2_to64();
            let high = rest / 256;
            assert(rest * q == high * (256 * q) + digit * q) by (nonlinear_arith)
                requires
                    rest == 256 * high + digit,
            ;
        }
        rest = rest / 256;
    }
    proof {
        assert(rest == 0) by {
            lemma2_to64();
            lemma2_to64_rest();
            lemma_pow2_adds(64, 64);
            assert(pow2(128) == 0x1_0000_0000_0000_0000_0000_0000_0000_0000);
            assert(rest * pow2(128) < pow2(128));
            assert(rest == 0) by (nonlinear_arith)
                requires
                    rest * pow2(128) < pow2(128),
                    rest >= 0,
            ;
        }
        lemma_be_zeros(b@.take(16));
        assert(b@ =~= b@.take(16) + b@.skip(16));
        lemma_be_concat(b@.take(16), b@.skip(16));
        assert(0 * pow2(128) == 0);
    }
    b
}

/// One byte stands for itself.
pub proof fn lemma_be_single(b: u8)
    ensures
        be_value(seq![b]) == b,
{
    let s = seq![b];
    assert(s.drop_last() =~= Seq::<u8>::empty());
    assert(be_value(s.drop_last()) == 0);
}

/// Bytes that are all zero stand for zero.
pub proof fn lemma_be_zeros(s: Seq<u8>)
    requires
        forall|j: int| 0 <= j < s.len() ==> s[j] == 0,
    ensures
        be_value(s) == 0,
    decreases s.len(),
{
    if s.len() > 0 {
        lemma_be_zeros(s.drop_last());
    }
}

/// A byte that is not all ones keeps a number off the largest of its size.
pub proof fn lemma_be_not_all_ones(s: Seq<u8>, at: int)
    requires
        0 <= at < s.len(),
        s[at] != 0xff,
    ensures
        be_value(s) + 1 < pow2(8 * s.len()),
    decreases s.len(),
{
    let rest = s.drop_last();
    lemma2_to64();
    lemma_pow2_adds(8, 8 * rest.len());
    lemma_be_bound(rest);
    if at < rest.len() {
        lemma_be_not_all_ones(rest, at);
    }
}

/// The number modulo a power of two is got by reducing the leading byte.
pub proof fn lemma_be_reduce_lead(s: Seq<u8>, r: nat)
    requires
        s.len() > 0,
        r <= 8,
    ensures
        be_value(s.update(0, (s[0] as nat % pow2(r)) as u8)) == be_value(s) % pow2(
            (8 * (s.len() - 1) + r) as nat,
        ),
{
    let tail = s.drop_first();
    let d = s[0] as nat;
    let q = pow2(8 * tail.len());
    let p = pow2(r);
    lemma_pow2_pos(r);
    lemma_pow2_adds(8 * tail.len(), r);
    let (hi, lo) = (d / p, d % p);
    lemma_fundamental_div_mod(d as int, p as int);
    lemma_mod_decreases(d, p);
    let s2 = s.update(0, lo as u8);
    assert(s =~= seq![s[0]] + tail);
    assert(s2 =~= seq![lo as u8] + tail);
    lemma_be_concat(seq![s[0]], tail);
    lemma_be_concat(seq![lo as u8], tail);
    lemma_be_single(s[0]);
    lemma_be_single(lo as u8);
    lemma_be_bound(tail);
    let t = be_value(tail);
    assert(d * q + t == hi * (q * p) + (lo * q + t)) by (nonlinear_arith)
        requires
            d == p * hi + lo,
    ;
    assert(lo * q + t < q * p) by (nonlinear_arith)
        requires
            lo + 1 <= p,
            t < q,
    ;
    lemma_fundamental_div_mod_converse(
        (d * q + t) as int,
        (q * p) as int,
        hi as int,
        (lo * q + t) as int,
    );
}

/// Whether a number is zero.
pub fn is_zero(b: &[u8; 32]) -> (r: bool)
    ensures
        r == (be_value(b@) == 0),
{
    let zeros = [0u8; 32];
    proof {
        lemma_be_zeros(zeros@);
    }
    same_bytes(b, &zeros)
}

/// The bytes in the opposite order.
pub fn reversed(b: &[u8; 32]) -> (r: [u8; 32])
    ensures
        r@ == b@.reverse(),
        be_value(r@) == le_value(b@),
        le_value(r@) == be_value(b@),
{
    let mut r = [0u8; 32];
    for i in 0..32usize
        invariant
            forall|j: int| 0 <= j < i ==> r@[j] == b@[31 - j],
    {
        r[i] = b[31 - i];
    }
    proof {
        assert(r@ =~= b@.reverse());
        assert(r@.reverse() =~= b@);
        lemma_be_is_reversed_le(r@);
        lemma_be_is_reversed_le(b@);
    }
    r
}

/// The most significant eight bytes of a big-endian number.
pub fn top_u64(b: &[u8; 32]) -> (r: u64)
    ensures
        r == be_value(b@) / pow2(192),
{
    let mut r: u64 = 0;
    for i in 0..8usize
        invariant
            r == be_value(b@.take(i as int)),
    {
        proof {
            assert(b@.take(i + 1).drop_last() =~= b@.take(i as int));
            lemma_be_bound(b@.take(i + 1));
            lemma_pow2_at_most_64((8 * (i + 1)) as nat);
        }
        r = r * 256 + b[i] as u64;
    }
    proof {
        assert(b@ =~= b@.take(8) + b@.skip(8));
        lemma_be_concat(b@.take(8), b@.skip(8));
        lemma_be_bound(b@.skip(8));
        lemma_fundamental_div_mod_converse(
            be_value(b@) as int,
            pow2(192) as int,
            r as int,
            be_value(b@.skip(8)) as int,
        );
    }
    r
}

/// Powers of two up to `2^64`.
proof fn lemma_pow2_at_most_64(e: nat)
    requires
        e <= 64,
    ensures
        pow2(e) <= 0x1_0000_0000_0000_0000,
{
    lemma2_to64();
    lemma2_to64_rest();
    if e < 64 {
        lemma_pow2_strictly_increases(e, 64);
    }
}

/// Whether two byte strings are the same.
pub fn same_bytes(a: &[u8; 32], b: &[u8; 32]) -> (r: bool)
    ensures
        r == (be_value(a@) == be_value(b@)),
        r == (a@ == b@),
{
    for i in 0..32usize
        invariant
            forall|j: int| 0 <= j < i ==> a@[j] == b@[j],
    {
        if a[i] != b[i] {
            proof {
                if be_value(a@) == be_value(b@) {
                    lemma_be_unique(a@, b@);
                }
            }
            return false;
        }
    }
    assert(a@ =~= b@);
    true
}

/// `s` is `v` in big-endian bytes with no leading zero byte; zero is one zero byte.
pub open spec fn minimal_be(s: Seq<u8>, v: nat) -> bool {
    &&& be_value(s) == v
    &&& s.len() > 0
    &&& s.len() > 1 ==> s[0] != 0
}

/// A number has one big-endian encoding without leading zeros.
pub proof fn lemma_minimal_be_unique(a: Seq<u8>, b: Seq<u8>, v: nat)
    requires
        minimal_be(a, v),
        minimal_be(b, v),
    ensures
        a == b,
{
    if a.len() < b.len() {
        lemma_be_lower_bound(b);
        lemma_be_bound(a);
        if 8 * a.len() < 8 * (b.len() - 1) {
            lemma_pow2_strictly_increases(8 * a.len(), (8 * (b.len() - 1)) as nat);
        }
    } else if b.len() < a.len() {
        lemma_be_lower_bound(a);
        lemma_be_bound(b);
        if 8 * b.len() < 8 * (a.len() - 1) {
            lemma_pow2_strictly_increases(8 * b.len(), (8 * (a.len() - 1)) as nat);
        }
    }
    lemma_be_unique(a, b);
}

/// A leading byte that is not zero counts at least once.
proof fn lemma_be_lower_bound(s: Seq<u8>)
    requires
        s.len() > 0,
        s[0] != 0,
    ensures
        be_value(s) >= pow2((8 * (s.len() - 1)) as nat),
{
    let tail = s.drop_first();
    let q = pow2(8 * tail.len());
    assert(s =~= seq![s[0]] + tail);
    lemma_be_concat(seq![s[0]], tail);
    lemma_be_single(s[0]);
    let d = s[0] as nat;
    assert(d * q >= q) by (nonlinear_arith)
        requires
            d >= 1,
    ;
}

/// Drops leading zero bytes, but keeps the last byte.
pub fn strip_leading_zeros(b: &[u8; 32]) -> (r: Vec<u8>)
    ensures
        minimal_be(r@, be_value(b@)),
{
    let mut first: usize = 0;
    while first < 31 && b[first] == 0
        invariant
            first <= 31,
            forall|j: int| 0 <= j < first ==> b@[j] == 0,
        decreases 31 - first,
    {
        first = first + 1;
    }
    let mut r: Vec<u8> = Vec::new();
    for i in first..32usize
        invariant
            first <= 31,
            r@ == b@.subrange(first as int, i as int),
    {
        r.push(b[i]);
        assert(b@.subrange(first as int, i + 1) =~= b@.subrange(first as int, i as int).push(
            b@[i as int],
        ));
    }
    proof {
        assert(b@ =~= b@.take(first as int) + r@);
        lemma_be_concat(b@.take(first as int), r@);
        lemma_be_zeros(b@.take(first as int));
        assert(0 * pow2(8 * r@.len()) == 0);
    }
    r
}

// ---------------------------------------------------------------------------
// Arithmetic modulo 2^256
// ---------------------------------------------------------------------------

/// Addition of little-endian 256-bit integers, modulo `2^256`.
pub fn add_le(a: &[u8; 32], b: &[u8; 32], out: &mut [u8; 32])
    ensures
        le_value(final(out)@) == (le_value(a@) + le_value(b@)) % pow2(256),
{
    let mut carry: u16 = 0;
    for i in 0..32usize
        invariant
            carry <= 1,
            le_value(a@.take(i as int)) + le_value(b@.take(i as int)) == le_value(
                out@.take(i as int),
            ) + carry * pow2((8 * i) as nat),
    {
        let s: u16 = a[i] as u16 + b[i] as u16 + carry;
        let ghost before = out@;
        let ghost c0 = carry;
        out[i] = (s % 256) as u8;
        carry = s / 256;
        proof {
            let q = pow2((8 * i) as nat);
            assert(a@.take(i + 1).drop_last() =~= a@.take(i as int));
            assert(b@.take(i + 1).drop_last() =~= b@.take(i as int));
            assert(out@.take(i + 1).drop_last() =~= before.take(i as int));
            lemma_pow2_adds(8, (8 * i) as nat);
            lemma2_to64();
            let (x, y, d, c1) = (a@[i as int] as int, b@[i as int] as int, out@[i as int] as int, carry as int);
            assert(x * q + y * q + c0 * q == d * q + c1 * (256 * q)) by (nonlinear_arith)
                requires
                    x + y + c0 == d + 256 * c1,
            ;
        }
    }
    proof {
        assert(a@.take(32) =~= a@);
        assert(b@.take(32) =~= b@);
        assert(out@.take(32) =~= out@);
        lemma_le_bound(out@);
        lemma_fundamental_div_mod_converse(
            (le_value(a@) + le_value(b@)) as int,
            pow2(256) as int,
            carry as int,
            le_value(out@) as int,
        );
    }
}

/// Subtraction of little-endian 256-bit integers, modulo `2^256`.
pub fn sub_le(a: &[u8; 32], b: &[u8; 32], out: &mut [u8; 32])
    ensures
        le_value(final(out)@) == (le_value(a@) - le_value(b@)) % (pow2(256) as int),
{
    let mut borrow: i16 = 0;
    for i in 0..32usize
        invariant
            0 <= borrow <= 1,
            le_value(a@.take(i as int)) - le_value(b@.take(i as int)) == le_value(
                out@.take(i as int),
            ) - borrow * pow2((8 * i) as nat),
    {
        let d: i16 = a[i] as i16 - b[i] as i16 - borrow;
        let ghost before = out@;
        let ghost b0 = borrow;
        out[i] = (if d < 0 { d + 256 } else { d }) as u8;
        borrow = if d < 0 { 1 } else { 0 };
        proof {
            let q = pow2((8 * i) as nat);
            assert(a@.take(i + 1).drop_last() =~= a@.take(i as int));
            assert(b@.take(i + 1).drop_last() =~= b@.take(i as int));
            assert(out@.take(i + 1).drop_last() =~= before.take(i as int));
            lemma_pow2_adds(8, (8 * i) as nat);
            lemma2_to64();
            let (x, y, e, b1) = (a@[i as int] as int, b@[i as int] as int, out@[i as int] as int, borrow as int);
            assert(x * q - y * q - b0 * q == e * q - b1 * (256 * q)) by (nonlinear_arith)
                requires
                    x - y - b0 == e - 256 * b1,
            ;
        }
    }
    proof {
        assert(a@.take(32) =~= a@);
        assert(b@.take(32) =~= b@);
        assert(out@.take(32) =~= out@);
        lemma_le_bound(out@);
        assert(-borrow * pow2(256) + le_value(out@) == le_value(a@) - le_value(b@)) by {
            assert(-borrow * pow2(256) == -(borrow * pow2(256))) by (nonlinear_arith);
        }
        lemma_fundamental_div_mod_converse(
            le_value(a@) - le_value(b@),
            pow2(256) as int,
            -borrow as int,
            le_value(out@) as int,
        );
    }
}

/// Subtracting what was added gives the first summand back.
pub proof fn lemma_sub_undoes_add(a: Seq<u8>, b: Seq<u8>, sum: Seq<u8>, back: Seq<u8>)
    requires
        a.len() == 32,
        back.len() == 32,
        le_value(sum) == (le_value(a) + le_value(b)) % pow2(256),
        le_value(back) == (le_value(sum) - le_value(b)) % (pow2(256) as int),
    ensures
        back == a,
{
    let m = pow2(256) as int;
    let (x, y) = (le_value(a) as int, le_value(b) as int);
    lemma_pow2_pos(256);
    lemma_sub_mod_noop((x + y) % m, y, m);
    lemma_sub_mod_noop(x + y, y, m);
    lemma_mod_twice(x + y, m);
    assert((x + y) - y == x);
    lemma_le_bound(a);
    lemma_small_mod(x as nat, m as nat);
    lemma_le_unique(back, a);
}

} // verus!
