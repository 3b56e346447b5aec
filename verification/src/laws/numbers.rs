//! Numbers as bytes and limbs, and the group that multipliers live in.

use crate::bytes;
use crate::curve;
use crate::gpu::{GpuAffinePoint, GpuConfig, GpuDistinguishedPoint, GpuKangaroo};
use vstd::arithmetic::div_mod::*;
use vstd::arithmetic::power2::*;
use vstd::prelude::*;

verus! {

/// Byte `i` of a little-endian number is its digit `i` to base 256, and there are
/// no further digits.
pub proof fn lemma_le_digits(s: Seq<u8>, i: int)
    requires
        0 <= i < s.len(),
    ensures
        (bytes::le_value(s) / pow2((8 * i) as nat)) % 256 == s[i],
        bytes::le_value(s) < pow2(8 * s.len()),
{
    let (a, b, c) = (s.take(i), seq![s[i]], s.skip(i + 1));
    let q = pow2((8 * i) as nat) as int;
    let rest = b + c;
    bytes::lemma_le_bound(s);
    bytes::lemma_le_bound(a);
    assert(s =~= a + rest);
    bytes::lemma_le_concat(a, rest);
    bytes::lemma_le_concat(b, c);
    bytes::lemma_le_single(s[i]);
    lemma2_to64();
    let high = bytes::le_value(c) as int;
    let digits = s[i] as int + 256 * high;
    assert(bytes::le_value(rest) == digits);
    assert(q * digits == digits * q) by (nonlinear_arith);
    lemma_fundamental_div_mod_converse(
        bytes::le_value(s) as int,
        q,
        digits,
        bytes::le_value(a) as int,
    );
    lemma_fundamental_div_mod_converse(digits, 256, high, s[i] as int);
}

/// Byte `i` of a big-endian number is its digit to base 256, counted from the
/// other end.
pub proof fn lemma_be_digits(s: Seq<u8>, i: int)
    requires
        0 <= i < s.len(),
    ensures
        (bytes::be_value(s) / pow2((8 * (s.len() - 1 - i)) as nat)) % 256 == s[i],
        bytes::be_value(s) < pow2(8 * s.len()),
{
    bytes::lemma_be_is_reversed_le(s);
    lemma_le_digits(s.reverse(), s.len() - 1 - i);
}

/// Limb `i` of a number is its digit `i` to base `2^32`, and there are no further
/// digits.
pub proof fn lemma_limbs_digits(s: Seq<u32>, i: int)
    requires
        0 <= i < s.len(),
    ensures
        (bytes::limbs_value(s) / pow2((32 * i) as nat)) % 0x1_0000_0000 == s[i],
        bytes::limbs_value(s) < pow2(32 * s.len()),
{
    let (a, b, c) = (s.take(i), seq![s[i]], s.skip(i + 1));
    let q = pow2((32 * i) as nat) as int;
    let rest = b + c;
    bytes::lemma_limbs_bound(s);
    bytes::lemma_limbs_bound(a);
    assert(s =~= a + rest);
    bytes::lemma_limbs_concat(a, rest);
    bytes::lemma_limbs_concat(b, c);
    bytes::lemma_limbs_single(s[i]);
    lemma2_to64();
    let high = bytes::limbs_value(c) as int;
    let digits = s[i] as int + 0x1_0000_0000 * high;
    assert(bytes::limbs_value(rest) == digits);
    assert(q * digits == digits * q) by (nonlinear_arith);
    lemma_fundamental_div_mod_converse(
        bytes::limbs_value(s) as int,
        q,
        digits,
        bytes::limbs_value(a) as int,
    );
    lemma_fundamental_div_mod_converse(digits, 0x1_0000_0000, high, s[i] as int);
}

/// A key without leading zeros is the number itself, and starts with a zero byte
/// only where it is that byte.
pub proof fn lemma_minimal_key(s: Seq<u8>, v: nat)
    ensures
        bytes::minimal_be(s, v) <==> bytes::be_value(s) == v && s.len() > 0 && (s[0] == 0
            ==> s.len() == 1),
{
}

/// The group order, and how far it is below `2^256`.
pub proof fn lemma_group_order()
    ensures
        curve::group_order()
            == 115792089237316195423570985008687907852837564279074904382605163141518161494337nat,
        curve::field_prime()
            == 115792089237316195423570985008687907853269984665640564039457584007908834671663nat,
{
}

/// A multiple of `G` depends on the multiplier's remainder by the group order
/// alone, and so does a private key.
pub proof fn lemma_multiples(p: Option<(nat, nat)>, k: nat)
    ensures
        curve::multiple(k) == curve::base_multiple(k % curve::group_order()),
        curve::multiple(k + curve::group_order()) == curve::multiple(k),
        curve::is_key_of(p, k) <==> p == curve::base_multiple(k % curve::group_order()),
{
    lemma_mod_add_multiples_vanish(k as int, curve::group_order() as int);
    assert(curve::group_order() + k == k + curve::group_order());
}

/// The points of the curve are the solutions of `y^2 = x^3 + 7`.
pub proof fn lemma_curve_equation(x: nat, y: nat)
    ensures
        curve::on_curve(x, y) <==> x < curve::field_prime() && y < curve::field_prime() && (y * y - (
        x * x * x + 7)) % (curve::field_prime() as int) == 0,
{
    lemma_mod_equivalence((y * y) as int, (x * x * x + 7) as int, curve::field_prime() as int);
}

/// The records of the device hold numbers as limbs, field by field.
pub proof fn lemma_records(p: GpuAffinePoint, d: GpuDistinguishedPoint, k: GpuKangaroo)
    ensures
        p@ == (bytes::limbs_value(p.x@), bytes::limbs_value(p.y@)),
        d@.x == bytes::limbs_value(d.x@),
        d@.dist == bytes::limbs_value(d.dist@),
        d@.ktype == d.ktype,
        k@.x == bytes::limbs_value(k.x@),
        k@.y == bytes::limbs_value(k.y@),
        k@.z == bytes::limbs_value(k.z@),
        k@.dist == bytes::limbs_value(k.dist@),
        k@.ktype == k.ktype,
        k@.is_active == k.is_active,
        k@.padding == k._padding@,
{
}

/// The low half of the mask comes first.
pub proof fn lemma_mask_halves(c: GpuConfig, i: int)
    requires
        0 <= i < 4,
    ensures
        c.dp_mask().len() == 8,
        c.dp_mask()[i] == c.dp_mask_lo@[i],
        c.dp_mask()[i + 4] == c.dp_mask_hi@[i],
{
}

} // verus!
