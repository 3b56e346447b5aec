//! The group of points of secp256k1, as far as the search needs it.
//!
//! The arithmetic is that of the `k256` crate. Points and scalars cross over as
//! bytes: a point in its uncompressed SEC1 encoding, a scalar as 32 big-endian
//! bytes.

use crate::bytes;
use crate::gpu::GpuAffinePoint;
use k256::elliptic_curve::bigint::Encoding;
use k256::elliptic_curve::ops::{MulByGenerator, Reduce};
use k256::elliptic_curve::sec1::{FromEncodedPoint, ToEncodedPoint};
use k256::elliptic_curve::PrimeField;
use k256::{AffinePoint, EncodedPoint, ProjectivePoint, U256};
use vstd::arithmetic::power2::*;
use vstd::prelude::*;

verus! {

/// The order of the group, a prime.
pub open spec fn group_order() -> nat {
    0xFFFFFFFF_FFFFFFFF_FFFFFFFF_FFFFFFFE_BAAEDCE6_AF48A03B_BFD25E8C_D0364141nat
}

/// The prime that coordinates are reduced by.
pub open spec fn field_prime() -> nat {
    0xFFFFFFFF_FFFFFFFF_FFFFFFFF_FFFFFFFF_FFFFFFFF_FFFFFFFF_FFFFFFFE_FFFFFC2Fnat
}

/// `(x, y)` are the coordinates of a point of the curve.
pub open spec fn on_curve(x: nat, y: nat) -> bool {
    &&& x < field_prime()
    &&& y < field_prime()
    &&& (y * y) % field_prime() == (x * x * x + 7) % field_prime()
}

/// The coordinates of a point of the curve, or of the point at infinity.
pub open spec fn is_point_view(p: Option<(nat, nat)>) -> bool {
    match p {
        Some((x, y)) => on_curve(x, y),
        None => true,
    }
}

/// The coordinates of `k * G`, for `k` below the group order; none at infinity.
pub uninterp spec fn base_multiple(k: nat) -> Option<(nat, nat)>;

/// The coordinates of the sum of two points; none at infinity.
pub uninterp spec fn point_sum(p: Option<(nat, nat)>, q: Option<(nat, nat)>) -> Option<(nat, nat)>;

/// The coordinates of `k * G`, for any `k`.
pub open spec fn multiple(k: nat) -> Option<(nat, nat)> {
    base_multiple(k % group_order())
}

/// `k` is the private key of the public key `p`, or differs from it by a multiple
/// of the group order.
pub open spec fn is_key_of(p: Option<(nat, nat)>, k: nat) -> bool {
    p == multiple(k)
}

/// No other multiplier below the group order than `k`'s remainder leads to `p`.
pub open spec fn only_multiple(p: Option<(nat, nat)>, k: nat) -> bool {
    forall|j: nat|
        j < group_order() && #[trigger] base_multiple(j) == p ==> j == k % group_order()
}

/// An integer modulo the group order.
pub struct Scalar {
    be: [u8; 32],
}

impl View for Scalar {
    type V = nat;

    closed spec fn view(&self) -> nat {
        bytes::be_value(self.be@)
    }
}

/// A point of the curve, or the point at infinity.
pub struct Point {
    /// SEC1 encoding: `04 x y`, or `00` at infinity.
    sec1: Vec<u8>,
}

impl View for Point {
    type V = Option<(nat, nat)>;

    closed spec fn view(&self) -> Option<(nat, nat)> {
        if self.sec1@.len() == 65 {
            Some(
                (
                    bytes::be_value(self.sec1@.subrange(1, 33)),
                    bytes::be_value(self.sec1@.subrange(33, 65)),
                ),
            )
        } else {
            None
        }
    }
}

/// `Reduce::reduce` of `k256::Scalar`: the remainder by the group order.
#[verifier::external_body]
pub(crate) fn reduce(n_be: &[u8; 32]) -> (r: Scalar)
    ensures
        r@ == bytes::be_value(n_be@) % group_order(),
{
    Scalar { be: k256::Scalar::reduce(U256::from_be_slice(n_be)).to_bytes().into() }
}

/// `k256::U256::wrapping_add`: the sum modulo `2^256`, on little-endian bytes.
#[verifier::external_body]
pub(crate) fn wrapping_add(a_le: &[u8; 32], b_le: &[u8; 32]) -> (r: [u8; 32])
    ensures
        bytes::le_value(r@) == (bytes::le_value(a_le@) + bytes::le_value(b_le@)) % pow2(256),
{
    U256::from_le_slice(a_le).wrapping_add(&U256::from_le_slice(b_le)).to_le_bytes()
}

/// `MulByGenerator::mul_by_generator` of `k256::ProjectivePoint`: the point
/// `k * G`.
///
/// `G` generates a group of prime order [`group_order`] (`PrimeGroup`): only the
/// multiple by zero is at infinity, and no two scalars have the same multiple.
#[verifier::external_body]
pub(crate) fn mul_by_generator(k: &Scalar) -> (r: Point)
    requires
        k@ < group_order(),
    ensures
        r.wf(),
        r@ == base_multiple(k@),
        r@ is None <==> k@ == 0,
        forall|j: nat| j < group_order() && #[trigger] base_multiple(j) == r@ ==> j == k@,
{
    let k = k256::Scalar::from_repr(k.be.into()).unwrap();
    let p = ProjectivePoint::mul_by_generator(&k).to_affine();
    Point { sec1: p.to_encoded_point(false).as_bytes().to_vec() }
}

/// `Add` of `k256::ProjectivePoint`: the sum of two points.
///
/// The point at infinity adds nothing. Multiples of `G` add as their multipliers
/// do, and cancel where these add up to a multiple of the group order. The sums
/// of one point with two others are the same only if the two are.
#[verifier::external_body]
pub(crate) fn add_points(p: &Point, q: &Point) -> (r: Point)
    requires
        p.wf(),
        q.wf(),
    ensures
        r.wf(),
        r@ == point_sum(p@, q@),
        q@ is None ==> r@ == p@,
        forall|a: nat, b: nat| #[trigger]
            is_key_of(p@, a) && #[trigger] is_key_of(q@, b) ==> r@ == multiple(a + b) && (r@ is None
                <==> (a + b) % group_order() == 0),
        forall|o: Option<(nat, nat)>|
            is_point_view(o) && #[trigger] point_sum(p@, o) == r@ ==> o == q@,
{
    let p = AffinePoint::from_encoded_point(&EncodedPoint::from_bytes(&p.sec1).unwrap()).unwrap();
    let q = AffinePoint::from_encoded_point(&EncodedPoint::from_bytes(&q.sec1).unwrap()).unwrap();
    let sum = (ProjectivePoint::from(p) + ProjectivePoint::from(q)).to_affine();
    Point { sec1: sum.to_encoded_point(false).as_bytes().to_vec() }
}

/// `FromEncodedPoint::from_encoded_point` of `k256::AffinePoint`: whether an
/// uncompressed encoding is one of a point of the curve.
#[verifier::external_body]
fn is_point(sec1: &Vec<u8>) -> (r: bool)
    requires
        sec1@.len() == 65,
        sec1@[0] == 4,
    ensures
        r == on_curve(
            bytes::be_value(sec1@.subrange(1, 33)),
            bytes::be_value(sec1@.subrange(33, 65)),
        ),
{
    AffinePoint::from_encoded_point(&EncodedPoint::from_bytes(sec1).unwrap()).is_some().into()
}

impl Point {
    /// The encoding is one of a point of the curve, or of the point at infinity.
    pub closed spec fn wf(&self) -> bool {
        match self@ {
            Some((x, y)) => self.sec1@[0] == 4 && on_curve(x, y),
            None => self.sec1@ == seq![0u8],
        }
    }

    /// The point with the given affine coordinates (big-endian), if there is one.
    pub fn from_coordinates(x: &[u8; 32], y: &[u8; 32]) -> (r: Option<Point>)
        ensures
            match r {
                Some(p) => p.wf() && p@ == Some((bytes::be_value(x@), bytes::be_value(y@)))
                    && on_curve(bytes::be_value(x@), bytes::be_value(y@)),
                None => !on_curve(bytes::be_value(x@), bytes::be_value(y@)),
            },
    {
        let mut sec1: Vec<u8> = Vec::new();
        sec1.push(4);
        for i in 0..32usize
            invariant
                sec1@ == seq![4u8] + x@.take(i as int),
        {
            sec1.push(x[i]);
            assert(x@.take(i + 1) =~= x@.take(i as int).push(x@[i as int]));
            assert(sec1@ =~= seq![4u8] + x@.take(i + 1));
        }
        for i in 0..32usize
            invariant
                sec1@ == seq![4u8] + x@.take(32) + y@.take(i as int),
        {
            sec1.push(y[i]);
            assert(y@.take(i + 1) =~= y@.take(i as int).push(y@[i as int]));
            assert(sec1@ =~= seq![4u8] + x@.take(32) + y@.take(i + 1));
        }
        assert(sec1@.subrange(1, 33) =~= x@);
        assert(sec1@.subrange(33, 65) =~= y@);
        if is_point(&sec1) {
            Some(Point { sec1 })
        } else {
            None
        }
    }

    /// Whether this is the point at infinity.
    pub fn is_infinity(&self) -> (r: bool)
        ensures
            r == (self@ is None),
    {
        self.sec1.len() != 65
    }

    /// Thirty-two bytes of the encoding.
    fn coordinate_at(&self, at: usize) -> (b: [u8; 32])
        requires
            self@ is Some,
            at + 32 <= 65,
        ensures
            b@ == self.sec1@.subrange(at as int, at + 32),
    {
        let mut b = [0u8; 32];
        for i in 0..32usize
            invariant
                at + 32 <= 65,
                self.sec1@.len() == 65,
                forall|j: int| 0 <= j < i ==> b@[j] == self.sec1@[at + j],
        {
            b[i] = self.sec1[at + i];
        }
        assert(b@ =~= self.sec1@.subrange(at as int, at + 32));
        b
    }
}

/// `n * G`, for a big-endian `n`.
pub fn times_generator(n_be: &[u8; 32]) -> (r: Point)
    ensures
        r.wf(),
        is_point_view(r@),
        r@ == multiple(bytes::be_value(n_be@)),
        r@ is None <==> bytes::be_value(n_be@) % group_order() == 0,
        only_multiple(r@, bytes::be_value(n_be@)),
{
    mul_by_generator(&reduce(n_be))
}

/// The coordinates of a point in the layout of the device.
pub fn affine_to_gpu(point: &Point) -> (r: GpuAffinePoint)
    requires
        point@ is Some,
    ensures
        r@ == point@->0,
{
    let x = point.coordinate_at(1);
    let y = point.coordinate_at(33);
    GpuAffinePoint { x: bytes::scalar_be_to_limbs(&x), y: bytes::scalar_be_to_limbs(&y) }
}

} // verus!
