//! The records that host and compute device exchange.

use crate::bytes;
use vstd::prelude::*;

verus! {

/// A distinguished point as the device reports it.
///
/// `x` is the affine X coordinate, `dist` the distance walked, both as
/// little-endian limbs; `ktype` is 0 for a tame kangaroo, anything else for a
/// wild one.
#[derive(Clone, Copy)]
pub struct GpuDistinguishedPoint {
    pub x: [u32; 8],
    pub dist: [u32; 8],
    pub ktype: u32,
}

/// What a distinguished point says, in numbers.
pub struct Sighting {
    pub x: nat,
    pub dist: nat,
    pub ktype: u32,
}

impl View for GpuDistinguishedPoint {
    type V = Sighting;

    open spec fn view(&self) -> Sighting {
        Sighting {
            x: bytes::limbs_value(self.x@),
            dist: bytes::limbs_value(self.dist@),
            ktype: self.ktype,
        }
    }
}

/// A point in affine coordinates, as little-endian limbs.
#[derive(Clone, Copy)]
pub struct GpuAffinePoint {
    pub x: [u32; 8],
    pub y: [u32; 8],
}

impl View for GpuAffinePoint {
    type V = (nat, nat);

    open spec fn view(&self) -> (nat, nat) {
        (bytes::limbs_value(self.x@), bytes::limbs_value(self.y@))
    }
}

/// A kangaroo as it is handed to the device.
///
/// The position is in Jacobian coordinates; `dist` is the distance walked.
#[derive(Clone, Copy)]
pub struct GpuKangaroo {
    pub x: [u32; 8],
    pub y: [u32; 8],
    pub z: [u32; 8],
    pub dist: [u32; 8],
    pub ktype: u32,
    pub is_active: u32,
    pub _padding: [u32; 2],
}

/// What a kangaroo's record says, in numbers.
pub struct Placement {
    pub x: nat,
    pub y: nat,
    pub z: nat,
    pub dist: nat,
    pub ktype: u32,
    pub is_active: u32,
    pub padding: Seq<u32>,
}

impl View for GpuKangaroo {
    type V = Placement;

    open spec fn view(&self) -> Placement {
        Placement {
            x: bytes::limbs_value(self.x@),
            y: bytes::limbs_value(self.y@),
            z: bytes::limbs_value(self.z@),
            dist: bytes::limbs_value(self.dist@),
            ktype: self.ktype,
            is_active: self.is_active,
            padding: self._padding@,
        }
    }
}

/// An active kangaroo of kind `ktype` at the affine position `at`.
pub open spec fn placed_at(at: (nat, nat), dist: nat, ktype: u32) -> Placement {
    Placement { x: at.0, y: at.1, z: 1, dist, ktype, is_active: 1, padding: seq![0u32, 0u32] }
}

/// What the device is told before a dispatch.
///
/// The mask that tells distinguished points is split in a low and a high half.
#[derive(Clone, Copy)]
pub struct GpuConfig {
    pub dp_mask_lo: [u32; 4],
    pub dp_mask_hi: [u32; 4],
    pub num_kangaroos: u32,
    pub steps_per_call: u32,
    pub jump_table_size: u32,
    pub _padding: u32,
}

impl GpuConfig {
    /// Both halves of the mask.
    pub open spec fn dp_mask(&self) -> Seq<u32> {
        self.dp_mask_lo@ + self.dp_mask_hi@
    }

    /// The configuration for a mask, with a full jump table.
    pub fn new(dp_mask: &[u32; 8], num_kangaroos: u32, steps_per_call: u32) -> (c: Self)
        ensures
            c.dp_mask() == dp_mask@,
            c.num_kangaroos == num_kangaroos,
            c.steps_per_call == steps_per_call,
            c.jump_table_size == 256,
            c._padding == 0,
    {
        let c = GpuConfig {
            dp_mask_lo: [dp_mask[0], dp_mask[1], dp_mask[2], dp_mask[3]],
            dp_mask_hi: [dp_mask[4], dp_mask[5], dp_mask[6], dp_mask[7]],
            num_kangaroos,
            steps_per_call,
            jump_table_size: 256,
            _padding: 0,
        };
        assert(c.dp_mask() =~= dp_mask@);
        c
    }
}

/// Kangaroos that one workgroup of the device runs.
pub const WORKGROUP_SIZE: u32 = 64;

/// The fewest workgroups that run all kangaroos.
pub fn workgroups(num_kangaroos: u32) -> (n: u32)
    ensures
        n as int * WORKGROUP_SIZE >= num_kangaroos,
        (n - 1) * WORKGROUP_SIZE < num_kangaroos,
{
    let full: u32 = num_kangaroos / WORKGROUP_SIZE;
    if num_kangaroos % WORKGROUP_SIZE == 0 {
        full
    } else {
        full + 1
    }
}

// ---------------------------------------------------------------------------
// The buffer that points come back in
// ---------------------------------------------------------------------------

/// Bytes in front of the records: the number of points found.
pub const COUNT_BYTES: usize = 4;

/// The number of points found, from the head of the buffer.
pub fn point_count(head: &[u8; 4]) -> (n: u32)
    ensures
        n == bytes::le_value(head@),
{
    proof {
        let s = head@.reverse();
        assert(bytes::be_value(s) == head@[0] + 0x100 * head@[1] + 0x1_0000 * head@[2] + 0x100_0000
            * head@[3]) by {
            reveal_with_fuel(bytes::be_value, 5);
        }
        assert(s.reverse() =~= head@);
        bytes::lemma_be_is_reversed_le(s);
    }
    head[0] as u32 + head[1] as u32 * 0x100 + head[2] as u32 * 0x1_0000 + head[3] as u32
        * 0x100_0000
}

/// How much of the buffer is to be read for `count` records.
pub fn staging_len(count: u32, record_size: usize) -> (n: usize)
    requires
        COUNT_BYTES + count * record_size <= usize::MAX,
    ensures
        n == COUNT_BYTES + count * record_size,
{
    assert(0 <= count * record_size) by (nonlinear_arith);
    COUNT_BYTES + count as usize * record_size
}

/// The records of a buffer, `count` at most and no incomplete one.
pub fn split_records(data: &[u8], record_size: usize, count: u32) -> (r: Vec<&[u8]>)
    requires
        data@.len() >= COUNT_BYTES,
        record_size > 0,
    ensures
        r@.len() <= count,
        COUNT_BYTES + r@.len() * record_size <= data@.len(),
        r@.len() < count ==> COUNT_BYTES + (r@.len() + 1) * record_size > data@.len(),
        forall|i: int|
            0 <= i < r@.len() ==> (#[trigger] r@[i])@ == data@.subrange(
                COUNT_BYTES + i * record_size,
                COUNT_BYTES + (i + 1) * record_size,
            ),
{
    let mut r: Vec<&[u8]> = Vec::new();
    let mut at: usize = COUNT_BYTES;
    assert(0 * record_size == 0) by (nonlinear_arith);
    while r.len() < count as usize && record_size <= data.len() - at
        invariant
            r@.len() <= count,
            at == COUNT_BYTES + r@.len() * record_size,
            at <= data@.len(),
            forall|i: int|
                0 <= i < r@.len() ==> (#[trigger] r@[i])@ == data@.subrange(
                    COUNT_BYTES + i * record_size,
                    COUNT_BYTES + (i + 1) * record_size,
                ),
        decreases count - r@.len(),
    {
        assert((r@.len() + 1) * record_size == r@.len() * record_size + record_size)
            by (nonlinear_arith);
        r.push(vstd::slice::slice_subrange(data, at, at + record_size));
        at = at + record_size;
    }
    assert((r@.len() + 1) * record_size == r@.len() * record_size + record_size)
        by (nonlinear_arith);
    r
}

} // verus!
