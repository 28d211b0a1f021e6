use vstd::arithmetic::div_mod::lemma_fundamental_div_mod_converse;
use vstd::prelude::*;

verus! {

/// The number of values one half of a packed identifier can take.
pub const HALF: u64 = 0x1_0000_0000;

/// A handle on an entity: the slot it occupies and the generation of that
/// slot under which it was issued. A generation of zero is never issued.
#[derive(Clone, Copy, PartialEq, Eq, Hash, Debug, Structural)]
pub struct Entity {
    pub id: u32,
    pub version: u32,
}

/// The packed form of a handle: generation in the high half, slot in the low half.
pub open spec fn pack(id: u32, version: u32) -> int {
    version as int * HALF as int + id as int
}

/// The handle that a packed value stands for, if its generation is not zero.
pub open spec fn unpack(bits: u64) -> Option<Entity> {
    if bits as int / HALF as int == 0 {
        None
    } else {
        Some(Entity { id: (bits as int % HALF as int) as u32, version: (bits as int / HALF as int) as u32 })
    }
}

/// Packing a handle and unpacking the result gives the handle back for every
/// nonzero generation; with a zero generation the packed value is rejected.
pub proof fn lemma_bits_round_trip(id: u32, version: u32)
    ensures
        0 <= pack(id, version) <= u64::MAX,
        version != 0 ==> unpack(pack(id, version) as u64) == Some(Entity { id, version }),
        version == 0 ==> unpack(pack(id, version) as u64) is None,
{
    let x = pack(id, version);
    assert(0 <= x <= u64::MAX) by (nonlinear_arith)
        requires
            x == version as int * 0x1_0000_0000 + id as int,
            0 <= version as int <= 0xffff_ffff,
            0 <= id as int <= 0xffff_ffff,
    ;
    lemma_fundamental_div_mod_converse(x, HALF as int, version as int, id as int);
    assert((x as u64) as int == x);
}

impl Entity {
    /// A handle on slot `id` under generation `version`.
    pub fn new(id: u32, version: u32) -> (r: Self)
        requires
            version != 0,
        ensures
            r.id == id,
            r.version == version,
    {
        Entity { id, version }
    }

    /// Unpacks a handle; `None` when the generation half is zero.
    pub fn from_bits(bits: u64) -> (r: Option<Self>)
        ensures
            r == unpack(bits),
    {
        let version: u32 = (bits >> 32u64) as u32;
        let id: u32 = (bits & 0xffff_ffffu64) as u32;
        assert(bits >> 32u64 == bits / 0x1_0000_0000u64) by (bit_vector);
        assert(bits & 0xffff_ffffu64 == bits % 0x1_0000_0000u64) by (bit_vector);
        if version == 0 {
            None
        } else {
            Some(Entity { id, version })
        }
    }

    /// Packs the handle into one integer, which is not zero for a valid handle.
    pub fn to_bits(&self) -> (r: u64)
        ensures
            r as int == pack(self.id, self.version),
            self.version != 0 ==> r != 0,
    {
        let v: u64 = self.version as u64;
        let i: u64 = self.id as u64;
        assert((v << 32u64) | i == v * 0x1_0000_0000u64 + i) by (bit_vector)
            requires
                v < 0x1_0000_0000u64,
                i < 0x1_0000_0000u64,
        ;
        assert(v * 0x1_0000_0000u64 + i <= 0xffff_ffff_ffff_ffffu64) by (nonlinear_arith)
            requires
                v < 0x1_0000_0000u64,
                i < 0x1_0000_0000u64,
        ;
        (v << 32u64) | i
    }
}

} // verus!
