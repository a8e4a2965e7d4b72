//! Integer hashes behind the deterministic procedural detail: the lattice
//! hash of the tiling micro-detail noise and the scatter placement hash.
//! Both are pure functions of their inputs, so textures and scatter never
//! depend on frame order; callers scale the returned bits to `[0, 1]`.
use vstd::prelude::*;

verus! {

/// The 24 mixed bits of lattice point (`ix`, `iy`) of the micro-detail noise.
pub open spec fn detail_lattice_bits(ix: i64, iy: i64) -> u64 {
    let h = (ix as u64).wrapping_mul(374_761_393).wrapping_add((iy as u64).wrapping_mul(668_265_263));
    let h = (h ^ (h >> 13u64)).wrapping_mul(1_274_126_177);
    (h ^ (h >> 16u64)) & 0x00FF_FFFF
}

/// Lattice hash of the micro-detail noise: 24 well-mixed bits, so
/// `bits / 0xFF_FFFF` lies in `[0, 1]`.
pub fn detail_hash_bits(ix: i64, iy: i64) -> (r: u64)
    ensures
        r == detail_lattice_bits(ix, iy),
        r <= 0x00FF_FFFF,
{
    let h = (ix as u64).wrapping_mul(374_761_393).wrapping_add((iy as u64).wrapping_mul(668_265_263));
    let h = (h ^ (h >> 13u64)).wrapping_mul(1_274_126_177);
    let mixed = h ^ (h >> 16u64);
    let r = mixed & 0x00FF_FFFF;
    proof {
        assert(mixed & 0x00FF_FFFF <= 0x00FF_FFFF) by (bit_vector);
    }
    r
}

/// The 48 mixed bits of the scatter placement hash of (`a`, `b`, `c`).
pub open spec fn scatter_mix_bits(a: u64, b: u64, c: u64) -> u64 {
    let h = a ^ b.wrapping_mul(0x9E37_79B9_7F4A_7C15) ^ c.wrapping_mul(0xBF58_476D_1CE4_E5B9);
    let h = h ^ (h >> 30u64);
    let h = h.wrapping_mul(0xBF58_476D_1CE4_E5B9);
    let h = h ^ (h >> 27u64);
    let h = h.wrapping_mul(0x94D0_49BB_1331_11EB);
    let h = h ^ (h >> 31u64);
    h & 0xFFFF_FFFF_FFFF
}

/// Scatter placement hash of patch coordinates and an instance index: 48
/// well-mixed bits, so `bits / 2^48` lies in `[0, 1)`.
pub fn scatter_hash_bits(a: u64, b: u64, c: u64) -> (r: u64)
    ensures
        r == scatter_mix_bits(a, b, c),
        r < 0x1_0000_0000_0000,
{
    let mut h = a ^ b.wrapping_mul(0x9E37_79B9_7F4A_7C15) ^ c.wrapping_mul(0xBF58_476D_1CE4_E5B9);
    h = h ^ (h >> 30u64);
    h = h.wrapping_mul(0xBF58_476D_1CE4_E5B9);
    h = h ^ (h >> 27u64);
    h = h.wrapping_mul(0x94D0_49BB_1331_11EB);
    h = h ^ (h >> 31u64);
    let r = h & 0xFFFF_FFFF_FFFF;
    proof {
        assert(h & 0xFFFF_FFFF_FFFF < 0x1_0000_0000_0000) by (bit_vector);
    }
    r
}

} // verus!
