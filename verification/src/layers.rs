//! Identity of the bounded ground-layer catalog of the layered ground
//! material: which layers exist, their order (the shader's layer index), the
//! seed of each layer's procedural texture, and the sizes of the shared layer
//! textures and per-patch weight maps.
use vstd::prelude::*;
use crate::mips::{floor_log2, is_color_mip_chain, level_bytes, level_dim, level_offset, mip_level_count};

verus! {

/// Bounded ground-layer count: grass, soil, rock, sand and snow.
pub const GROUND_LAYER_COUNT: usize = 5;
/// Texels per side of each shared procedural layer texture.
pub const LAYER_TEXTURE_RES: u32 = 128;
/// Texels per side of a per-patch layer-weight map.
pub const LAYER_WEIGHT_TEX_RES: u32 = 32;
/// Stored bytes of one RGBA8 layer-weight map including its mip chain, which
/// adds one third over the base level.
pub const LAYER_WEIGHT_MAP_BYTES: u64 = 32 * 32 * 4 * 4 / 3;

/// Identity of one bounded ground layer; the order is the shader's layer
/// index.
#[derive(Clone, Copy, Debug, PartialEq, Eq, Structural)]
pub enum GroundLayer {
    Grass,
    Soil,
    Rock,
    Sand,
    Snow,
}

/// One catalog entry: the layer and the seed of its procedural texture.
#[derive(Clone, Copy, Debug, PartialEq, Eq, Structural)]
pub struct LayerDescriptor {
    pub layer: GroundLayer,
    pub seed: u64,
}

/// Seed of each catalog entry's procedural texture, in catalog order.
pub open spec fn catalog_seed(i: int) -> u64 {
    if i == 0 {
        11
    } else if i == 1 {
        23
    } else if i == 2 {
        37
    } else if i == 3 {
        41
    } else {
        53
    }
}

/// The default layer catalog, in shader layer order: one entry per layer,
/// each with its own texture seed.
pub fn ground_layers() -> (r: [LayerDescriptor; 5])
    ensures
        r@[0].layer == GroundLayer::Grass,
        r@[1].layer == GroundLayer::Soil,
        r@[2].layer == GroundLayer::Rock,
        r@[3].layer == GroundLayer::Sand,
        r@[4].layer == GroundLayer::Snow,
        forall|i: int| 0 <= i < 5 ==> spec_layer_index(#[trigger] r@[i].layer) == i && r@[i].seed == catalog_seed(i),
{
    [
        LayerDescriptor { layer: GroundLayer::Grass, seed: 11 },
        LayerDescriptor { layer: GroundLayer::Soil, seed: 23 },
        LayerDescriptor { layer: GroundLayer::Rock, seed: 37 },
        LayerDescriptor { layer: GroundLayer::Sand, seed: 41 },
        LayerDescriptor { layer: GroundLayer::Snow, seed: 53 },
    ]
}

/// The catalog's seeds are pairwise distinct, so no two layers share a
/// texture.
pub proof fn lemma_catalog_seeds_are_distinct(i: int, j: int)
    requires
        0 <= i < j < 5,
    ensures
        catalog_seed(i) != catalog_seed(j),
{
}

/// Shader layer index of a ground layer.
pub open spec fn spec_layer_index(layer: GroundLayer) -> u64 {
    match layer {
        GroundLayer::Grass => 0,
        GroundLayer::Soil => 1,
        GroundLayer::Rock => 2,
        GroundLayer::Sand => 3,
        GroundLayer::Snow => 4,
    }
}

/// Shader layer index of a ground layer.
pub fn layer_index(layer: GroundLayer) -> (r: u64)
    ensures
        r == spec_layer_index(layer),
        layer == GroundLayer::Grass ==> r == 0,
        layer == GroundLayer::Soil ==> r == 1,
        layer == GroundLayer::Rock ==> r == 2,
        layer == GroundLayer::Sand ==> r == 3,
        layer == GroundLayer::Snow ==> r == 4,
{
    match layer {
        GroundLayer::Grass => 0,
        GroundLayer::Soil => 1,
        GroundLayer::Rock => 2,
        GroundLayer::Sand => 3,
        GroundLayer::Snow => 4,
    }
}

/// The shader layer index follows the declaration order of `GroundLayer`
/// (Grass, Soil, Rock, Sand, Snow): each layer's index is its position, so
/// distinct layers have distinct indices below the layer count; and the
/// catalog lists the layers in that order, entry `i` holding the layer whose
/// index is `i`.
pub proof fn lemma_layer_index_is_declaration_order(a: GroundLayer, b: GroundLayer)
    ensures
        spec_layer_index(GroundLayer::Grass) == 0,
        spec_layer_index(GroundLayer::Soil) == 1,
        spec_layer_index(GroundLayer::Rock) == 2,
        spec_layer_index(GroundLayer::Sand) == 3,
        spec_layer_index(GroundLayer::Snow) == 4,
        spec_layer_index(a) < GROUND_LAYER_COUNT,
        a != b ==> spec_layer_index(a) != spec_layer_index(b),
{
}

/// Seed of a layer's fine grain octave: the layer seed offset by 97 and by
/// the layer index, wrapping, so each layer's tile is visibly distinct.
pub fn grain_seed(descriptor: LayerDescriptor) -> (r: u64)
    ensures
        r == (descriptor.seed as int + 97 + spec_layer_index(descriptor.layer)) % 0x1_0000_0000_0000_0000,
{
    let index = layer_index(descriptor.layer);
    let r = descriptor.seed.wrapping_add(97).wrapping_add(index);
    proof {
        let s = descriptor.seed as int;
        let m = 0x1_0000_0000_0000_0000int;
        vstd::arithmetic::div_mod::lemma_add_mod_noop(s, 97, m);
        vstd::arithmetic::div_mod::lemma_add_mod_noop((s + 97) % m, index as int, m);
        vstd::arithmetic::div_mod::lemma_add_mod_noop(s + 97, index as int, m);
        vstd::arithmetic::div_mod::lemma_mod_twice(s + 97, m);
        vstd::arithmetic::div_mod::lemma_small_mod(index as nat, m as nat);
    }
    r
}

/// A per-patch layer-weight map fits its configured byte budget: the colour
/// mip chain of a `LAYER_WEIGHT_TEX_RES` x `LAYER_WEIGHT_TEX_RES` base takes
/// at most `LAYER_WEIGHT_MAP_BYTES` bytes.
pub proof fn lemma_weight_map_fits_budget(base: Seq<u8>, data: Seq<u8>, levels: nat)
    requires
        is_color_mip_chain(LAYER_WEIGHT_TEX_RES as int, LAYER_WEIGHT_TEX_RES as int, base, data, levels),
    ensures
        data.len() <= LAYER_WEIGHT_MAP_BYTES,
{
    assert(floor_log2(1) == 0);
    assert(floor_log2(2) == 1);
    assert(floor_log2(4) == 2);
    assert(floor_log2(8) == 3);
    assert(floor_log2(16) == 4);
    assert(floor_log2(32) == 5);
    assert(mip_level_count(32, 32) == 6);
    assert(level_dim(32, 0) == 32);
    assert(level_dim(32, 1) == 16);
    assert(level_dim(32, 2) == 8);
    assert(level_dim(32, 3) == 4);
    assert(level_dim(32, 4) == 2);
    assert(level_dim(32, 5) == 1);
    assert(level_offset(32, 32, 0) == 0);
    assert(level_bytes(32, 32, 0) == 4096);
    assert(level_bytes(32, 32, 1) == 1024);
    assert(level_bytes(32, 32, 2) == 256);
    assert(level_bytes(32, 32, 3) == 64);
    assert(level_bytes(32, 32, 4) == 16);
    assert(level_offset(32, 32, 1) == 4096);
    assert(level_offset(32, 32, 2) == 5120);
    assert(level_offset(32, 32, 3) == 5376);
    assert(level_offset(32, 32, 4) == 5440);
    assert(level_offset(32, 32, 5) == 5456);
    let last = level_dim(32, 5);
    assert(last == 1);
    assert(last * last * 4 == 4) by (nonlinear_arith)
        requires
            last == 1,
    ;
    assert(level_bytes(32, 32, 5) == 4);
    assert(level_offset(32, 32, 6) == 5460);
}

} // verus!
