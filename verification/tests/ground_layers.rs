use cosmic_terrain::layers::{
    grain_seed, ground_layers, layer_index, GroundLayer, LayerDescriptor, GROUND_LAYER_COUNT,
    LAYER_WEIGHT_MAP_BYTES,
};

#[test]
fn ground_layer_catalog_is_bounded_and_ordered() {
    let ground_layers = ground_layers();
    assert_eq!(ground_layers.len(), GROUND_LAYER_COUNT);
    assert_eq!(ground_layers[0].layer, GroundLayer::Grass);
    assert_eq!(ground_layers[4].layer, GroundLayer::Snow);
    let seeds = ground_layers.map(|descriptor| descriptor.seed);
    assert!(seeds.windows(2).all(|pair| pair[0] != pair[1]));
}

#[test]
fn layer_order_is_the_shader_index() {
    let layers = ground_layers();
    for (i, descriptor) in layers.iter().enumerate() {
        assert_eq!(layer_index(descriptor.layer), i as u64);
    }
}

#[test]
fn grain_seed_offsets_by_97_and_the_layer_index() {
    let rock = LayerDescriptor { layer: GroundLayer::Rock, seed: 37 };
    assert_eq!(grain_seed(rock), 37 + 97 + 2);
    let wrapping = LayerDescriptor { layer: GroundLayer::Snow, seed: u64::MAX };
    assert_eq!(grain_seed(wrapping), 97 + 4 - 1);
}

#[test]
fn weight_map_bytes_include_the_mip_chain() {
    assert_eq!(LAYER_WEIGHT_MAP_BYTES, 32 * 32 * 4 * 4 / 3);
}

#[test]
fn weight_map_chain_stays_within_its_budget() {
    let res = cosmic_terrain::layers::LAYER_WEIGHT_TEX_RES;
    let base = vec![200u8; (res * res * 4) as usize];
    let (data, levels) = cosmic_terrain::mips::mip_chain_rgba8(res, res, &base);
    assert_eq!(levels, 6);
    assert_eq!(data.len(), 5460);
    assert!(data.len() as u64 <= LAYER_WEIGHT_MAP_BYTES);
}
