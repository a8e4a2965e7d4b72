use cosmic_terrain::mips::{downsample, mean_of_four, mip_chain_rgba8, mip_chain_rgba8_with};

#[test]
fn chain_terminates_at_one_texel_with_expected_level_count() {
    for (width, height) in [(256u32, 256u32), (128, 64), (100, 100), (1, 1), (3, 5)] {
        let base = vec![128u8; (width as usize) * (height as usize) * 4];
        let (_, levels) = mip_chain_rgba8(width, height, &base);
        let expected = 1 + width.max(height).ilog2();
        assert_eq!(levels, expected, "{width}x{height}");
    }
}

#[test]
fn chain_length_matches_the_sum_of_all_levels() {
    let width = 8u32;
    let height = 4u32;
    let base = vec![200u8; (width as usize) * (height as usize) * 4];
    let (data, levels) = mip_chain_rgba8(width, height, &base);
    let expected_bytes: usize = (0..levels)
        .map(|level| {
            let w = (width >> level).max(1);
            let h = (height >> level).max(1);
            (w as usize) * (h as usize) * 4
        })
        .sum();
    assert_eq!(data.len(), expected_bytes);
}

#[test]
fn uniform_color_stays_uniform_through_the_chain() {
    let base = [10u8, 20, 30, 255]
        .iter()
        .cycle()
        .take(16 * 16 * 4)
        .copied()
        .collect::<Vec<_>>();
    let (data, _) = mip_chain_rgba8(16, 16, &base);
    for texel in data.chunks_exact(4) {
        assert_eq!(texel, [10, 20, 30, 255]);
    }
}

#[test]
fn generation_is_deterministic() {
    let base = (0..32 * 16 * 4)
        .map(|i| (i * 7 % 251) as u8)
        .collect::<Vec<_>>();
    let first = mip_chain_rgba8(32, 16, &base);
    let second = mip_chain_rgba8(32, 16, &base);
    assert_eq!(first, second);
}

#[test]
fn rounded_mean_rounds_halves_up() {
    assert_eq!(mean_of_four(0), 0);
    assert_eq!(mean_of_four(1), 0);
    assert_eq!(mean_of_four(2), 1);
    assert_eq!(mean_of_four(6), 2);
    assert_eq!(mean_of_four(1020), 255);
}

#[test]
fn downsample_averages_each_two_by_two_footprint() {
    // 2x2 image, one channel pattern per texel.
    let src = [0u8, 10, 100, 255, 2, 10, 100, 255, 4, 10, 100, 255, 6, 10, 100, 255];
    let out = downsample(&src, 2, 2, 1, 1);
    // (0 + 2 + 4 + 6 + 2) / 4 = 3
    assert_eq!(out, vec![3, 10, 100, 255]);
}

#[test]
fn odd_edges_clamp_to_the_last_texel() {
    // 3x1 image: the second output texel reads texel 2 twice per row and
    // clamps the missing row to the only row.
    let src = [0u8, 0, 0, 0, 0, 0, 0, 0, 200, 0, 0, 0];
    let out = downsample(&src, 3, 1, 1, 1);
    // Footprint of (0, 0): texels 0, 1, 0, 1 -> mean 0.
    assert_eq!(out, vec![0, 0, 0, 0]);
    let (data, levels) = mip_chain_rgba8(3, 1, &src);
    assert_eq!(levels, 2);
    assert_eq!(data.len(), 12 + 4);
}

#[test]
fn custom_reducer_receives_the_channel_sums() {
    let base = vec![1u8; 4 * 4 * 4];
    let (data, levels) = mip_chain_rgba8_with(4, 4, &base, &|r: u16, g: u16, b: u16, a: u16| {
        ((r / 4) as u8, (g / 2) as u8, b.min(255) as u8, a.min(255) as u8)
    });
    assert_eq!(levels, 3);
    // Level 1 texels see sums of four taps of value 1.
    assert_eq!(&data[64..68], &[1, 2, 4, 4]);
}
