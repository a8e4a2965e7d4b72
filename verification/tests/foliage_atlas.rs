use cosmic_terrain::atlas::{fill_region, raise_alpha, raise_alpha_row, set_alpha};

fn alpha(data: &[u8], res: usize, x: usize, y: usize) -> u8 {
    data[(y * res + x) * 4 + 3]
}

#[test]
fn set_alpha_paints_one_white_texel() {
    let mut data = vec![0u8; 4 * 4 * 4];
    set_alpha(&mut data, 4, 1, 2, 77);
    assert_eq!(&data[(2 * 4 + 1) * 4..(2 * 4 + 1) * 4 + 4], &[255, 255, 255, 77]);
    assert_eq!(data.iter().filter(|byte| **byte != 0).count(), 4);
    // Outside the image nothing changes.
    set_alpha(&mut data, 4, 4, 0, 9);
    assert_eq!(data.iter().filter(|byte| **byte != 0).count(), 4);
}

#[test]
fn raise_alpha_only_grows_the_shape() {
    let mut data = vec![0u8; 2 * 2 * 4];
    raise_alpha(&mut data, 2, 0, 0, 100);
    assert_eq!(alpha(&data, 2, 0, 0), 100);
    raise_alpha(&mut data, 2, 0, 0, 50);
    assert_eq!(alpha(&data, 2, 0, 0), 100);
    raise_alpha(&mut data, 2, 0, 0, 200);
    assert_eq!(alpha(&data, 2, 0, 0), 200);
    raise_alpha(&mut data, 2, 5, 5, 255);
    assert_eq!(alpha(&data, 2, 1, 1), 0);
}

#[test]
fn fill_region_is_clipped_to_the_image() {
    let res = 4;
    let mut data = vec![0u8; res * res * 4];
    fill_region(&mut data, res, 2, 2, 8, 255);
    for y in 0..res {
        for x in 0..res {
            let inside = x >= 2 && y >= 2;
            assert_eq!(alpha(&data, res, x, y), if inside { 255 } else { 0 }, "({x}, {y})");
        }
    }
}

#[test]
fn row_spans_raise_alpha_inside_the_image_only() {
    let res = 4;
    let mut data = vec![0u8; res * res * 4];
    raise_alpha_row(&mut data, res, 1, 2, 1, 120);
    raise_alpha_row(&mut data, res, 2, 9, 1, 60);
    for x in 0..res {
        let expected = match x {
            1 | 2 => 120,
            3 => 60,
            _ => 0,
        };
        assert_eq!(alpha(&data, res, x, 1), expected, "column {x}");
    }
    raise_alpha_row(&mut data, res, 0, 3, 7, 255);
    assert_eq!(data.iter().filter(|byte| **byte == 255).count(), 3 * 3);
}
