use cosmic_terrain::hashing::{detail_hash_bits, scatter_hash_bits};
use cosmic_terrain::imagery::cube_face_name;
use cosmic_terrain::patch::CubeFace;

#[test]
fn detail_hash_matches_its_mixing_steps() {
    let h = 3u64.wrapping_mul(374_761_393).wrapping_add(5u64.wrapping_mul(668_265_263));
    let h = (h ^ (h >> 13)).wrapping_mul(1_274_126_177);
    assert_eq!(detail_hash_bits(3, 5), (h ^ (h >> 16)) & 0x00FF_FFFF);
    assert!(detail_hash_bits(-7, 11) <= 0x00FF_FFFF);
    assert_eq!(detail_hash_bits(0, 0), 0);
}

#[test]
fn scatter_hash_is_deterministic_and_48_bit() {
    let a = scatter_hash_bits(1, 2, 3);
    assert_eq!(a, scatter_hash_bits(1, 2, 3));
    assert_ne!(a, scatter_hash_bits(1, 3, 2));
    assert!(a < 1 << 48);
    assert_eq!(scatter_hash_bits(0, 0, 0), 0);
}

#[test]
fn imagery_faces_use_the_package_directory_names() {
    assert_eq!(cube_face_name(CubeFace::NegX), "neg_x");
    assert_eq!(cube_face_name(CubeFace::PosZ), "pos_z");
}
