use gistools::coords::{get_uvw_face, invert_bits, swap_axes, S2Projection};
use gistools::tile::tile_to_bbox;
use gistools::reader::BufferReader;
use gistools::cell_id::compare_s2_cell_id;
use gistools::uint64::compare_uint64;
use gistools::Uint64;

#[test]
fn test_tile_to_bbox() {
    assert_eq!(tile_to_bbox((0, 0, 0), None), (0, 0, 512, 512));
    assert_eq!(tile_to_bbox((1, 0, 0), None), (0, 0, 512, 512));
    assert_eq!(tile_to_bbox((1, 1, 0), None), (512, 0, 1024, 512));
    assert_eq!(tile_to_bbox((2, 2, 2), None), (1024, 1024, 1536, 1536));
    assert_eq!(tile_to_bbox((2, 3, 1), Some(256)), (768, 256, 1024, 512));
}

#[test]
fn uint64_halves() {
    assert_eq!(Uint64::new(7).id, 7);
    assert_eq!(Uint64::from_low_high(1, 268435456).id, 1152921504606846977);
    assert_eq!(Uint64::from_low_high(u32::MAX, u32::MAX).id, u64::MAX);
}

#[test]
fn face_tables() {
    assert_eq!(get_uvw_face(4, 0, 1), 5);
    assert_eq!(get_uvw_face(0, 2, 0), 3);
    assert_eq!(get_uvw_face(5, 1, 1), 0);
    assert_eq!(swap_axes(1), 2);
    assert_eq!(swap_axes(2), 1);
    assert_eq!(swap_axes(3), 3);
    assert_eq!(invert_bits(0), 3);
    assert_eq!(invert_bits(2), 1);
    assert_eq!(S2Projection::default(), S2Projection::S2QuadraticProjection);
}

#[test]
fn buffer_reader_position() {
    let mut r = BufferReader::new(vec![1, 2, 3]);
    assert_eq!(r.byte_length(), 3);
    assert_eq!(r.tell(), 0);
    r.seek(2);
    assert_eq!(r.tell(), 2);
    assert_eq!(r.buffer, vec![1, 2, 3]);
}

#[test]
fn uint64_operations() {

    let a = Uint64::new(12);
    let b = Uint64::new(10);
    assert_eq!(a.add(&b).id, 22);
    assert_eq!(a.sub(&b).id, 2);
    assert_eq!(a.mul(&b).id, 120);
    assert_eq!(a.div(&b).id, 1);
    assert_eq!(a.shift_left(2).id, 48);
    assert_eq!(a.shift_right(2).id, 3);
    assert_eq!(Uint64::new(u64::MAX).shift_left(60).id, 0xF000_0000_0000_0000);
    assert_eq!(a.bit_and(&b).id, 8);
    assert_eq!(a.bit_or(&b).id, 14);
    assert_eq!(a.bit_xor(&b).id, 6);
    assert_eq!(Uint64::new(0).bit_not().id, u64::MAX);
    let c = Uint64::from_low_high(7, 9);
    assert_eq!((c.low_bits(), c.high_bits()), (7, 9));
    assert_eq!(compare_uint64(&a, &b), 1);
    assert_eq!(compare_uint64(&b, &a), -1);
    assert_eq!(compare_uint64(&a, &a), 0);
}

#[test]
fn cell_id_comparison() {

    let a = gistools::S2CellId::from_face(1);
    let b = gistools::S2CellId::from_face(2);
    assert_eq!(compare_s2_cell_id(&a, &b), -1);
    assert_eq!(compare_s2_cell_id(&b, &a), 1);
    assert_eq!(compare_s2_cell_id(&a, &a), 0);
}
