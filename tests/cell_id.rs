use gistools::cell_id::{lsb_for_level, size_ij};
use gistools::hilbert::ij_level_to_bound_ij;
use gistools::S2CellId;

#[test]
fn id_new() {
    let id = 1152921504606846977_u64;
    let cid = S2CellId::new(id);
    assert_eq!(cid.id, id);
    let face = S2CellId::from_face(0);
    assert!(face.is_valid());
    assert!(face.is_face());
    let face_child = face.child(0);
    assert!(!face_child.is_face());

    assert_eq!(cid.low_bits(), 1);
    assert_eq!(cid.high_bits(), 268435456);

    let none = S2CellId::none();
    assert_eq!(none.id, 0);

    let sentinel = S2CellId::sentinel();
    assert_eq!(sentinel.id, 18446744073709551615);
}

#[test]
fn to_string() {
    let id = S2CellId::from_face(3).child(0).child(2);
    assert_eq!(id.to_string(), "3/02");

    let string = "3/02";
    let str_id: S2CellId = string.into();
    assert_eq!(str_id, id);

    let string_type = string.to_string();
    let str_type_id: S2CellId = string_type.into();
    assert_eq!(str_type_id, id);

    let invalid = S2CellId::sentinel();
    assert_eq!(invalid.to_string(), "Invalid");
}

#[test]
fn from_face() {
    let id = S2CellId::from_face(0);
    assert_eq!(id.id, 1152921504606846976);
    let id = S2CellId::from_face(1);
    assert_eq!(id.id, 3458764513820540928);
    let id = S2CellId::from_face(2);
    assert_eq!(id.id, 5764607523034234880);
    let id = S2CellId::from_face(3);
    assert_eq!(id.id, 8070450532247928832);
    let id = S2CellId::from_face(4);
    assert_eq!(id.id, 10376293541461622784);
    let id = S2CellId::from_face(5);
    assert_eq!(id.id, 12682136550675316736);
}

#[test]
fn next() {
    assert_eq!(S2CellId::from_face(0).next(), S2CellId::new(3458764513820540928));
    assert_eq!(S2CellId::from_face(1).next(), S2CellId::new(5764607523034234880));
    assert_eq!(S2CellId::from_face(2).next(), S2CellId::new(8070450532247928832));
    assert_eq!(S2CellId::from_face(3).next(), S2CellId::new(10376293541461622784));

    let wrap = S2CellId::from_face(5).next().next().next();
    assert_eq!(wrap, S2CellId::from_face(2));
}

#[test]
fn parent() {
    let id = S2CellId::from_face(0);
    let child = id.child(0).child(2).child(3);
    assert_eq!(child.parent(None), id.child(0).child(2));
    assert_eq!(child.parent(Some(0)), id);
}

#[test]
fn range() {
    assert_eq!(
        S2CellId::from_face(0).range(),
        (S2CellId::new(1), S2CellId::new(2305843009213693951))
    );
}

#[test]
fn contains() {
    assert!(S2CellId::from_face(0).contains(S2CellId::from_face(0)));
    assert!(!S2CellId::from_face(0).contains(S2CellId::from_face(1)));
    assert!(S2CellId::from_face(0).contains(S2CellId::from_face(0).child(1)));
}

#[test]
fn intersects() {
    assert!(S2CellId::from_face(0).intersects(S2CellId::from_face(0)));
    assert!(!S2CellId::from_face(0).intersects(S2CellId::from_face(1)));
    assert!(S2CellId::from_face(0).intersects(S2CellId::from_face(0).child(1)));
}

#[test]
fn prev() {
    assert_eq!(S2CellId::from_face(1).prev(), S2CellId::new(1152921504606846976));
    assert_eq!(S2CellId::from_face(2).prev(), S2CellId::new(3458764513820540928));
    assert_eq!(S2CellId::from_face(3).prev(), S2CellId::new(5764607523034234880));
    assert_eq!(S2CellId::from_face(4).prev(), S2CellId::new(8070450532247928832));
    assert_eq!(S2CellId::from_face(5).prev(), S2CellId::new(10376293541461622784));

    let id = S2CellId::from_face(2);
    let next2 = id.next().next();
    let prev2 = next2.prev().prev();
    assert_eq!(id, prev2);

    let wrap = S2CellId::from_face(0).prev().prev().prev();
    assert_eq!(wrap, S2CellId::from_face(3));
}

#[test]
fn children() {
    assert_eq!(
        S2CellId::from_face(0).children(None),
        [
            S2CellId::new(288230376151711744),
            S2CellId::new(2017612633061982208),
            S2CellId::new(1441151880758558720),
            S2CellId::new(864691128455135232),
        ]
    );
    assert_eq!(
        S2CellId::from_face(0).children(Some(0)),
        [
            S2CellId::new(288230376151711744),
            S2CellId::new(864691128455135232),
            S2CellId::new(1441151880758558720),
            S2CellId::new(2017612633061982208),
        ]
    );
}

#[test]
fn children_ij() {
    assert_eq!(
        S2CellId::children_ij(0, 0, 0, 0),
        [
            S2CellId::new(288230376151711744),
            S2CellId::new(2017612633061982208),
            S2CellId::new(864691128455135232),
            S2CellId::new(1441151880758558720),
        ]
    )
}

#[test]
fn pos() {
    assert_eq!(S2CellId::from_face(0).pos(), 1152921504606846976);
    assert_eq!(S2CellId::from_face(1).pos(), 1152921504606846976);
    assert_eq!(S2CellId::from_face(2).pos(), 1152921504606846976);
    assert_eq!(S2CellId::from_face(3).pos(), 1152921504606846976);
}

#[test]
fn from_distance() {
    assert_eq!(S2CellId::from_distance(0, None), S2CellId::new(1));
    assert_eq!(S2CellId::from_distance(1, None), S2CellId::new(3));
    assert_eq!(S2CellId::from_distance(2, None), S2CellId::new(5));
    assert_eq!(S2CellId::from_distance(3, None), S2CellId::new(7));
    assert_eq!(S2CellId::from_distance(4, None), S2CellId::new(9));
    assert_eq!(S2CellId::from_distance(5, None), S2CellId::new(11));
}

#[test]
fn to_zoom_ij() {
    assert_eq!(S2CellId::from_face(0).to_zoom_ij(None), (0, 536870912, 536870912));
    assert_eq!(S2CellId::from_face(1).to_zoom_ij(None), (1, 536870912, 536870912));
    assert_eq!(S2CellId::from_face(2).to_zoom_ij(None), (2, 536870912, 536870912));
    assert_eq!(S2CellId::from_face(3).to_zoom_ij(None), (3, 536870912, 536870912));
    assert_eq!(S2CellId::from_face(3).to_zoom_ij(Some(0)), (3, 0, 0));
}

#[test]
fn get_size_ij() {
    let id = S2CellId::from_face(0);
    let child = id.child(0).child(2).child(1).child(2).child(3);
    assert_eq!(id.get_size_ij(), 1073741824);
    assert_eq!(child.get_size_ij(), 33554432);
}

#[test]
fn face_zero_cell_encoding() {
    assert_eq!(S2CellId::from_face(0).id, 1152921504606846976);
    let id = S2CellId::from_face(3).child(0).child(2);
    assert_eq!(id.display_name(), "3/02");
    assert_eq!(S2CellId::from_string("3/02"), id);
}

#[test]
fn malformed_strings_give_none() {
    assert_eq!(S2CellId::from_string(""), S2CellId::none());
    assert_eq!(S2CellId::from_string("3"), S2CellId::none());
    assert_eq!(S2CellId::from_string("6/"), S2CellId::none());
    assert_eq!(S2CellId::from_string("3-0"), S2CellId::none());
    assert_eq!(S2CellId::from_string("3/04"), S2CellId::none());
    assert_eq!(S2CellId::from_string("3/0123012301230123012301230123012"), S2CellId::none());
    assert_eq!(S2CellId::from_string("4/"), S2CellId::from_face(4));
}

#[test]
fn leaf_string_round_trip() {
    let text = "5/012301230123012301230123012301";
    let leaf = S2CellId::from_string(text);
    assert!(leaf.is_valid());
    assert!(leaf.is_leaf());
    assert_eq!(leaf.level(), 30);
    assert_eq!(leaf.to_string(), text);
}

#[test]
fn parent_of_child_round_trip() {
    let c = S2CellId::from_face(4).child(1).child(3).child(2);
    let k = c.level();
    assert_eq!(k, 3);
    assert_eq!(c.parent(None).level(), k - 1);
    assert_eq!(c.parent(None).child(c.child_position(k)), c);
    assert_eq!(c.child_position(1), 1);
    assert_eq!(c.child_position(2), 3);
}

#[test]
fn descendants_within_range() {
    let p = S2CellId::from_face(1).child(2);
    let d = p.child(3).child(0).child(1);
    let (min, max) = p.range();
    assert!(p.contains(d));
    assert!(min.id <= d.id && d.id <= max.id);
    assert!(!d.contains(p));
}

#[test]
fn next_prev_inverse() {
    let c = S2CellId::from_face(2).child(1).child(1);
    assert_eq!(c.next().prev(), c);
    assert_eq!(c.prev().next(), c);
    let last = S2CellId::from_face(5).child(3);
    assert_eq!(last.next(), S2CellId::from_face(0).child(0));
    assert_eq!(last.next().prev(), last);
}

#[test]
fn face_ij_round_trip() {
    let cases: [(u8, u32, u32); 4] = [(0, 0, 0), (1, 12345, 678901), (4, 1073741823, 5), (5, 536870912, 1073741823)];
    for (face, i, j) in cases {
        let id = S2CellId::from_face_ij(face, i, j, None);
        assert!(id.is_leaf());
        let (f, ri, rj, _o) = id.to_face_ij_orientation(None);
        assert_eq!((f, ri, rj), (face, i, j));
    }
    let cell = S2CellId::from_face_ij(3, 5, 9, Some(4));
    assert_eq!(cell.level(), 4);
    assert_eq!(cell.to_zoom_ij(Some(4)), (3, 5, 9));
}

#[test]
fn level_helpers() {
    assert_eq!(lsb_for_level(30), 1);
    assert_eq!(lsb_for_level(0), 1152921504606846976);
    assert_eq!(size_ij(0), 1073741824);
    assert_eq!(size_ij(30), 1);
    assert_eq!(S2CellId::from_face(0).child(3).level(), 1);
    assert!(S2CellId::new(4).is_valid());
    assert_eq!(S2CellId::new(4).level(), 29);
    assert!(!S2CellId::new(2).is_valid());
    assert!(!S2CellId::new(13835058055282163713).is_valid());
}

#[test]
fn vertex_neighbors() {
    let id = S2CellId::from_face(0);
    assert_eq!(
        id.vertex_neighbors(None),
        vec![
            S2CellId::new(1152921504606846976),
            S2CellId::new(3458764513820540928),
            S2CellId::new(5764607523034234880)
        ]
    );
    let id: S2CellId = 123974589433424.into();
    assert_eq!(
        id.vertex_neighbors(None),
        vec![
            S2CellId::new(123974589433424),
            S2CellId::new(123974589433584),
            S2CellId::new(123974589433776),
            S2CellId::new(123974589433616)
        ]
    );
}

#[test]
fn neighbors() {
    let id = S2CellId::from_face(0);
    assert_eq!(
        id.neighbors(),
        [
            S2CellId::new(12682136550675316736),
            S2CellId::new(3458764513820540928),
            S2CellId::new(5764607523034234880),
            S2CellId::new(10376293541461622784)
        ]
    );
}

#[test]
fn neighbors_ij() {
    assert_eq!(
        S2CellId::neighbors_ij(0, 0, 0, 0),
        [
            S2CellId::new(12682136550675316736),
            S2CellId::new(3458764513820540928),
            S2CellId::new(5764607523034234880),
            S2CellId::new(10376293541461622784)
        ]
    );
}

#[test]
fn face_wrap_across_edges() {
    let max = 1073741823;
    assert_eq!(S2CellId::from_face_ij_wrap(0, -1, 7), S2CellId::from_face_ij(4, max - 7, max, None));
    assert_eq!(S2CellId::from_face_ij_wrap(1, 1073741824, 7), S2CellId::from_face_ij(3, max - 7, 0, None));
    assert_eq!(S2CellId::from_face_ij_wrap(3, 9, -50), S2CellId::from_face_ij(1, max, max - 9, None));
    assert_eq!(S2CellId::from_face_ij_wrap(2, 5, 6), S2CellId::from_face_ij(2, 5, 6, None));
    assert_eq!(S2CellId::from_ij_same(5, 11, 12, true), S2CellId::from_face_ij(5, 11, 12, None));
}

#[test]
fn lowest_set_bit() {
    assert_eq!(S2CellId::new(0).lsb(), 0);
    assert_eq!(S2CellId::new(2).lsb(), 2);
    assert_eq!(S2CellId::new(12).lsb(), 4);
    assert_eq!(S2CellId::from_face(0).lsb(), 1152921504606846976);
    assert_eq!(S2CellId::from_face(2).child(1).lsb(), 288230376151711744);
}

#[test]
fn display_text_parses_back() {
    let mut c = S2CellId::from_face(2);
    for pos in [1u8, 3, 0, 2, 2, 1, 3, 0, 1, 1, 2] {
        let text = c.display_name();
        assert_eq!(S2CellId::from_string(&text), c);
        c = c.child(pos);
    }
    assert_eq!(c.to_string(), "2/13022130112");
    assert_eq!(S2CellId::from_string(&c.to_string()), c);
}

#[test]
fn integer_center_and_bounds() {
    assert_eq!(ij_level_to_bound_ij(5, 9, 30), (5, 9, 6, 10));
    assert_eq!(ij_level_to_bound_ij(536870913, 3, 1), (536870912, 0, 1073741824, 536870912));
    assert_eq!(ij_level_to_bound_ij(12345, 678, 0), (0, 0, 1073741824, 1073741824));
    assert_eq!(S2CellId::from_face(0).center_si_ti(), (0, 1073741824, 1073741824));
    assert_eq!(S2CellId::from_face(1).child(0).center_si_ti(), (1, 536870912, 536870912));
    let leaf = S2CellId::from_face_ij(2, 7, 9, None);
    assert_eq!(leaf.center_si_ti(), (2, 15, 19));
    assert_eq!(S2CellId::from_face(0).distance_at(0), 0);
    assert_eq!(S2CellId::from_face(0).distance_at(1), 2);
    assert_eq!(S2CellId::from_face(0).distance_at(2), 8);
    assert_eq!(S2CellId::from_face(0).distance_at(3), 32);
}

