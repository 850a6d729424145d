//! Numbers in bytes, and names of objects.
use gitx_bounded::bytes::{get_be, get_le, put_be, put_le, set_le};
use gitx_bounded::data::Header;
use gitx_bounded::object::{Kind, ObjectId};

#[test]
fn numbers_come_back_from_bytes() {
    let mut out = vec![9];
    put_le(&mut out, 0x0102_0304, 4);
    put_be(&mut out, 0x0506_0708, 4);
    assert_eq!(out, vec![9, 4, 3, 2, 1, 5, 6, 7, 8]);
    assert_eq!(get_le(&out, 1, 4), 0x0102_0304);
    assert_eq!(get_be(&out, 5, 4), 0x0506_0708);
    set_le(&mut out, 2, 0xffee, 2);
    assert_eq!(out, vec![9, 4, 0xee, 0xff, 1, 5, 6, 7, 8]);
}

#[test]
fn names_are_ordered_byte_by_byte() {
    let id = |first: u8, last: u8| {
        let mut bytes = [0; 20];
        bytes[0] = first;
        bytes[19] = last;
        ObjectId { bytes }
    };
    for (a, b) in [(id(1, 9), id(2, 0)), (id(1, 0), id(1, 1)), (id(3, 3), id(3, 3)), (id(255, 0), id(0, 255))] {
        assert_eq!(a.is_before(&b), a < b);
        assert_eq!(b.is_before(&a), b < a);
        if a <= b {
            assert!(a.first_byte() <= b.first_byte());
        }
    }
    let mut out = vec![7];
    id(1, 2).append_to(&mut out);
    assert_eq!(out.len(), 21);
    assert_eq!(ObjectId::from_bytes_at(&out, 1), id(1, 2));
}

#[test]
fn bases_lie_before_their_deltas() {
    assert_eq!(Header::verified_base_pack_offset(100, 40), Some(60));
    assert_eq!(Header::verified_base_pack_offset(100, 100), Some(0));
    assert_eq!(Header::verified_base_pack_offset(100, 101), None);
    assert_eq!(Header::verified_base_pack_offset(100, 0), None);
    assert_eq!(Header::Tag.as_kind(), Some(Kind::Tag));
    assert_eq!(Header::OfsDelta { base_distance: 1 }.as_kind(), None);
}
