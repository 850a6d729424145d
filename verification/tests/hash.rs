//! Hashes of objects and files.
use gitx_bounded::hash::{compute_hash, digest, HashedOutput};
use gitx_bounded::index::write::{
    encode_pack_header, index_entry, index_entry_of, or_hash_error, pack_hash, Error,
};
use gitx_bounded::data::Header;
use gitx_bounded::object::{Kind, ObjectId};

fn hex(id: &ObjectId) -> String {
    id.bytes.iter().map(|b| format!("{b:02x}")).collect()
}

#[test]
fn digest_is_sha1() {
    assert_eq!(hex(&digest(b"").unwrap()), "da39a3ee5e6b4b0d3255bfef95601890afd80709");
    assert_eq!(hex(&digest(b"abc").unwrap()), "a9993e364706816aba3e25717850c26c9cd0d89d");
}

#[test]
fn objects_are_named_by_kind_size_and_data() {
    let name = |kind, data: &[u8]| hex(&compute_hash(kind, data).unwrap());
    assert_eq!(name(Kind::Blob, b""), "e69de29bb2d1d6434b8b29ae775ad8c2e48c5391");
    assert_eq!(name(Kind::Blob, b"hello world\n"), "3b18e512dba79e4c8300dd08aeb37f8e728b8dad");
    assert_eq!(name(Kind::Tree, b""), "4b825dc642cb6eb9a060e54bf8d69288fbee4904");
    assert_eq!(Some(compute_hash(Kind::Commit, b"abc").unwrap()), digest(b"commit 3\0abc"));
    assert_eq!(Some(compute_hash(Kind::Tag, b"abc").unwrap()), digest(b"tag 3\0abc"));
}

#[test]
fn pieces_hash_like_the_whole() {
    let mut out = HashedOutput::new();
    assert_eq!(out.bytes(), 0);
    out.write(b"hel");
    out.write(b"");
    out.write(b"lo");
    assert_eq!(out.bytes(), 5);
    assert_eq!(out.finalize(), digest(b"hello"));
}

#[test]
fn pack_header_is_signature_version_and_count() {
    assert_eq!(encode_pack_header(2, 0x0102_0304), b"PACK\0\0\0\x02\x01\x02\x03\x04");
}

#[test]
fn pack_hash_is_the_trailer_or_that_of_an_empty_pack() {
    let trailer = ObjectId { bytes: [7; 20] };
    assert_eq!(pack_hash(Some(trailer), 3, 2).unwrap(), trailer);
    assert_eq!(hex(&pack_hash(None, 0, 2).unwrap()), "029d08823bd8a8eab510ad6ac75c823cfd3ed31e");
    assert!(matches!(pack_hash(None, 3, 2), Err(Error::IteratorInvariantTrailer)));
}

#[test]
fn no_hash_is_an_error() {
    let id = ObjectId { bytes: [1; 20] };
    assert_eq!(or_hash_error(Some(id)).unwrap(), id);
    assert!(matches!(or_hash_error(None), Err(Error::Hash)));
    assert!(matches!(index_entry_of(None, 1, 2), Err(Error::Hash)));
}

#[test]
fn index_entry_names_the_object() {
    let e = index_entry(&Header::Blob, b"hello world\n", 0xcafe, 12).unwrap();
    assert_eq!(hex(&e.id), "3b18e512dba79e4c8300dd08aeb37f8e728b8dad");
    assert_eq!(e.crc32, 0xcafe);
    assert_eq!(e.offset, 12);
}
