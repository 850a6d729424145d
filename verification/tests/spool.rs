//! The append-only scratch file.
use gitx_bounded::cache::delta::traverse::spool::{SpoolFile, SpoolHandle};

fn append(spool: &mut SpoolFile, image: &mut Vec<u8>, data: &[u8]) -> u64 {
    let offset = spool.append(data);
    assert_eq!(offset, image.len() as u64);
    image.extend_from_slice(data);
    offset
}

#[test]
fn append_then_read_roundtrip_single_thread() {
    let mut spool = SpoolFile::new();
    let mut image = Vec::new();
    let a = append(&mut spool, &mut image, b"hello");
    let b = append(&mut spool, &mut image, b", ");
    let c = append(&mut spool, &mut image, b"world");
    assert_eq!(a, 0);
    assert_eq!(b, 5);
    assert_eq!(c, 7);
    assert_eq!(SpoolFile::read_exact(&image, a, 5).unwrap(), b"hello");
    assert_eq!(SpoolFile::read_exact(&image, c, 5).unwrap(), b"world");
    assert_eq!(SpoolFile::read_exact(&image, b, 2).unwrap(), b", ");
    assert_eq!(spool.bytes_written(), 12);
}

#[test]
fn handle_is_lazy_until_first_create() {
    let mut h = SpoolHandle::new();
    assert_eq!(h.bytes_written(), 0, "no file yet, nothing written");
    h.get_or_create();
    assert_eq!(h.bytes_written(), 0);
    h.get_or_create().append(b"x");
    assert_eq!(
        h.get_or_create().bytes_written(),
        1,
        "SpoolHandle must return the same SpoolFile across calls"
    );
    assert_eq!(h.bytes_written(), 1, "handle reflects underlying file state");
}

#[test]
fn reading_past_the_end_fails() {
    let image = b"hello".to_vec();
    assert_eq!(SpoolFile::read_exact(&image, 5, 0).unwrap(), b"");
    assert!(SpoolFile::read_exact(&image, 5, 1).is_none());
    assert!(SpoolFile::read_exact(&image, 6, 1).is_none());
    assert_eq!(SpoolFile::read_exact(&image, 6, 0).unwrap(), b"", "no bytes are read anywhere");
    assert!(SpoolFile::read_exact(&image, u64::MAX, usize::MAX).is_none());
}

#[test]
fn what_was_appended_stays_readable() {
    let mut spool = SpoolFile::new();
    let mut image = Vec::new();
    let mut written = Vec::new();
    for i in 0..100u8 {
        let data = vec![i; i as usize];
        written.push((append(&mut spool, &mut image, &data), data));
    }
    for (offset, data) in written {
        assert_eq!(SpoolFile::read_exact(&image, offset, data.len()).unwrap(), data);
    }
    assert_eq!(spool.bytes_written(), 4950);
}
