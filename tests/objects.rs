use rit::codec::{from_hex, push_decimal, to_hex};
use rit::error::RitError;
use rit::object::{
    compress, decompress, frame_object, hash_object, hash_object_hex, read_object, store_object,
    strip_header, ObjectKind, ObjectStore,
};

#[test]
fn empty_blob_has_the_well_known_hash() {
    assert_eq!(
        hash_object_hex(ObjectKind::Blob, b""),
        "e69de29bb2d1d6434b8b29ae775ad8c2e48c5391"
    );
}

#[test]
fn blob_hash_frames_type_and_length() {
    assert_eq!(
        hash_object_hex(ObjectKind::Blob, b"hello\n"),
        "ce013625030ba8dba906f756967f9e9ca394464a"
    );
    assert_eq!(hash_object(ObjectKind::Blob, b"hello\n").len(), 20);
}

#[test]
fn frame_object_writes_header() {
    assert_eq!(frame_object(ObjectKind::Blob, b"abc"), b"blob 3\0abc".to_vec());
    assert_eq!(frame_object(ObjectKind::Tree, b""), b"tree 0\0".to_vec());
    let long = vec![7u8; 1234];
    let f = frame_object(ObjectKind::Commit, &long);
    assert_eq!(&f[..12], b"commit 1234\0");
    assert_eq!(f.len(), 12 + 1234);
}

#[test]
fn decimal_digits() {
    let mut v = Vec::new();
    push_decimal(&mut v, 0);
    push_decimal(&mut v, 7);
    v.push(b' ');
    push_decimal(&mut v, 1700000000);
    assert_eq!(v, b"07 1700000000".to_vec());
}

#[test]
fn hex_round_trip_and_errors() {
    assert_eq!(to_hex(&[0x00, 0xab, 0x10]), "00ab10");
    assert_eq!(from_hex(b"00AB10"), Some(vec![0x00, 0xab, 0x10]));
    assert_eq!(from_hex(b"abc"), None);
    assert_eq!(from_hex(b"zz"), None);
}

#[test]
fn content_addressing_writes_once() {
    let mut store = ObjectStore::new();
    let a = store_object(&mut store, ObjectKind::Blob, b"same bytes");
    let b = store_object(&mut store, ObjectKind::Blob, b"same bytes");
    assert_eq!(a, b);
    assert_eq!(store.len(), 1);
    assert_eq!(read_object(&store, &a), Ok(b"same bytes".to_vec()));
    let c = store_object(&mut store, ObjectKind::Blob, b"other");
    assert_ne!(a, c);
    assert_eq!(store.len(), 2);
}

#[test]
fn write_object_keeps_first_content() {
    let mut store = ObjectStore::new();
    assert!(store.write_object(b"k", b"blob 1\0x"));
    assert!(!store.write_object(b"k", b"blob 1\0y"));
    assert_eq!(store.get(b"k"), Some(&b"blob 1\0x".to_vec()));
    assert!(store.contains(b"k"));
    assert!(!store.contains(b"j"));
}

#[test]
fn read_object_errors() {
    let mut store = ObjectStore::new();
    assert_eq!(read_object(&store, b"missing"), Err(RitError::NotFound));
    store.write_object(b"bad", b"no header here");
    assert_eq!(read_object(&store, b"bad"), Err(RitError::InvalidData));
    assert_eq!(strip_header(b"tree 2\0ab"), Ok(b"ab".to_vec()));
    assert_eq!(strip_header(b"nothing"), Err(RitError::InvalidData));
}

#[test]
fn compression_round_trip() {
    let framed = frame_object(ObjectKind::Blob, b"compress me, compress me, compress me");
    let z = compress(&framed);
    assert_ne!(z, framed);
    assert_eq!(decompress(&z), Ok(framed));
    assert_eq!(decompress(b"not zlib at all"), Err(RitError::InvalidData));
}

#[test]
fn store_entries_in_insertion_order() {
    let mut store = ObjectStore::new();
    let a = store_object(&mut store, ObjectKind::Blob, b"a");
    let b = store_object(&mut store, ObjectKind::Blob, b"b");
    let (id0, obj0) = store.entry(0);
    let (id1, _) = store.entry(1);
    assert_eq!(id0, &a);
    assert_eq!(id1, &b);
    assert_eq!(obj0, &b"blob 1\0a".to_vec());
}
