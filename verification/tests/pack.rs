use git_odb::data::Header;
use git_odb::pack_file::{Entry, Error, File, Kind};

fn pack_bytes(version: u32, num_objects: u32, payload: &[u8]) -> Vec<u8> {
    let mut v = Vec::new();
    v.extend_from_slice(b"PACK");
    v.extend_from_slice(&version.to_be_bytes());
    v.extend_from_slice(&num_objects.to_be_bytes());
    v.extend_from_slice(payload);
    // the trailing content hash
    v.extend_from_slice(&[0u8; 20]);
    v
}

#[test]
fn parses_the_pack_header() {
    let f = File::from_bytes(pack_bytes(2, 7, &[0; 8])).unwrap();
    assert_eq!(f.kind(), Kind::V2);
    assert_eq!(f.num_objects(), 7);
    let f3 = File::from_bytes(pack_bytes(3, 1, &[0; 8])).unwrap();
    assert_eq!(f3.kind(), Kind::V3);
}

#[test]
fn rejects_foreign_bytes() {
    assert_eq!(File::from_bytes(vec![0; 10]).unwrap_err(), Error::Corrupt);
    let mut bad = pack_bytes(2, 0, &[0; 8]);
    bad[0] = b'Q';
    assert_eq!(File::from_bytes(bad).unwrap_err(), Error::Corrupt);
    assert_eq!(
        File::from_bytes(pack_bytes(5, 0, &[0; 8])).unwrap_err(),
        Error::UnsupportedVersion(5)
    );
}

#[test]
fn decodes_a_base_entry() {
    let compressed = miniz_oxide::deflate::compress_to_vec_zlib(b"hello", 6);
    let data = pack_bytes(2, 1, &compressed);
    let f = File::from_bytes(data).unwrap();
    let entry = Entry { header: Header::Blob, size: 5, offset: 12 };
    let mut out = Vec::new();
    f.decode_entry(&entry, &mut out).unwrap();
    assert_eq!(out, b"hello");
}

#[test]
fn reports_a_broken_stream() {
    let data = pack_bytes(2, 1, &[0x99, 0x99, 0x99, 0x99]);
    let f = File::from_bytes(data).unwrap();
    let entry = Entry { header: Header::Blob, size: 5, offset: 12 };
    let mut out = Vec::new();
    assert_eq!(f.decode_entry(&entry, &mut out).unwrap_err(), Error::ZlibInflate);
}
