use git_odb::data::{Entry, Header};
use git_odb::index_write::{Error, File, Kind, Mode, Outcome};

fn sha1(data: &[u8]) -> Vec<u8> {
    <sha1::Sha1 as sha1::Digest>::digest(data).to_vec()
}

fn object_id(kind: &str, content: &[u8]) -> Vec<u8> {
    let mut buf = Vec::new();
    buf.extend_from_slice(kind.as_bytes());
    buf.push(b' ');
    buf.extend_from_slice(content.len().to_string().as_bytes());
    buf.push(0);
    buf.extend_from_slice(content);
    sha1(&buf)
}

fn blob(ofs: u64, content: &[u8], compressed_len: usize, trailer: Option<Vec<u8>>) -> Entry {
    Entry {
        header: Header::Blob,
        pack_offset: ofs,
        compressed: vec![0xaa; compressed_len],
        decompressed: content.to_vec(),
        trailer,
    }
}

fn ofs_delta(
    ofs: u64,
    base: u64,
    stream: Vec<u8>,
    compressed_len: usize,
    trailer: Option<Vec<u8>>,
) -> Entry {
    Entry {
        header: Header::OfsDelta { base_pack_offset: base },
        pack_offset: ofs,
        compressed: vec![0xbb; compressed_len],
        decompressed: stream,
        trailer,
    }
}

fn build(entries: &Vec<Entry>, threads: Option<usize>) -> Result<(Outcome, Vec<u8>), Error> {
    let mut out = Vec::new();
    let o = File::write_data_iter_to_stream(Kind::V2, Mode::InMemory, entries, threads, &mut out)?;
    Ok((o, out))
}

struct Parsed {
    fanout: Vec<u32>,
    ids: Vec<Vec<u8>>,
    crcs: Vec<u32>,
    offsets: Vec<u32>,
    pack_hash: Vec<u8>,
    index_hash: Vec<u8>,
}

fn parse_index(bytes: &[u8], n: usize) -> Parsed {
    assert_eq!(&bytes[0..4], &[0xff, b't', b'O', b'c']);
    assert_eq!(&bytes[4..8], &[0, 0, 0, 2]);
    let be32 = |at: usize| -> u32 {
        ((bytes[at] as u32) << 24)
            | ((bytes[at + 1] as u32) << 16)
            | ((bytes[at + 2] as u32) << 8)
            | (bytes[at + 3] as u32)
    };
    let mut fanout = Vec::new();
    for b in 0..256 {
        fanout.push(be32(8 + 4 * b));
    }
    let ids_at = 8 + 1024;
    let mut ids = Vec::new();
    for m in 0..n {
        ids.push(bytes[ids_at + 20 * m..ids_at + 20 * m + 20].to_vec());
    }
    let crc_at = ids_at + 20 * n;
    let mut crcs = Vec::new();
    for m in 0..n {
        crcs.push(be32(crc_at + 4 * m));
    }
    let ofs_at = crc_at + 4 * n;
    let mut offsets = Vec::new();
    for m in 0..n {
        offsets.push(be32(ofs_at + 4 * m));
    }
    let tail = ofs_at + 4 * n;
    assert_eq!(bytes.len(), tail + 40, "no 64-bit offsets expected here");
    Parsed {
        fanout,
        ids,
        crcs,
        offsets,
        pack_hash: bytes[tail..tail + 20].to_vec(),
        index_hash: bytes[tail + 20..tail + 40].to_vec(),
    }
}

fn on_pack_base(dec_len: u8, compressed: &[u8]) -> Vec<u8> {
    assert!(dec_len < 16);
    let mut v = vec![0x30u8 | dec_len];
    v.extend_from_slice(compressed);
    v
}

#[test]
fn empty_iterator_is_rejected() {
    let entries: Vec<Entry> = Vec::new();
    assert_eq!(build(&entries, None).unwrap_err(), Error::IteratorInvariantNonEmpty);
}

#[test]
fn unsupported_kind_is_rejected() {
    let entries = vec![blob(12, b"hello", 10, Some(vec![7; 20]))];
    let mut out = Vec::new();
    let r = File::write_data_iter_to_stream(Kind::V1, Mode::InMemory, &entries, None, &mut out);
    assert_eq!(r.unwrap_err(), Error::Unsupported(Kind::V1));
}

#[test]
fn offsets_must_increase() {
    let entries = vec![
        blob(100, b"a", 10, None),
        blob(40, b"b", 10, Some(vec![7; 20])),
    ];
    assert_eq!(
        build(&entries, None).unwrap_err(),
        Error::IteratorInvariantIncreasingPackOffset(100, 40)
    );
}

#[test]
fn ref_deltas_are_rejected() {
    let entries = vec![
        blob(12, b"a", 10, None),
        Entry {
            header: Header::RefDelta { base_id: vec![0; 20] },
            pack_offset: 60,
            compressed: vec![1, 2],
            decompressed: vec![0],
            trailer: Some(vec![7; 20]),
        },
    ];
    assert_eq!(build(&entries, None).unwrap_err(), Error::IteratorInvariantNoRefDelta);
}

#[test]
fn delta_base_must_come_first() {
    let entries = vec![
        blob(12, b"a", 10, None),
        ofs_delta(60, 33, vec![1, 1, 0x01, b'x'], 4, Some(vec![7; 20])),
    ];
    assert_eq!(
        build(&entries, None).unwrap_err(),
        Error::IteratorInvariantBasesBeforeDeltasNeedThem(60, 33)
    );
}

#[test]
fn missing_trailer_is_rejected() {
    let entries = vec![blob(12, b"hello", 10, None)];
    assert_eq!(build(&entries, None).unwrap_err(), Error::IteratorInvariantTrailer);
}

#[test]
fn bad_delta_stream_aborts() {
    // announces a base size of 9, the base has 5 bytes
    let entries = vec![
        blob(12, b"hello", 10, None),
        ofs_delta(60, 12, vec![0x09, 0x01, 0x01, b'x'], 4, Some(vec![7; 20])),
    ];
    assert_eq!(build(&entries, None).unwrap_err(), Error::DeltaApplication(60));
}

#[test]
fn single_base_makes_a_single_entry_index() {
    let entries = vec![blob(12, b"hello", 49, Some(vec![9; 20]))];
    let (o, bytes) = build(&entries, None).unwrap();
    assert_eq!(o.num_objects, 1);
    assert_eq!(o.pack_hash, vec![9; 20]);
    let p = parse_index(&bytes, 1);
    assert_eq!(p.ids[0], object_id("blob", b"hello"));
    assert_eq!(p.offsets[0], 12);
    assert_eq!(p.pack_hash, vec![9; 20]);
    assert_eq!(p.crcs[0], crc32fast::hash(&on_pack_base(5, &vec![0xaa; 49])));
    assert_eq!(p.index_hash, sha1(&bytes[..bytes.len() - 20]));
    // fanout row: cumulative count by leading id byte
    let fb = p.ids[0][0] as usize;
    for b in 0..256 {
        assert_eq!(p.fanout[b], if b >= fb { 1 } else { 0 });
    }
}

#[test]
fn three_bases_sorted_by_id() {
    let trailer = vec![3; 20];
    // entry lengths 50, 80 and 40 starting at offsets 12, 100 and 250:
    // a one-byte header plus the compressed payload
    let entries = vec![
        blob(12, b"alpha", 49, None),
        blob(100, b"beta", 79, None),
        blob(250, b"gamma", 39, Some(trailer.clone())),
    ];
    let (o, bytes) = build(&entries, None).unwrap();
    assert_eq!(o.num_objects, 3);
    assert_eq!(o.pack_hash, trailer);
    let p = parse_index(&bytes, 3);
    let mut expected: Vec<(Vec<u8>, u32, u32)> = vec![
        (object_id("blob", b"alpha"), 12, crc32fast::hash(&on_pack_base(5, &vec![0xaa; 49]))),
        (object_id("blob", b"beta"), 100, crc32fast::hash(&on_pack_base(4, &vec![0xaa; 79]))),
        (object_id("blob", b"gamma"), 250, crc32fast::hash(&on_pack_base(5, &vec![0xaa; 39]))),
    ];
    expected.sort();
    for m in 0..3 {
        assert_eq!(p.ids[m], expected[m].0);
        assert_eq!(p.offsets[m], expected[m].1);
        assert_eq!(p.crcs[m], expected[m].2);
    }
    for m in 1..3 {
        assert!(p.ids[m - 1] < p.ids[m], "id table must be strictly sorted");
    }
}

#[test]
fn offset_delta_resolves_against_base() {
    // "hello" extended to "hello world": copy five bytes, insert six
    let stream = vec![0x05, 0x0b, 0x91, 0x00, 0x05, 0x06, b' ', b'w', b'o', b'r', b'l', b'd'];
    let entries = vec![
        blob(12, b"hello", 10, None),
        ofs_delta(60, 12, stream, 8, Some(vec![5; 20])),
    ];
    let (o, bytes) = build(&entries, None).unwrap();
    assert_eq!(o.num_objects, 2);
    let p = parse_index(&bytes, 2);
    let id_base = object_id("blob", b"hello");
    let id_child = object_id("blob", b"hello world");
    let find = |id: &Vec<u8>| p.ids.iter().position(|x| x == id).unwrap();
    assert_eq!(p.offsets[find(&id_base)], 12);
    assert_eq!(p.offsets[find(&id_child)], 60);
    // both ids raise the fanout row of their first byte
    let mut rows = vec![0u32; 256];
    for id in [&id_base, &id_child] {
        for b in id[0] as usize..256 {
            rows[b] += 1;
        }
    }
    assert_eq!(p.fanout, rows);
}

#[test]
fn delta_chain_and_second_base() {
    // B1 "aa" at 12; D1 at 60 applies to B1 and yields "aab"; D2 at 120
    // applies to D1 and yields "b"; B2 "zz" at 200 has no dependents
    let d1 = vec![0x02, 0x03, 0x03, b'a', b'a', b'b'];
    let d2 = vec![0x03, 0x01, 0x91, 0x02, 0x01];
    let entries = vec![
        blob(12, b"aa", 10, None),
        ofs_delta(60, 12, d1, 4, None),
        ofs_delta(120, 60, d2, 4, None),
        blob(200, b"zz", 10, Some(vec![1; 20])),
    ];
    let (o, bytes) = build(&entries, None).unwrap();
    assert_eq!(o.num_objects, 4);
    let p = parse_index(&bytes, 4);
    let find = |id: &Vec<u8>| p.ids.iter().position(|x| x == id).unwrap();
    assert_eq!(p.offsets[find(&object_id("blob", b"aa"))], 12);
    assert_eq!(p.offsets[find(&object_id("blob", b"aab"))], 60);
    assert_eq!(p.offsets[find(&object_id("blob", b"b"))], 120);
    assert_eq!(p.offsets[find(&object_id("blob", b"zz"))], 200);
    for m in 1..4 {
        assert!(p.ids[m - 1] < p.ids[m]);
    }
}

#[test]
fn thread_limit_does_not_change_the_bytes() {
    let stream = vec![0x05, 0x0b, 0x91, 0x00, 0x05, 0x06, b' ', b'w', b'o', b'r', b'l', b'd'];
    let entries = vec![
        blob(12, b"hello", 10, None),
        ofs_delta(60, 12, stream, 8, Some(vec![5; 20])),
    ];
    let (_, b1) = build(&entries, None).unwrap();
    let (_, b2) = build(&entries, Some(1)).unwrap();
    let (_, b3) = build(&entries, Some(8)).unwrap();
    assert_eq!(b1, b2);
    assert_eq!(b1, b3);
}

#[test]
fn modes_agree_on_the_output() {
    let entries = vec![blob(12, b"hello", 10, Some(vec![9; 20]))];
    let mut o1 = Vec::new();
    let mut o2 = Vec::new();
    File::write_data_iter_to_stream(Kind::V2, Mode::InMemory, &entries, None, &mut o1).unwrap();
    File::write_data_iter_to_stream(Kind::V2, Mode::InMemoryDecompressed, &entries, None, &mut o2)
        .unwrap();
    assert_eq!(o1, o2);
}
