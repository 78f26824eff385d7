use git_odb::explode::{explode_pack, verify_written, ExplodeError, SafetyCheck};
use git_odb::index::{build_index, IndexError, IterationMode};
use git_odb::kind::Kind;
use git_odb::pack::read_pack_header;
use git_odb::verify_pack::{verify_pack, Algorithm, Mode, VerifyError};

fn zlib(data: &[u8]) -> Vec<u8> {
    let mut enc = flate2::bufread::ZlibEncoder::new(data, flate2::Compression::default());
    let mut out = Vec::new();
    std::io::Read::read_to_end(&mut enc, &mut out).unwrap();
    out
}

fn sha1(data: &[u8]) -> Vec<u8> {
    <sha1::Sha1 as sha1::Digest>::digest(data).to_vec()
}

fn entry_header(code: u8, size: usize) -> Vec<u8> {
    let mut out = Vec::new();
    let mut sz = size >> 4;
    let mut first = ((code & 7) << 4) | ((size & 15) as u8);
    if sz > 0 {
        first |= 0x80;
    }
    out.push(first);
    while sz > 0 {
        let mut b = (sz & 0x7f) as u8;
        sz >>= 7;
        if sz > 0 {
            b |= 0x80;
        }
        out.push(b);
    }
    out
}

/// Raw pieces, one per entry: entry header plus payload, already framed.
fn seal_pack(count: u32, pieces: &[Vec<u8>]) -> Vec<u8> {
    let mut pack = b"PACK".to_vec();
    pack.extend_from_slice(&2u32.to_be_bytes());
    pack.extend_from_slice(&count.to_be_bytes());
    for p in pieces {
        pack.extend_from_slice(p);
    }
    let trailer = sha1(&pack);
    pack.extend_from_slice(&trailer);
    pack
}

fn whole_entry(code: u8, content: &[u8]) -> Vec<u8> {
    let mut e = entry_header(code, content.len());
    e.extend(zlib(content));
    e
}

fn two_blob_pack() -> Vec<u8> {
    seal_pack(2, &[whole_entry(3, b"hello"), whole_entry(3, b"world!")])
}

#[test]
fn pack_header_reads_magic_version_count() {
    let pack = two_blob_pack();
    assert_eq!(read_pack_header(&pack), Some((2, 2)));
    let mut bad = pack.clone();
    bad[0] = b'K';
    assert_eq!(read_pack_header(&bad), None);
}

#[test]
fn index_lists_entries_sorted_by_id() {
    let pack = two_blob_pack();
    let ix = build_index(&pack, IterationMode::Verify).unwrap();
    assert_eq!(ix.entries.len(), 2);
    assert!(ix.entries[0].id.bytes <= ix.entries[1].id.bytes);
    assert_eq!(ix.pack_checksum.bytes, pack[pack.len() - 20..].to_vec());
}

/// A corrupted trailing checksum fails `Verify` and no index comes out.
#[test]
fn index_verify_rejects_corrupted_trailer() {
    let mut pack = two_blob_pack();
    let last = pack.len() - 1;
    pack[last] ^= 0xff;
    match build_index(&pack, IterationMode::Verify) {
        Err(IndexError::Checksum { expected, actual }) => {
            assert_eq!(expected.bytes, pack[pack.len() - 20..].to_vec());
            assert_eq!(actual.bytes, sha1(&pack[..pack.len() - 20]));
        }
        other => panic!("expected a checksum mismatch, got {:?}", other.is_ok()),
    }
}

/// The same pack under `Restore` succeeds, and the index carries the
/// recomputed checksum in place of the corrupted one.
#[test]
fn index_restore_replaces_corrupted_trailer() {
    let mut pack = two_blob_pack();
    let last = pack.len() - 1;
    pack[last] ^= 0xff;
    let ix = build_index(&pack, IterationMode::Restore).unwrap();
    assert_eq!(ix.entries.len(), 2);
    let recomputed = sha1(&pack[..pack.len() - 20]);
    assert_eq!(ix.pack_checksum.bytes, recomputed);
    assert_ne!(ix.pack_checksum.bytes, pack[pack.len() - 20..].to_vec());
}

#[test]
fn index_as_is_trusts_the_stored_trailer() {
    let mut pack = two_blob_pack();
    let last = pack.len() - 1;
    pack[last] ^= 0xff;
    let ix = build_index(&pack, IterationMode::AsIs).unwrap();
    assert_eq!(ix.pack_checksum.bytes, pack[pack.len() - 20..].to_vec());
}

fn ofs_delta_pack() -> (Vec<u8>, Vec<u8>, Vec<u8>) {
    // base: "hello world", delta: insert "HI", copy 5 bytes from offset 0
    let base = b"hello world".to_vec();
    let expected = b"HIhello".to_vec();
    let delta: Vec<u8> = vec![11, 7, 2, b'H', b'I', 0x91, 0, 5];
    let e1 = whole_entry(3, &base);
    let dist = e1.len(); // entry 2 starts dist bytes after entry 1
    let mut e2 = entry_header(6, delta.len());
    assert!(dist < 128);
    e2.push(dist as u8);
    e2.extend(zlib(&delta));
    (seal_pack(2, &[e1, e2]), base, expected)
}

#[test]
fn index_resolves_offset_deltas() {
    let (pack, base, expected) = ofs_delta_pack();
    let ix = build_index(&pack, IterationMode::Verify).unwrap();
    assert_eq!(ix.entries.len(), 2);
    // the delta entry's id is the digest of its resolved content
    let mut framed = format!("blob {}\0", expected.len()).into_bytes();
    framed.extend_from_slice(&expected);
    let delta_id = sha1(&framed);
    let mut base_framed = format!("blob {}\0", base.len()).into_bytes();
    base_framed.extend_from_slice(&base);
    let base_id = sha1(&base_framed);
    let ids: Vec<Vec<u8>> = ix.entries.iter().map(|e| e.id.bytes.clone()).collect();
    assert!(ids.contains(&delta_id));
    assert!(ids.contains(&base_id));
}

#[test]
fn index_resolves_ref_deltas() {
    let base = b"hello world".to_vec();
    let delta: Vec<u8> = vec![11, 7, 2, b'H', b'I', 0x91, 0, 5];
    let mut base_framed = format!("blob {}\0", base.len()).into_bytes();
    base_framed.extend_from_slice(&base);
    let base_id = sha1(&base_framed);
    let e1 = whole_entry(3, &base);
    let mut e2 = entry_header(7, delta.len());
    e2.extend_from_slice(&base_id);
    e2.extend(zlib(&delta));
    let pack = seal_pack(2, &[e1, e2]);
    let ix = build_index(&pack, IterationMode::Verify).unwrap();
    assert_eq!(ix.entries.len(), 2);
}

/// With the strictest level a bad entry aborts the whole explosion
/// and nothing is handed out; with the most permissive level the same
/// pack explodes, skipping the bad entry.
#[test]
fn explode_safety_levels_on_invalid_deflate() {
    let good = whole_entry(3, b"first");
    let mut bad = entry_header(3, 4);
    bad.extend_from_slice(&[0xff, 0xff, 0xff, 0xff]); // not a zlib stream
    let pack = seal_pack(2, &[good, bad]);

    match explode_pack(&pack, SafetyCheck::All, true, 0) {
        Err(ExplodeError::Walk(_)) => {}
        other => panic!("the strictest level must abort, got ok={}", other.is_ok()),
    }

    let outcome = explode_pack(
        &pack,
        SafetyCheck::SkipFileAndObjectChecksumAndNoAbortOnDecode,
        true,
        0,
    )
    .unwrap();
    assert_eq!(outcome.skipped, 1);
    assert_eq!(outcome.writes.len(), 1);
}

/// Exploding the same pack twice computes identical loose bytes, and
/// the read-back verification passes both times.
#[test]
fn explode_twice_is_identical_and_read_back_passes() {
    let pack = two_blob_pack();
    let first = explode_pack(&pack, SafetyCheck::All, true, 0).unwrap();
    let second = explode_pack(&pack, SafetyCheck::All, true, 0).unwrap();
    assert_eq!(first.writes.len(), 2);
    assert_eq!(first.writes.len(), second.writes.len());
    for (a, b) in first.writes.iter().zip(second.writes.iter()) {
        assert_eq!(a.bytes, b.bytes);
        assert_eq!(a.dir, b.dir);
        assert_eq!(a.name, b.name);
        assert!(verify_written(&a.bytes, &a.id));
        assert!(verify_written(&b.bytes, &b.id));
    }
}


/// With compression off (a sink destination without the compression
/// switch) entries are only hashed: paths and ids stay, bytes are empty.
#[test]
fn explode_without_compression_hashes_only() {
    let pack = two_blob_pack();
    let full = explode_pack(&pack, SafetyCheck::All, true, 0).unwrap();
    let hashed = explode_pack(&pack, SafetyCheck::All, false, 0).unwrap();
    assert_eq!(full.writes.len(), hashed.writes.len());
    for (a, b) in full.writes.iter().zip(hashed.writes.iter()) {
        assert_eq!(a.id.bytes, b.id.bytes);
        assert_eq!(a.dir, b.dir);
        assert_eq!(a.name, b.name);
        assert!(b.bytes.is_empty());
        assert!(!a.bytes.is_empty());
    }
}

#[test]
fn exploded_writes_decode_to_the_pack_contents() {
    let pack = two_blob_pack();
    let outcome = explode_pack(&pack, SafetyCheck::All, true, 0).unwrap();
    let mut contents: Vec<Vec<u8>> = outcome
        .writes
        .iter()
        .map(|w| git_odb::loose::loose_decode(&w.bytes).unwrap().1)
        .collect();
    contents.sort();
    assert_eq!(contents, vec![b"hello".to_vec(), b"world!".to_vec()]);
}

#[test]
fn verify_pack_accepts_intact_packs_in_every_mode() {
    let pack = two_blob_pack();
    for mode in [Mode::Sha1Crc32, Mode::Sha1Crc32Decode, Mode::Sha1Crc32DecodeEncode] {
        let stats = verify_pack(&pack, mode, Algorithm::LessMemory, 0).unwrap();
        assert_eq!(stats.entry_count, 2);
        assert_eq!(stats.blobs, 2);
        assert_eq!(stats.commits + stats.trees + stats.tags, 0);
    }
}

#[test]
fn verify_pack_rejects_corrupted_trailer() {
    let mut pack = two_blob_pack();
    let last = pack.len() - 1;
    pack[last] ^= 0xff;
    match verify_pack(&pack, Mode::Sha1Crc32, Algorithm::LessTime, 0) {
        Err(VerifyError::Checksum { expected, actual }) => {
            assert_eq!(expected.bytes, pack[pack.len() - 20..].to_vec());
            assert_eq!(actual.bytes, sha1(&pack[..pack.len() - 20]));
        }
        other => panic!("expected a checksum mismatch, got ok={}", other.is_ok()),
    }
}

#[test]
fn verify_pack_decode_mode_rejects_malformed_objects() {
    // a "tree" whose content is not a tree
    let pack = seal_pack(1, &[whole_entry(2, b"this is no tree")]);
    assert!(verify_pack(&pack, Mode::Sha1Crc32, Algorithm::LessTime, 0).is_ok());
    match verify_pack(&pack, Mode::Sha1Crc32Decode, Algorithm::LessTime, 0) {
        Err(VerifyError::Decode { offset }) => assert_eq!(offset, 12),
        other => panic!("decode mode must reject it, got ok={}", other.is_ok()),
    }
}

/// The verdict and the statistics are the same under any thread
/// limit and either algorithm.
#[test]
fn verify_pack_is_thread_limit_invariant() {
    let (pack, _, _) = ofs_delta_pack();
    let a = verify_pack(&pack, Mode::Sha1Crc32DecodeEncode, Algorithm::LessTime, 1).unwrap();
    let b = verify_pack(&pack, Mode::Sha1Crc32DecodeEncode, Algorithm::LessMemory, 3).unwrap();
    assert_eq!(a, b);

    let mut corrupt = pack.clone();
    let last = corrupt.len() - 1;
    corrupt[last] ^= 1;
    let ra = verify_pack(&corrupt, Mode::Sha1Crc32, Algorithm::LessTime, 1).is_ok();
    let rb = verify_pack(&corrupt, Mode::Sha1Crc32, Algorithm::LessMemory, 4).is_ok();
    assert_eq!(ra, rb);
    assert!(!ra);
}

#[test]
fn delta_application_follows_copy_and_insert() {
    let base = b"hello world";
    let delta: Vec<u8> = vec![11, 7, 2, b'H', b'I', 0x91, 0, 5];
    let out = git_odb::delta::apply(base, &delta).unwrap();
    assert_eq!(out, b"HIhello".to_vec());
    // wrong declared base size
    let bad: Vec<u8> = vec![10, 7, 2, b'H', b'I', 0x91, 0, 5];
    assert!(git_odb::delta::apply(base, &bad).is_err());
    // copy past the end of the base
    let oob: Vec<u8> = vec![11, 7, 0x91, 8, 5];
    assert!(git_odb::delta::apply(base, &oob).is_err());
}
