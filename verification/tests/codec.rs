use git_odb::commit::Commit;
use git_odb::header::{decode_header, encode_header, HeaderError};
use git_odb::id::ObjectId;
use git_odb::kind::Kind;
use git_odb::loose::{loose_decode, loose_encode, loose_path};
use git_odb::object::{ChecksumError, ImmutableObject, Object};
use git_odb::tag::Tag;
use git_odb::tree::Tree;

fn sha1(data: &[u8]) -> Vec<u8> {
    <sha1::Sha1 as sha1::Digest>::digest(data).to_vec()
}

#[test]
fn size_of_object() {
    assert_eq!(std::mem::size_of::<Object<'_>>(), 24, "this shouldn't change unnoticed");
}

#[test]
fn header_encodes_kind_and_decimal_size() {
    assert_eq!(encode_header(Kind::Blob, 5), b"blob 5\0".to_vec());
    assert_eq!(encode_header(Kind::Tree, 0), b"tree 0\0".to_vec());
    assert_eq!(encode_header(Kind::Commit, 1234567890), b"commit 1234567890\0".to_vec());
    assert_eq!(encode_header(Kind::Tag, 42), b"tag 42\0".to_vec());
}

#[test]
fn header_decode_round_trips() {
    for (kind, size) in [
        (Kind::Blob, 0u64),
        (Kind::Tree, 7),
        (Kind::Commit, 184),
        (Kind::Tag, u64::MAX),
    ] {
        let mut framed = encode_header(kind, size);
        framed.extend_from_slice(b"payload");
        let (k, n, hlen) = decode_header(&framed).unwrap();
        assert_eq!(k, kind);
        assert_eq!(n, size);
        assert_eq!(&framed[hlen..], b"payload");
    }
}

#[test]
fn header_decode_rejects_malformed_frames() {
    assert_eq!(decode_header(b"blub 5\0x"), Err(HeaderError::UnknownKind));
    assert_eq!(decode_header(b"blob x\0"), Err(HeaderError::MalformedLength));
    assert_eq!(decode_header(b"blob 5"), Err(HeaderError::MalformedLength));
    assert_eq!(decode_header(b"blob \0"), Err(HeaderError::MalformedLength));
    assert_eq!(
        decode_header(b"blob 99999999999999999999\0"),
        Err(HeaderError::SizeOverflow)
    );
}

#[test]
fn hex_encoding_of_ids() {
    let id = ObjectId::from_bytes(vec![
        0xde, 0xad, 0xbe, 0xef, 0x00, 0x01, 0x02, 0x03, 0x04, 0x05, 0x06, 0x07, 0x08, 0x09,
        0x0a, 0x0b, 0x0c, 0x0d, 0x0e, 0x0f,
    ]);
    assert_eq!(id.to_hex(), b"deadbeef000102030405060708090a0b0c0d0e0f".to_vec());
    let (dir, name) = loose_path(&id);
    assert_eq!(dir, b"de".to_vec());
    assert_eq!(name, b"adbeef000102030405060708090a0b0c0d0e0f".to_vec());
}

/// The digest of `header ++ content` is the only id accepted.
#[test]
fn verify_checksum_accepts_only_the_content_digest() {
    let data = b"hello";
    let obj = Object { kind: Kind::Blob, data };
    let mut framed = b"blob 5\0".to_vec();
    framed.extend_from_slice(data);
    let good = ObjectId::from_bytes(sha1(&framed));
    assert!(obj.verify_checksum(&good).is_ok());

    let mut wrong_bytes = good.bytes.clone();
    wrong_bytes[0] ^= 0xff;
    let wrong = ObjectId::from_bytes(wrong_bytes);
    match obj.verify_checksum(&wrong) {
        Err(ChecksumError::ChecksumMismatch { desired, actual }) => {
            assert_eq!(desired.bytes, wrong.bytes);
            assert_eq!(actual.bytes, good.bytes);
        }
        Ok(()) => panic!("a wrong id must be rejected"),
    }
}

fn tree_entry_bytes(mode: &[u8], name: &[u8], id: &[u8; 20]) -> Vec<u8> {
    let mut out = mode.to_vec();
    out.push(b' ');
    out.extend_from_slice(name);
    out.push(0);
    out.extend_from_slice(id);
    out
}

/// Round trip for trees: decode then encode is byte-identical.
#[test]
fn tree_decode_encode_round_trip() {
    let mut data = tree_entry_bytes(b"40000", b"dir", &[1u8; 20]);
    data.extend(tree_entry_bytes(b"100644", b"file.txt", &[2u8; 20]));
    let tree = Tree::decode(&data).unwrap();
    assert_eq!(tree.entries.len(), 2);
    assert_eq!(tree.entries[0].mode, b"40000".to_vec());
    assert_eq!(tree.entries[0].name, b"dir".to_vec());
    assert_eq!(tree.entries[1].id.bytes, vec![2u8; 20]);
    assert_eq!(tree.encode(), data);
}

/// The format does not mandate physical ordering, so an unsorted
/// tree decodes, and the sort check reports it.
#[test]
fn tree_tolerates_unsorted_entries_and_reports_them() {
    let mut sorted = tree_entry_bytes(b"100644", b"alpha", &[1u8; 20]);
    sorted.extend(tree_entry_bytes(b"100644", b"beta", &[2u8; 20]));
    let t1 = Tree::decode(&sorted).unwrap();
    assert!(t1.is_sorted());

    let mut unsorted = tree_entry_bytes(b"100644", b"beta", &[2u8; 20]);
    unsorted.extend(tree_entry_bytes(b"100644", b"alpha", &[1u8; 20]));
    let t2 = Tree::decode(&unsorted).unwrap();
    assert!(!t2.is_sorted());
    assert_eq!(t2.encode(), unsorted);
}

/// Directories sort as if their name ended in a slash.
#[test]
fn tree_sort_comparator_appends_slash_to_directories() {
    // "a.b" < "a/" as plain bytes, but a directory named "a" sorts as
    // "a/", after "a.b".
    let mut data = tree_entry_bytes(b"100644", b"a.b", &[1u8; 20]);
    data.extend(tree_entry_bytes(b"40000", b"a", &[2u8; 20]));
    let t = Tree::decode(&data).unwrap();
    assert!(t.is_sorted());
}

#[test]
fn tree_rejects_malformed_entries() {
    assert!(Tree::decode(b"100644 name-without-nul").is_err());
    assert!(Tree::decode(b"10x644 a\0aaaaaaaaaaaaaaaaaaaa").is_err());
    let mut truncated = tree_entry_bytes(b"100644", b"a", &[1u8; 20]);
    truncated.truncate(truncated.len() - 1);
    assert!(Tree::decode(&truncated).is_err());
}

const COMMIT: &[u8] = b"tree aaaaaaaaaaaaaaaaaaaaaaaaaaaaaaaaaaaaaaaa\n\
parent bbbbbbbbbbbbbbbbbbbbbbbbbbbbbbbbbbbbbbbb\n\
parent cccccccccccccccccccccccccccccccccccccccc\n\
author A U Thor <a@example.com> 1234567890 +0000\n\
committer C O Mitter <c@example.com> 1234567891 +0100\n\
\n\
the message\n";

/// Round trip for commits: decode then encode is byte-identical.
#[test]
fn commit_decode_encode_round_trip() {
    let c = Commit::decode(COMMIT).unwrap();
    assert_eq!(c.tree.bytes, vec![0xaa; 20]);
    assert_eq!(c.parents.len(), 2);
    assert_eq!(c.parents[0].bytes, vec![0xbb; 20]);
    assert_eq!(c.parents[1].bytes, vec![0xcc; 20]);
    assert_eq!(c.author, b"A U Thor <a@example.com> 1234567890 +0000".to_vec());
    assert_eq!(c.committer, b"C O Mitter <c@example.com> 1234567891 +0100".to_vec());
    assert_eq!(c.remainder, b"\nthe message\n".to_vec());
    assert_eq!(c.encode(), COMMIT.to_vec());
}

#[test]
fn commit_rejects_malformed_headers() {
    assert!(Commit::decode(b"tred aaaa\n").is_err());
    assert!(Commit::decode(b"tree AAAAAAAAAAAAAAAAAAAAAAAAAAAAAAAAAAAAAAAA\n").is_err());
    let no_author = b"tree aaaaaaaaaaaaaaaaaaaaaaaaaaaaaaaaaaaaaaaa\n\n";
    assert!(Commit::decode(no_author).is_err());
}

const TAG: &[u8] = b"object aaaaaaaaaaaaaaaaaaaaaaaaaaaaaaaaaaaaaaaa\n\
type commit\n\
tag v1.0.0\n\
tagger T A Gger <t@example.com> 1234567890 +0000\n\
\n\
release\n";

/// Round trip for tags: decode then encode is byte-identical.
#[test]
fn tag_decode_encode_round_trip() {
    let t = Tag::decode(TAG).unwrap();
    assert_eq!(t.target.bytes, vec![0xaa; 20]);
    assert_eq!(t.target_kind, Kind::Commit);
    assert_eq!(t.name, b"v1.0.0".to_vec());
    assert_eq!(t.encode(), TAG.to_vec());
}

#[test]
fn tag_rejects_unknown_target_kind() {
    let bad = b"object aaaaaaaaaaaaaaaaaaaaaaaaaaaaaaaaaaaaaaaa\ntype bloob\ntag t\n\nx";
    assert!(Tag::decode(bad).is_err());
}

/// Via the typed decoder: every kind re-encodes to its input, and
/// the recomputed id is unchanged.
#[test]
fn object_decode_reencode_preserves_bytes_and_id() {
    let cases: Vec<(Kind, Vec<u8>)> = vec![
        (Kind::Blob, b"any bytes at all".to_vec()),
        (Kind::Tree, tree_entry_bytes(b"100644", b"f", &[9u8; 20])),
        (Kind::Commit, COMMIT.to_vec()),
        (Kind::Tag, TAG.to_vec()),
    ];
    for (kind, data) in cases {
        let obj = Object { kind, data: &data };
        let view: ImmutableObject = obj.decode().unwrap();
        assert_eq!(view.encode(), data);
        assert_eq!(view.kind(), kind);
    }
}

/// A loose file decodes back to exactly what was
/// written, twice over, with identical bytes both times.
#[test]
fn loose_encode_decode_round_trip_and_determinism() {
    let first = loose_encode(Kind::Blob, b"hello");
    let second = loose_encode(Kind::Blob, b"hello");
    assert_eq!(first, second);
    let (kind, content) = loose_decode(&first).unwrap();
    assert_eq!(kind, Kind::Blob);
    assert_eq!(content, b"hello".to_vec());
}


/// The bounded peek reads the frame without full decompression and
/// agrees with the full decode.
#[test]
fn loose_header_peeks_kind_and_size() {
    let file = loose_encode(Kind::Tag, TAG);
    assert_eq!(git_odb::loose::loose_header(&file), Some((Kind::Tag, TAG.len() as u64)));
    assert_eq!(git_odb::loose::loose_header(b"not zlib at all"), None);
}

#[test]
fn loose_decode_rejects_garbage() {
    assert!(loose_decode(b"not zlib at all").is_err());
    // a valid stream holding a malformed frame
    let mut enc =
        flate2::bufread::ZlibEncoder::new(&b"nonsense 5\0hello"[..], flate2::Compression::default());
    let mut bad = Vec::new();
    std::io::Read::read_to_end(&mut enc, &mut bad).unwrap();
    assert!(loose_decode(&bad).is_err());
}
