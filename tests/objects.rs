use gitobj::object::{parse_tree_entries, DecodeError, Object, TreeEntry};
use gitobj::store::{compress_bytes, decompress_bytes, object_location, StoreError};
use gitobj::digest::sha_from_bytes;

const HI_SHA: &str = "45b983be36b73c0788dc9cbcb76cbb80fc7bb057";

fn hi_blob() -> Object {
    Object::Blob { data: b"hi\n".to_vec() }
}

fn entry(mode: &str, filename: &str, sha: &str) -> TreeEntry {
    TreeEntry { mode: mode.to_string(), filename: filename.to_string(), sha: sha.to_string() }
}

fn hi_sha_bytes() -> Vec<u8> {
    vec![
        0x45, 0xb9, 0x83, 0xbe, 0x36, 0xb7, 0x3c, 0x07, 0x88, 0xdc, 0x9c, 0xbc, 0xb7, 0x6c, 0xbb,
        0x80, 0xfc, 0x7b, 0xb0, 0x57,
    ]
}

#[test]
fn blob_encoding_and_address() {
    let blob = hi_blob();
    assert_eq!(blob.to_bytes(), b"blob 3\0hi\n".to_vec());
    assert_eq!(blob.sha(), sha_from_bytes(b"blob 3\0hi\n"));
    assert_eq!(blob.sha(), HI_SHA);
}

#[test]
fn empty_blob_encoding() {
    let blob = Object::Blob { data: Vec::new() };
    assert_eq!(blob.to_bytes(), b"blob 0\0".to_vec());
    assert_eq!(blob.sha(), "e69de29bb2d1d6434b8b29ae775ad8c2e48c5391");
}

#[test]
fn digest_of_empty_input() {
    assert_eq!(sha_from_bytes(b""), "da39a3ee5e6b4b0d3255bfef95601890afd80709");
}

#[test]
fn large_blob_size_header() {
    let blob = Object::Blob { data: vec![7u8; 1234] };
    let bytes = blob.to_bytes();
    assert_eq!(&bytes[..10], b"blob 1234\0");
    assert_eq!(bytes.len(), 1244);
}

#[test]
fn write_then_parse_stored_blob() {
    let blob = hi_blob();
    let (address, stored) = blob.write_object();
    assert_eq!(address, HI_SHA);
    match Object::parse_from_file(&stored) {
        Ok(Object::Blob { data }) => assert_eq!(data, b"hi\n".to_vec()),
        _ => panic!("expected the blob back"),
    }
}

#[test]
fn writing_twice_reads_back_the_same() {
    let blob = hi_blob();
    let (a1, s1) = blob.write_object();
    let (a2, s2) = blob.write_object();
    assert_eq!(a1, a2);
    assert_eq!(Object::read_object(&s1), Ok(b"blob 3\0hi\n".to_vec()));
    assert_eq!(Object::read_object(&s2), Ok(b"blob 3\0hi\n".to_vec()));
}

#[test]
fn tree_encoding_and_round_trip() {
    let tree = Object::Tree { entries: vec![entry("100644", "file.txt", HI_SHA)] };
    let mut expected = b"tree 36\0100644 file.txt\0".to_vec();
    expected.extend_from_slice(&hi_sha_bytes());
    let bytes = tree.to_bytes();
    assert_eq!(bytes, expected);
    match Object::from_bytes(&bytes) {
        Ok(Object::Tree { entries }) => {
            assert_eq!(entries.len(), 1);
            assert_eq!(entries[0].mode, "100644");
            assert_eq!(entries[0].filename, "file.txt");
            assert_eq!(entries[0].sha, HI_SHA);
        }
        _ => panic!("expected the tree back"),
    }
}

#[test]
fn tree_keeps_entry_order() {
    let tree = Object::Tree {
        entries: vec![
            entry("100644", "b.txt", HI_SHA),
            entry("40000", "a dir", "e69de29bb2d1d6434b8b29ae775ad8c2e48c5391"),
        ],
    };
    let (_, stored) = tree.write_object();
    match Object::parse_from_file(&stored) {
        Ok(Object::Tree { entries }) => {
            assert_eq!(entries.len(), 2);
            assert_eq!(entries[0].filename, "b.txt");
            assert_eq!(entries[1].mode, "40000");
            assert_eq!(entries[1].filename, "a dir");
            assert_eq!(entries[1].sha, "e69de29bb2d1d6434b8b29ae775ad8c2e48c5391");
        }
        _ => panic!("expected the tree back"),
    }
}

#[test]
fn swapped_entries_give_another_address() {
    let a = entry("100644", "a", HI_SHA);
    let b = entry("100644", "b", HI_SHA);
    let t1 = Object::Tree { entries: vec![a, b] };
    let t2 = Object::Tree {
        entries: vec![entry("100644", "b", HI_SHA), entry("100644", "a", HI_SHA)],
    };
    assert_ne!(t1.sha(), t2.sha());
}

#[test]
fn equal_content_same_address() {
    let b1 = Object::Blob { data: b"same".to_vec() };
    let b2 = Object::Blob { data: b"same".to_vec() };
    let b3 = Object::Blob { data: b"other".to_vec() };
    assert_eq!(b1.sha(), b2.sha());
    assert_eq!(b1.sha(), b1.sha());
    assert_eq!(b1.to_bytes(), b2.to_bytes());
    assert_ne!(b1.sha(), b3.sha());
}

#[test]
fn blob_round_trip() {
    let data: Vec<u8> = (0u8..=255).collect();
    let blob = Object::Blob { data: data.clone() };
    match Object::from_bytes(&blob.to_bytes()) {
        Ok(Object::Blob { data: back }) => assert_eq!(back, data),
        _ => panic!("expected the blob back"),
    }
}

#[test]
fn unknown_type_is_refused() {
    assert!(matches!(Object::from_bytes(b"commit 3\0abc"), Err(DecodeError::UnknownType)));
    assert!(matches!(Object::from_bytes(b"blo\0"), Err(DecodeError::UnknownType)));
}

#[test]
fn missing_header_is_refused() {
    assert!(matches!(Object::from_bytes(b"blob 3"), Err(DecodeError::MissingHeader)));
    assert!(matches!(Object::from_bytes(b""), Err(DecodeError::MissingHeader)));
}

#[test]
fn declared_length_too_large_is_refused() {
    assert!(matches!(Object::from_bytes(b"blob 5\0hi\n"), Err(DecodeError::LengthMismatch)));
    assert!(matches!(Object::from_bytes(b"blob 2\0hi\n"), Err(DecodeError::LengthMismatch)));
    assert!(matches!(Object::from_bytes(b"blob x\0hi\n"), Err(DecodeError::LengthMismatch)));
}

#[test]
fn truncated_tree_entry_is_refused() {
    assert!(matches!(Object::from_bytes(b"tree 10\0100644 fil"), Err(DecodeError::TruncatedEntry)));
    assert!(matches!(Object::from_bytes(b"tree 6\0100644"), Err(DecodeError::TruncatedEntry)));
    let mut cut = b"tree 26\0100644 file.txt\0".to_vec();
    cut.extend_from_slice(&hi_sha_bytes()[..10]);
    assert!(matches!(Object::from_bytes(&cut), Err(DecodeError::TruncatedEntry)));
}

#[test]
fn invalid_utf8_in_tree_is_refused() {
    let mut bytes = b"1 \xff\0".to_vec();
    bytes.extend_from_slice(&hi_sha_bytes());
    assert!(matches!(parse_tree_entries(&bytes), Err(DecodeError::Encoding)));
}

#[test]
fn tree_entries_parse_directly() {
    let mut bytes = b"100644 x\0".to_vec();
    bytes.extend_from_slice(&hi_sha_bytes());
    match parse_tree_entries(&bytes) {
        Ok(entries) => {
            assert_eq!(entries.len(), 1);
            assert_eq!(entries[0].filename, "x");
            assert_eq!(entries[0].sha, HI_SHA);
        }
        Err(_) => panic!("expected one entry"),
    }
    assert!(matches!(parse_tree_entries(b""), Ok(v) if v.is_empty()));
}

#[test]
fn well_formedness_checks() {
    assert!(hi_blob().is_well_formed());
    assert!(entry("100644", "file.txt", HI_SHA).is_well_formed());
    assert!(!entry("100 644", "file.txt", HI_SHA).is_well_formed());
    assert!(!entry("100644", "fi\0le", HI_SHA).is_well_formed());
    assert!(!entry("100644", "file.txt", "45B983BE36B73C0788DC9CBCB76CBB80FC7BB057").is_well_formed());
    assert!(!entry("100644", "file.txt", "45b9").is_well_formed());
    let bad = Object::Tree { entries: vec![entry("100644", "f", "zz")] };
    assert!(!bad.is_well_formed());
}

#[test]
fn address_location() {
    assert_eq!(
        object_location(&HI_SHA.to_string()),
        Ok(("45".to_string(), "b983be36b73c0788dc9cbcb76cbb80fc7bb057".to_string()))
    );
    assert_eq!(object_location(&"45b9".to_string()), Err(StoreError::BadAddress));
    assert_eq!(
        object_location(&"g5b983be36b73c0788dc9cbcb76cbb80fc7bb057".to_string()),
        Err(StoreError::BadAddress)
    );
}

#[test]
fn compression_round_trip() {
    let packed = compress_bytes(b"blob 3\0hi\n");
    assert_ne!(packed, b"blob 3\0hi\n".to_vec());
    assert_eq!(decompress_bytes(&packed), Some(b"blob 3\0hi\n".to_vec()));
}

#[test]
fn corrupt_stored_bytes_are_refused() {
    assert_eq!(decompress_bytes(b"not a zlib stream"), None);
    assert_eq!(Object::read_object(b"not a zlib stream"), Err(StoreError::Corrupt));
    assert!(matches!(Object::parse_from_file(b"not a zlib stream"), Err(StoreError::Corrupt)));
}

#[test]
fn stored_garbage_is_a_decode_error() {
    let stored = compress_bytes(b"junk");
    assert!(matches!(
        Object::parse_from_file(&stored),
        Err(StoreError::Decode(DecodeError::MissingHeader))
    ));
}

#[test]
fn size_field_not_utf8_is_an_encoding_error() {
    assert!(matches!(Object::from_bytes(b"blob \xff\0"), Err(DecodeError::Encoding)));
    let stored = compress_bytes(b"blob \xff\0");
    assert!(matches!(
        Object::parse_from_file(&stored),
        Err(StoreError::Decode(DecodeError::Encoding))
    ));
}

#[test]
fn size_field_must_be_canonical_decimal() {
    assert!(matches!(Object::from_bytes(b"blob 03\0hi\n"), Err(DecodeError::LengthMismatch)));
}

#[test]
fn compression_is_deterministic() {
    let data = b"tree 36\0100644 file.txt\0some more bytes".to_vec();
    assert_eq!(compress_bytes(&data), compress_bytes(&data));
}

#[test]
fn writing_twice_stores_identical_bytes() {
    let blob = hi_blob();
    let (a1, s1) = blob.write_object();
    let (a2, s2) = blob.write_object();
    assert_eq!(a1, a2);
    assert_eq!(s1, s2);
    assert_eq!(s1, compress_bytes(&blob.to_bytes()));
}
