use glacier::signature_handler::{locate_corruption, SignatureError, SignatureHandler};
use rs_merkle::algorithms::Sha256;
use rs_merkle::Hasher;

fn enroll(bytes: &[u8]) -> (String, Vec<String>, Vec<usize>) {
    SignatureHandler::generate_signature_with_leaves(bytes).expect("non-empty input enrolls")
}

#[test]
fn enroll_short_buffer_hashes_one_chunk() {
    let (root, leaves, bounds) = enroll(b"abc");
    assert_eq!(bounds, vec![0, 3]);
    assert_eq!(
        leaves,
        vec!["ba7816bf8f01cfea414140de5dae2223b00361a396177a9cb410ff61f20015ad".to_string()]
    );
    assert_eq!(root, leaves[0]);
}

#[test]
fn enroll_fresh_file_of_ones() {
    let bytes = vec![0x01u8; 10000];
    let (root, leaves, bounds) = enroll(&bytes);
    assert_eq!(bounds, vec![0, 10000]);
    assert_eq!(leaves.len(), 1);
    assert_eq!(root.len(), 64);
    assert_eq!(root, hex::encode(Sha256::hash(&bytes)));
}

#[test]
fn enroll_two_chunks_builds_merkle_parent() {
    let bytes = vec![0u8; 2000];
    let (root, leaves, bounds) = enroll(&bytes);
    assert_eq!(bounds, vec![0, 1071, 2000]);
    let left = Sha256::hash(&bytes[..1071]);
    let right = Sha256::hash(&bytes[1071..]);
    assert_eq!(leaves, vec![hex::encode(left), hex::encode(right)]);
    let mut joined = left.to_vec();
    joined.extend_from_slice(&right);
    assert_eq!(root, hex::encode(Sha256::hash(&joined)));
    assert_ne!(root, leaves[0]);
}

#[test]
fn enroll_empty_file_fails() {
    assert_eq!(
        SignatureHandler::generate_signature_with_leaves(&[]),
        Err(SignatureError::EmptyFile)
    );
    assert_eq!(SignatureHandler::generate_signature(&[]), "");
}

#[test]
fn generate_signature_is_enrollment_root() {
    let bytes = vec![0u8; 5000];
    assert_eq!(SignatureHandler::generate_signature(&bytes), enroll(&bytes).0);
}

#[test]
fn verify_after_enroll_is_clean() {
    let bytes = vec![0x01u8; 10000];
    let (root, leaves, bounds) = enroll(&bytes);
    for _ in 0..3 {
        assert_eq!(
            SignatureHandler::check_broken_chunks(&bytes, &root, &leaves, Some(&bounds)),
            Ok(vec![])
        );
    }
    assert_eq!(
        SignatureHandler::check_broken_chunks(&bytes, &root, &leaves, None),
        Ok(vec![])
    );
}

#[test]
fn verify_round_trip_on_many_chunks() {
    let bytes = vec![0u8; 50000];
    let (root, leaves, bounds) = enroll(&bytes);
    assert!(leaves.len() > 10);
    assert_eq!(
        SignatureHandler::check_broken_chunks(&bytes, &root, &leaves, Some(&bounds)),
        Ok(vec![])
    );
}

#[test]
fn flipped_byte_reports_its_chunk() {
    let bytes = vec![0x01u8; 10000];
    let (root, leaves, bounds) = enroll(&bytes);
    let mut changed = bytes.clone();
    changed[5000] ^= 0xFF;
    assert_eq!(
        SignatureHandler::check_broken_chunks(&changed, &root, &leaves, Some(&bounds)),
        Ok(vec![0])
    );
}

#[test]
fn flipped_byte_in_middle_chunk_reports_only_that_chunk() {
    let bytes = vec![0u8; 5000];
    let (root, leaves, bounds) = enroll(&bytes);
    assert_eq!(bounds, vec![0, 1071, 2095, 3119, 4143, 5000]);
    let mut changed = bytes.clone();
    changed[2500] = 1;
    assert_eq!(
        SignatureHandler::check_broken_chunks(&changed, &root, &leaves, Some(&bounds)),
        Ok(vec![2])
    );
}

#[test]
fn appended_bytes_report_tail_chunks() {
    let bytes = vec![0x01u8; 10000];
    let (root, leaves, bounds) = enroll(&bytes);
    let mut longer = bytes.clone();
    longer.extend_from_slice(&[0x02u8; 2000]);
    assert_eq!(longer.len(), 12000);
    let corrupted =
        SignatureHandler::check_broken_chunks(&longer, &root, &leaves, Some(&bounds)).unwrap();
    assert_eq!(corrupted, vec![1]);
    assert!((leaves.len()..2).all(|i| corrupted.contains(&i)));
}

#[test]
fn truncated_file_reports_lost_chunks() {
    let bytes = vec![0u8; 5000];
    let (root, leaves, bounds) = enroll(&bytes);
    let shorter = &bytes[..2500];
    assert_eq!(
        SignatureHandler::check_broken_chunks(shorter, &root, &leaves, Some(&bounds)),
        Ok(vec![2, 3, 4])
    );
}

#[test]
fn malformed_root_hex_is_an_error() {
    let bytes = vec![0x01u8; 100];
    let (_, leaves, bounds) = enroll(&bytes);
    let bad = "z".repeat(64);
    assert_eq!(
        SignatureHandler::check_broken_chunks(&bytes, &bad, &leaves, Some(&bounds)),
        Err(SignatureError::InvalidSignatureHex)
    );
    assert_eq!(
        SignatureHandler::check_broken_chunks(&bytes, "abc", &leaves, Some(&bounds)),
        Err(SignatureError::InvalidSignatureHex)
    );
}

#[test]
fn short_root_is_an_error() {
    let bytes = vec![0x01u8; 100];
    let (_, leaves, bounds) = enroll(&bytes);
    assert_eq!(
        SignatureHandler::check_broken_chunks(&bytes, "abcd", &leaves, Some(&bounds)),
        Err(SignatureError::InvalidSignatureLength)
    );
}

#[test]
fn malformed_leaves_are_errors() {
    let bytes = vec![0x01u8; 100];
    let (root, leaves, bounds) = enroll(&bytes);
    let mut bad_hex = leaves.clone();
    bad_hex.push("xy".to_string());
    assert_eq!(
        SignatureHandler::check_broken_chunks(&bytes, &root, &bad_hex, Some(&bounds)),
        Err(SignatureError::InvalidLeafHex)
    );
    let short = vec!["00ff".to_string(), "qq".to_string()];
    assert_eq!(
        SignatureHandler::check_broken_chunks(&bytes, &root, &short, Some(&bounds)),
        Err(SignatureError::InvalidLeafLength)
    );
}

#[test]
fn uppercase_hex_is_accepted() {
    let bytes = vec![0x01u8; 10000];
    let (root, leaves, bounds) = enroll(&bytes);
    let upper: Vec<String> = leaves.iter().map(|l| l.to_uppercase()).collect();
    assert_eq!(
        SignatureHandler::check_broken_chunks(&bytes, &root.to_uppercase(), &upper, Some(&bounds)),
        Ok(vec![])
    );
}

#[test]
fn empty_file_fails_verification() {
    let (root, leaves, bounds) = enroll(&[1u8; 10]);
    assert_eq!(
        SignatureHandler::check_broken_chunks(&[], &root, &leaves, Some(&bounds)),
        Err(SignatureError::EmptyFile)
    );
}

#[test]
fn invalid_positions_are_errors() {
    let bytes = vec![0u8; 5000];
    let (root, leaves, _) = enroll(&bytes);
    let not_from_zero = vec![1, 1071, 2095, 3119, 4143, 5000];
    let not_increasing = vec![0, 2095, 1071, 3119, 4143, 5000];
    let wrong_count = vec![0, 5000];
    for positions in [not_from_zero, not_increasing, wrong_count, vec![]] {
        assert_eq!(
            SignatureHandler::check_broken_chunks(&bytes, &root, &leaves, Some(&positions)),
            Err(SignatureError::InvalidChunkPositions)
        );
    }
}

#[test]
fn root_mismatch_with_equal_leaves_reports_every_chunk() {
    let bytes = vec![0u8; 5000];
    let (_, leaves, bounds) = enroll(&bytes);
    let other_root = "00".repeat(32);
    assert_eq!(
        SignatureHandler::check_broken_chunks(&bytes, &other_root, &leaves, Some(&bounds)),
        Ok(vec![0, 1, 2, 3, 4])
    );
}

#[test]
fn locate_corruption_diffs_leaves() {
    let a = [1u8; 32];
    let b = [2u8; 32];
    let c = [3u8; 32];
    assert_eq!(locate_corruption(&a, &[a, b], &a, &[a.to_vec(), c.to_vec()]), Vec::<usize>::new());
    assert_eq!(locate_corruption(&a, &[a, b, c], &b, &[a.to_vec(), c.to_vec()]), vec![1, 2]);
    assert_eq!(locate_corruption(&a, &[a], &b, &[a.to_vec(), b.to_vec(), c.to_vec()]), vec![1, 2]);
    assert_eq!(locate_corruption(&a, &[a, b], &b, &[a.to_vec(), b.to_vec()]), vec![0, 1]);
    assert_eq!(locate_corruption(&a, &[], &b, &[]), Vec::<usize>::new());
}
