use glacier::scan::{compare_signatures, enrollment_status, Lookup, Status, Step};
use glacier::signature_handler::Signature;

fn enrolled(name: &str, bytes: &[u8]) -> Signature {
    match compare_signatures(name, Lookup::Missing, Some(bytes)) {
        Step::Save(record) => record,
        Step::Record(_) => panic!("expected a record to save"),
    }
}

fn recorded(step: Step) -> (Status, String) {
    match step {
        Step::Record(fs) => (fs.status, fs.signature),
        Step::Save(_) => panic!("expected a status"),
    }
}

#[test]
fn fresh_file_is_enrolled() {
    let bytes = vec![0x01u8; 10000];
    let record = enrolled("alpha.bin", &bytes);
    assert_eq!(record.file_name, "alpha.bin");
    assert_eq!(record.leaves.len(), 1);
    assert_eq!(record.chunk_positions[0], 0);
    assert_eq!(*record.chunk_positions.last().unwrap(), 10000);
    assert_eq!(record.signature.len(), 64);
    let status = enrollment_status(&record, true);
    assert_eq!(status.status, Status::Initialized);
    assert_eq!(status.signature, record.signature);
    assert_eq!(status.status.label(), "initialized");
}

#[test]
fn failed_save_is_an_error() {
    let record = enrolled("alpha.bin", &[1u8; 100]);
    let status = enrollment_status(&record, false);
    assert_eq!(status.status, Status::Error);
    assert_eq!(status.signature, "");
}

#[test]
fn clean_reverify_is_valid() {
    let bytes = vec![0x01u8; 10000];
    let record = enrolled("alpha.bin", &bytes);
    let root = record.signature.clone();
    let (status, signature) = recorded(compare_signatures("alpha.bin", Lookup::Found(record), Some(&bytes)));
    assert_eq!(status, Status::Valid);
    assert_eq!(signature, root);
    assert_eq!(status.label(), "valid");
}

#[test]
fn localized_corruption_is_corrupted() {
    let bytes = vec![0x01u8; 10000];
    let record = enrolled("alpha.bin", &bytes);
    let root = record.signature.clone();
    let mut changed = bytes.clone();
    changed[5000] ^= 0x01;
    let (status, signature) = recorded(compare_signatures("alpha.bin", Lookup::Found(record), Some(&changed)));
    assert_eq!(status, Status::Corrupted);
    assert_eq!(signature, root);
    assert_eq!(status.label(), "corrupted");
}

#[test]
fn appended_file_is_corrupted() {
    let bytes = vec![0x01u8; 10000];
    let record = enrolled("alpha.bin", &bytes);
    let mut longer = bytes.clone();
    longer.extend_from_slice(&[0u8; 2000]);
    let (status, _) = recorded(compare_signatures("alpha.bin", Lookup::Found(record), Some(&longer)));
    assert_eq!(status, Status::Corrupted);
}

#[test]
fn unreadable_new_file_writes_no_record() {
    let (status, signature) = recorded(compare_signatures("beta.bin", Lookup::Missing, None));
    assert_eq!(status, Status::Error);
    assert_eq!(signature, "");
    assert_eq!(status.label(), "error");
}

#[test]
fn empty_new_file_is_an_error() {
    let (status, _) = recorded(compare_signatures("empty.bin", Lookup::Missing, Some(&[])));
    assert_eq!(status, Status::Error);
}

#[test]
fn malformed_record_is_an_error_with_stored_string() {
    let bytes = vec![0x05u8; 3000];
    let mut record = enrolled("gamma.bin", &bytes);
    let stored = "z".repeat(64);
    record.signature = stored.clone();
    let (status, signature) = recorded(compare_signatures("gamma.bin", Lookup::Found(record), Some(&bytes)));
    assert_eq!(status, Status::Error);
    assert_eq!(signature, stored);
}

#[test]
fn unreadable_known_file_is_an_error() {
    let record = enrolled("alpha.bin", &[1u8; 100]);
    let root = record.signature.clone();
    let (status, signature) = recorded(compare_signatures("alpha.bin", Lookup::Found(record), None));
    assert_eq!(status, Status::Error);
    assert_eq!(signature, root);
}

#[test]
fn store_failure_is_an_error() {
    let (status, signature) = recorded(compare_signatures("alpha.bin", Lookup::Failed, Some(&[1u8; 10])));
    assert_eq!(status, Status::Error);
    assert_eq!(signature, "");
}
