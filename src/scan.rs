use vstd::prelude::*;
use vstd::string::StringExecFns;

use crate::digest::merkle_root_of;
use crate::signature_handler::{
    check_boundaries, check_outcome, chunk_digests, is_enrollment, lemma_enroll_then_check,
    lemma_enrollment_well_formed, strings_view, Signature, SignatureError, SignatureHandler,
};

verus! {

/// The result of one file's scan.
#[derive(Debug, Clone, Copy, PartialEq, Eq, Structural)]
pub enum Status {
    /// Seen for the first time; its record was saved.
    Initialized,
    /// Its bytes match its record.
    Valid,
    /// Its bytes no longer match its record.
    Corrupted,
    /// It could not be enrolled or checked.
    Error,
}

pub open spec fn status_label(s: Status) -> Seq<char> {
    match s {
        Status::Initialized => "initialized"@,
        Status::Valid => "valid"@,
        Status::Corrupted => "corrupted"@,
        Status::Error => "error"@,
    }
}

impl Status {
    /// The word that names the status in a report.
    pub fn label(&self) -> (r: String)
        ensures
            r@ == status_label(*self),
    {
        proof {
            reveal_strlit("initialized");
            reveal_strlit("valid");
            reveal_strlit("corrupted");
            reveal_strlit("error");
        }
        match self {
            Status::Initialized => String::from_str("initialized"),
            Status::Valid => String::from_str("valid"),
            Status::Corrupted => String::from_str("corrupted"),
            Status::Error => String::from_str("error"),
        }
    }
}

/// The status of one file in a scan, with the signature it was judged by.
pub struct FileStatus {
    pub status: Status,
    pub signature: String,
}

/// What the store answered when asked for a file's record.
pub enum Lookup {
    Found(Signature),
    Missing,
    /// The store could not be read.
    Failed,
}

/// What the scan does next for one file.
pub enum Step {
    /// Save this new record, then settle the file's status.
    Save(Signature),
    /// Record this status; the store is left as it is.
    Record(FileStatus),
}

/// The status that a check's outcome gives.
pub open spec fn verdict(outcome: Result<Seq<usize>, SignatureError>) -> Status {
    match outcome {
        Ok(c) => if c.len() == 0 {
            Status::Valid
        } else {
            Status::Corrupted
        },
        Err(_) => Status::Error,
    }
}

/// The status of a file whose record is `rec` and whose bytes are `b`.
pub open spec fn checked_status(b: Seq<u8>, rec: Signature) -> Status {
    verdict(
        check_outcome(
            b,
            rec.signature@,
            strings_view(rec.leaves@),
            Some(rec.chunk_positions@),
        ),
    )
}

pub open spec fn records(step: Step, status: Status, signature: Seq<char>) -> bool {
    step matches Step::Record(fs) && fs.status == status && fs.signature@ == signature
}

/// Decides the next step for the file `file_name`, given what the store held
/// for it and its bytes (`None` when the file could not be read). A known file
/// is checked against its record and never rewritten; an unknown file that
/// can be enrolled yields a record to save; every failure is an error status.
pub fn compare_signatures(file_name: &str, lookup: Lookup, contents: Option<&[u8]>) -> (r: Step)
    ensures
        lookup is Failed ==> records(r, Status::Error, seq![]),
        lookup matches Lookup::Found(rec) ==> match contents {
            Some(b) => records(r, checked_status(b@, rec), rec.signature@),
            None => records(r, Status::Error, rec.signature@),
        },
        lookup is Missing ==> match contents {
            Some(b) => if b@.len() == 0 {
                records(r, Status::Error, seq![])
            } else {
                r matches Step::Save(rec) && rec.file_name@ == file_name@ && is_enrollment(
                    b@,
                    rec.signature@,
                    strings_view(rec.leaves@),
                    rec.chunk_positions@,
                ) && rec.well_formed()
            },
            None => records(r, Status::Error, seq![]),
        },
{
    match lookup {
        Lookup::Failed => Step::Record(FileStatus { status: Status::Error, signature: String::new() }),
        Lookup::Found(rec) => {
            let status = match contents {
                Some(buffer) => {
                    match SignatureHandler::check_broken_chunks(
                        buffer,
                        rec.signature.as_str(),
                        rec.leaves.as_slice(),
                        Some(rec.chunk_positions.as_slice()),
                    ) {
                        Ok(corrupted) => if corrupted.len() == 0 {
                            Status::Valid
                        } else {
                            Status::Corrupted
                        },
                        Err(_) => Status::Error,
                    }
                },
                None => Status::Error,
            };
            Step::Record(FileStatus { status, signature: rec.signature })
        },
        Lookup::Missing => {
            let buffer = match contents {
                Some(buffer) => buffer,
                None => {
                    return Step::Record(
                        FileStatus { status: Status::Error, signature: String::new() },
                    );
                },
            };
            if buffer.len() == 0 {
                return Step::Record(FileStatus { status: Status::Error, signature: String::new() });
            }
            match SignatureHandler::generate_signature_with_leaves(buffer) {
                Ok((signature, leaves, chunk_positions)) => {
                    proof {
                        lemma_enrollment_well_formed(
                            buffer@,
                            signature@,
                            strings_view(leaves@),
                            chunk_positions@,
                        );
                    }
                    Step::Save(
                        Signature {
                            file_name: file_name.to_owned(),
                            signature,
                            leaves,
                            chunk_positions,
                        },
                    )
                },
                Err(_) => Step::Record(
                    FileStatus { status: Status::Error, signature: String::new() },
                ),
            }
        },
    }
}

/// The status of a newly enrolled file once the store has answered the save:
/// initialized with its root when saved, an error otherwise.
pub fn enrollment_status(record: &Signature, saved: bool) -> (r: FileStatus)
    ensures
        saved ==> r.status == Status::Initialized && r.signature@ == record.signature@,
        !saved ==> r.status == Status::Error && r.signature@.len() == 0,
{
    if saved {
        FileStatus { status: Status::Initialized, signature: record.signature.clone() }
    } else {
        FileStatus { status: Status::Error, signature: String::new() }
    }
}

/// A file whose bytes are those it was enrolled with is found valid against
/// the record that enrollment produced. The status is a function of the bytes
/// and the record alone, so every later scan finds the same; and a scan of a
/// known file never yields a save (see `compare_signatures`).
pub proof fn lemma_unchanged_file_stays_valid(b: Seq<u8>, rec: Signature)
    requires
        0 < b.len() <= usize::MAX,
        is_enrollment(b, rec.signature@, strings_view(rec.leaves@), rec.chunk_positions@),
    ensures
        checked_status(b, rec) == Status::Valid,
{
    lemma_enroll_then_check(b, rec.signature@, strings_view(rec.leaves@), rec.chunk_positions@);
}

/// Bytes checked against the record that enrolling other bytes produced are
/// found corrupted whenever the Merkle root over their chunks, cut at the
/// stored positions that fall inside them and closed by their length,
/// differs from the stored root.
pub proof fn lemma_changed_file_corrupted(b: Seq<u8>, b2: Seq<u8>, rec: Signature)
    requires
        0 < b.len() <= usize::MAX,
        0 < b2.len() <= usize::MAX,
        is_enrollment(b, rec.signature@, strings_view(rec.leaves@), rec.chunk_positions@),
        merkle_root_of(chunk_digests(b2, check_boundaries(b2, Some(rec.chunk_positions@))))
            != merkle_root_of(chunk_digests(b, rec.chunk_positions@)),
    ensures
        checked_status(b2, rec) == Status::Corrupted,
{
    lemma_enrollment_well_formed(
        b,
        rec.signature@,
        strings_view(rec.leaves@),
        rec.chunk_positions@,
    );
}

} // verus!
