//! Why loading a `.portfolio` byte stream fails.

use vstd::prelude::*;
use crate::text::{begins_with, decimal, decimal_text};

verus! {

/// Why a `.portfolio` byte stream could not be turned into a protobuf payload.
#[derive(Debug)]
pub enum LoadError {
    /// The ZIP reader refused the archive.
    ZipOpen(zip::result::ZipError),
    /// The ZIP reader could not open the entry at this index.
    ZipEntry(usize, zip::result::ZipError),
    /// Reading the `.portfolio` entry's contents failed.
    ZipRead(std::io::Error),
    /// The ZIP container holds no entry whose name ends in `.portfolio`.
    NoPortfolioEntry,
    /// The bytes lack the `PPPBV1` signature of the binary format.
    InvalidSignature,
    /// The file is an encrypted Portfolio Performance file (`PORTFOLIO` magic).
    Encrypted,
    /// No known magic prefix.
    UnknownFormat,
}

/// The kind of a [`LoadError`], without the outside error it may carry.
#[derive(PartialEq, Eq, Structural, Clone, Copy, Debug)]
pub enum ErrorKind {
    ZipOpen,
    ZipEntry(usize),
    ZipRead,
    NoPortfolioEntry,
    InvalidSignature,
    Encrypted,
    UnknownFormat,
}

/// What loading a byte stream comes to: the protobuf payload, or an error kind.
pub enum Outcome {
    Payload(Seq<u8>),
    Failure(ErrorKind),
}

impl LoadError {
    pub open spec fn spec_kind(&self) -> ErrorKind {
        match *self {
            LoadError::ZipOpen(_) => ErrorKind::ZipOpen,
            LoadError::ZipEntry(i, _) => ErrorKind::ZipEntry(i),
            LoadError::ZipRead(_) => ErrorKind::ZipRead,
            LoadError::NoPortfolioEntry => ErrorKind::NoPortfolioEntry,
            LoadError::InvalidSignature => ErrorKind::InvalidSignature,
            LoadError::Encrypted => ErrorKind::Encrypted,
            LoadError::UnknownFormat => ErrorKind::UnknownFormat,
        }
    }

    /// The kind of this error.
    #[verifier::when_used_as_spec(spec_kind)]
    pub fn kind(&self) -> (k: ErrorKind)
        ensures
            k == self.spec_kind(),
    {
        match self {
            LoadError::ZipOpen(_) => ErrorKind::ZipOpen,
            LoadError::ZipEntry(i, _) => ErrorKind::ZipEntry(*i),
            LoadError::ZipRead(_) => ErrorKind::ZipRead,
            LoadError::NoPortfolioEntry => ErrorKind::NoPortfolioEntry,
            LoadError::InvalidSignature => ErrorKind::InvalidSignature,
            LoadError::Encrypted => ErrorKind::Encrypted,
            LoadError::UnknownFormat => ErrorKind::UnknownFormat,
        }
    }
}

/// `ZipError`'s `Display` text (`to_string`). What the text is is not
/// stated: the error is opaque here.
#[verifier::external_body]
fn zip_error_text(e: &zip::result::ZipError) -> String {
    e.to_string()
}

/// `std::io::Error`'s `Display` text (`to_string`). What the text is is not
/// stated: the error is opaque here.
#[verifier::external_body]
fn io_error_text(e: &std::io::Error) -> String {
    e.to_string()
}

impl LoadError {
    /// The message shown to the user. Errors from the ZIP reader end in the
    /// reader's own description; a failed read of the entry is described by
    /// the I/O error alone.
    pub fn message(&self) -> (m: String)
        ensures
            match self {
                LoadError::ZipOpen(_) => begins_with(m@, "Failed to open ZIP: "@),
                LoadError::ZipEntry(i, _) => begins_with(m@, "Failed to read ZIP entry "@ + decimal(*i as nat) + ": "@),
                LoadError::ZipRead(_) => true,
                LoadError::NoPortfolioEntry => m@ == "No .portfolio entry found inside ZIP archive"@,
                LoadError::InvalidSignature => m@ == "Invalid binary signature (expected PPPBV1)"@,
                LoadError::Encrypted => m@ == "Encrypted portfolio files are not supported. Please export as unencrypted from Portfolio Performance."@,
                LoadError::UnknownFormat => m@ == "Unknown file format (not a valid .portfolio file)"@,
            },
    {
        match self {
            LoadError::ZipOpen(e) => {
                let t = zip_error_text(e);
                let m = String::from_str("Failed to open ZIP: ").concat(t.as_str());
                assert(m@.subrange(0, "Failed to open ZIP: "@.len() as int) =~= "Failed to open ZIP: "@);
                m
            },
            LoadError::ZipEntry(i, e) => {
                let mut m = String::from_str("Failed to read ZIP entry ");
                let n = decimal_text(*i);
                m.append(n.as_str());
                m.append(": ");
                let ghost p = m@;
                let t = zip_error_text(e);
                m.append(t.as_str());
                assert(m@.subrange(0, p.len() as int) =~= p);
                m
            },
            LoadError::ZipRead(e) => io_error_text(e),
            LoadError::NoPortfolioEntry => String::from_str("No .portfolio entry found inside ZIP archive"),
            LoadError::InvalidSignature => String::from_str("Invalid binary signature (expected PPPBV1)"),
            LoadError::Encrypted => String::from_str(
                "Encrypted portfolio files are not supported. Please export as unencrypted from Portfolio Performance.",
            ),
            LoadError::UnknownFormat => String::from_str("Unknown file format (not a valid .portfolio file)"),
        }
    }
}

/// `r` is what `o` describes: the same payload, or an error of the same kind.
pub open spec fn meets(r: Result<Vec<u8>, LoadError>, o: Outcome) -> bool {
    match (r, o) {
        (Ok(p), Outcome::Payload(q)) => p@ == q,
        (Err(e), Outcome::Failure(k)) => e.spec_kind() == k,
        _ => false,
    }
}

} // verus!
