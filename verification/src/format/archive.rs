//! The ZIP container: a `.portfolio` entry holding the binary format.

use std::io::Read;
use vstd::prelude::*;
use crate::error::{meets, ErrorKind, LoadError, Outcome};
use super::binary::{self, binary_outcome};
use super::{ends_with, has_suffix};

verus! {

/// `zip::ZipArchive`, opaque: what it holds is named by [`archive_entries`].
#[verifier::external_type_specification]
#[verifier::external_body]
#[verifier::reject_recursive_types(R)]
pub struct ExZipArchive<R>(zip::ZipArchive<R>);

/// `std::io::Cursor`, opaque: the reader an archive is opened over.
#[verifier::external_type_specification]
#[verifier::external_body]
#[verifier::reject_recursive_types(T)]
pub struct ExCursor<T>(std::io::Cursor<T>);

/// `zip::result::ZipError`, opaque: carried in [`LoadError`] for its message.
#[verifier::external_type_specification]
#[verifier::external_body]
pub struct ExZipError(zip::result::ZipError);

/// `std::io::Error`, opaque: carried in [`LoadError`] for its message.
#[verifier::external_type_specification]
#[verifier::external_body]
pub struct ExIoError(std::io::Error);

/// An opened archive over an in-memory copy of the file.
pub type Archive = zip::ZipArchive<std::io::Cursor<Vec<u8>>>;

/// What the archive reader makes of one entry: `None` where opening the
/// entry fails, else its name (UTF-8 bytes) and, where decompressing it
/// succeeds, its contents.
pub type EntryView = Option<(Seq<u8>, Option<Seq<u8>>)>;

/// The entries of an opened archive, in central-directory order.
pub uninterp spec fn archive_entries(a: Archive) -> Seq<EntryView>;

/// What `zip::ZipArchive::new` makes of the bytes: `None` where it refuses
/// them, else the entries of the archive it opens.
pub uninterp spec fn zip_listing(data: Seq<u8>) -> Option<Seq<EntryView>>;

/// Opens `data` with `zip::ZipArchive::new` over a `Cursor`. The contract
/// claims that the call fails exactly where `zip_listing` has no listing and
/// that the opened archive's entries are that listing; which bytes open is
/// left to `zip_listing`.
#[verifier::external_body]
fn zip_open(data: &[u8]) -> (r: Result<Archive, zip::result::ZipError>)
    ensures
        match r {
            Ok(a) => zip_listing(data@) == Some(archive_entries(a)),
            Err(_) => zip_listing(data@) is None,
        },
{
    zip::ZipArchive::new(std::io::Cursor::new(data.to_vec()))
}

/// `zip::ZipArchive::len`: the number of entries of the archive.
#[verifier::external_body]
fn zip_len(a: &Archive) -> (n: usize)
    ensures
        n == archive_entries(*a).len(),
{
    a.len()
}

/// `zip::ZipArchive::by_index` followed by `ZipFile::name`, the name given as
/// its UTF-8 bytes. The contract claims that opening the entry fails exactly
/// where its entry view is `None`, that the name is the one in the view, and
/// that the archive's entries stay as they were.
#[verifier::external_body]
fn zip_entry_name(a: &mut Archive, i: usize) -> (r: Result<Vec<u8>, zip::result::ZipError>)
    requires
        i < archive_entries(*old(a)).len(),
    ensures
        archive_entries(*final(a)) == archive_entries(*old(a)),
        match r {
            Ok(name) => archive_entries(*old(a))[i as int] matches Some((n, _)) && name@ == n,
            Err(_) => archive_entries(*old(a))[i as int] is None,
        },
{
    match a.by_index(i) {
        Ok(f) => Ok(f.name().as_bytes().to_vec()),
        Err(e) => Err(e),
    }
}

/// `zip::ZipArchive::by_index` followed by `Read::read_to_end` on the entry.
/// The contract claims that the read gives the contents of the entry's view
/// and fails exactly where the view has none, and that the archive's entries
/// stay as they were.
#[verifier::external_body]
fn zip_entry_contents(a: &mut Archive, i: usize) -> (r: Result<Vec<u8>, std::io::Error>)
    requires
        i < archive_entries(*old(a)).len(),
    ensures
        archive_entries(*final(a)) == archive_entries(*old(a)),
        match r {
            Ok(bytes) => archive_entries(*old(a))[i as int] matches Some((_, Some(c)))
                && bytes@ == c,
            Err(_) => !(archive_entries(*old(a))[i as int] matches Some((_, Some(_)))),
        },
{
    let mut f = a.by_index(i)?;
    let mut buf = Vec::new();
    f.read_to_end(&mut buf)?;
    Ok(buf)
}

} // verus!

verus! {

/// `.portfolio`, the suffix of the entry that holds the binary file.
pub open spec fn entry_suffix() -> Seq<u8> {
    seq![0x2eu8, 0x70u8, 0x6fu8, 0x72u8, 0x74u8, 0x66u8, 0x6fu8, 0x6cu8, 0x69u8, 0x6fu8]
}

/// Scanning the entries from index `i` on: the first entry that cannot be
/// opened stops the scan with its index; the first whose name ends in
/// `.portfolio` is read and its contents go to the binary format.
pub open spec fn scan_outcome(entries: Seq<EntryView>, i: int) -> Outcome
    decreases entries.len() - i,
{
    if i < 0 || i >= entries.len() {
        Outcome::Failure(ErrorKind::NoPortfolioEntry)
    } else {
        match entries[i] {
            None => Outcome::Failure(ErrorKind::ZipEntry(i as usize)),
            Some((name, contents)) => if has_suffix(name, entry_suffix()) {
                match contents {
                    Some(c) => binary_outcome(c),
                    None => Outcome::Failure(ErrorKind::ZipRead),
                }
            } else {
                scan_outcome(entries, i + 1)
            },
        }
    }
}

/// What loading a ZIP-wrapped file gives.
pub open spec fn zip_outcome(data: Seq<u8>) -> Outcome {
    match zip_listing(data) {
        None => Outcome::Failure(ErrorKind::ZipOpen),
        Some(entries) => scan_outcome(entries, 0),
    }
}

/// Open the ZIP archive in `data`, find the first entry named `*.portfolio`
/// and read it as the binary format.
pub fn load(data: &[u8]) -> (r: Result<Vec<u8>, LoadError>)
    ensures
        meets(r, zip_outcome(data@)),
{
    let mut archive = match zip_open(data) {
        Ok(a) => a,
        Err(e) => return Err(LoadError::ZipOpen(e)),
    };
    let ghost entries = archive_entries(archive);
    let suffix: [u8; 10] = [0x2eu8, 0x70u8, 0x6fu8, 0x72u8, 0x74u8, 0x66u8, 0x6fu8, 0x6cu8, 0x69u8, 0x6fu8];
    assert(suffix@ =~= entry_suffix());
    let n = zip_len(&archive);
    let mut i: usize = 0;
    while i < n
        invariant
            n == entries.len(),
            i <= n,
            archive_entries(archive) == entries,
            zip_listing(data@) == Some(entries),
            suffix@ == entry_suffix(),
            scan_outcome(entries, 0) == scan_outcome(entries, i as int),
        decreases n - i,
    {
        let name = match zip_entry_name(&mut archive, i) {
            Ok(name) => name,
            Err(e) => return Err(LoadError::ZipEntry(i, e)),
        };
        if ends_with(&name, &suffix) {
            let contents = match zip_entry_contents(&mut archive, i) {
                Ok(c) => c,
                Err(e) => return Err(LoadError::ZipRead(e)),
            };
            return binary::load(&contents);
        }
        i = i + 1;
    }
    Err(LoadError::NoPortfolioEntry)
}

} // verus!
