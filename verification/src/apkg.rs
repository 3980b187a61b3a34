//! Finding the collection inside an Anki package: the package is a zip archive,
//! and the collection is its first entry whose name ends in `collection.anki2`.
use std::io::Cursor;
use std::io::Read;
use vstd::prelude::*;
use zip::result::ZipError;
use zip::ZipArchive;

use crate::import::ImportError;
use crate::text::{chars_of, ends_with, has_suffix};

verus! {

/// `std::io::Cursor`, through which an archive reads bytes held in memory.
#[verifier::external_type_specification]
#[verifier::external_body]
#[verifier::reject_recursive_types(T)]
pub struct ExCursor<T>(Cursor<T>);

/// `zip::ZipArchive`.
#[verifier::external_type_specification]
#[verifier::external_body]
#[verifier::reject_recursive_types(R)]
pub struct ExZipArchive<R>(ZipArchive<R>);

/// `zip::result::ZipError`.
#[verifier::external_type_specification]
#[verifier::external_body]
pub struct ExZipError(ZipError);

/// `std::io::Error`.
#[verifier::external_type_specification]
#[verifier::external_body]
pub struct ExIoError(std::io::Error);

/// What `zip::ZipArchive::new` reads from bytes: `None` when they are not a zip
/// archive; else, entry by entry in the archive's order, the entry's name
/// (`None` where `ZipArchive::by_index` fails on it) and its data (`None` where
/// the entry cannot be opened or read to its end).
pub uninterp spec fn zip_read(data: Seq<u8>) -> Option<
    (Seq<Option<Seq<char>>>, Seq<Option<Seq<u8>>>),
>;

/// The entry names an archive holds, as [`zip_read`] describes them.
pub uninterp spec fn archive_names(a: ZipArchive<Cursor<Vec<u8>>>) -> Seq<Option<Seq<char>>>;

/// The entry data an archive holds, as [`zip_read`] describes them.
pub uninterp spec fn archive_data(a: ZipArchive<Cursor<Vec<u8>>>) -> Seq<Option<Seq<u8>>>;

/// Reads `data` as a zip archive with `ZipArchive::new` over a `Cursor`. This
/// contract claims that it succeeds exactly when [`zip_read`] of the bytes is
/// `Some`, and that the archive then holds the entries `zip_read` lists.
#[verifier::external_body]
fn open_archive(data: Vec<u8>) -> (r: Result<ZipArchive<Cursor<Vec<u8>>>, ZipError>)
    ensures
        r is Ok <==> zip_read(data@) is Some,
        r matches Ok(a) ==> zip_read(data@) == Some((archive_names(a), archive_data(a))),
{
    ZipArchive::new(Cursor::new(data))
}

/// The number of entries of an archive (`ZipArchive::len`): as many as it has
/// names and data.
#[verifier::external_body]
fn archive_len(a: &ZipArchive<Cursor<Vec<u8>>>) -> (n: usize)
    ensures
        n == archive_names(*a).len(),
        n == archive_data(*a).len(),
{
    a.len()
}

/// The name of entry `i`, through `ZipArchive::by_index` and `ZipFile::name`.
/// This contract claims that it is had exactly where [`archive_names`] has one,
/// and that reading it leaves the archive's entries as they were.
#[verifier::external_body]
fn entry_name(a: &mut ZipArchive<Cursor<Vec<u8>>>, i: usize) -> (r: Result<String, ZipError>)
    requires
        i < archive_names(*old(a)).len(),
    ensures
        archive_names(*final(a)) == archive_names(*old(a)),
        archive_data(*final(a)) == archive_data(*old(a)),
        r is Ok <==> archive_names(*old(a))[i as int] is Some,
        r matches Ok(s) ==> archive_names(*old(a))[i as int] == Some(s@),
{
    match a.by_index(i) {
        Ok(f) => Ok(f.name().to_string()),
        Err(e) => Err(e),
    }
}

/// The data of entry `i`, through `ZipArchive::by_index` and
/// `Read::read_to_end` into a new buffer. This contract claims that it is had
/// exactly where [`archive_data`] has it, and that reading it leaves the
/// archive's entries as they were.
#[verifier::external_body]
fn entry_data(a: &mut ZipArchive<Cursor<Vec<u8>>>, i: usize) -> (r: Result<
    Vec<u8>,
    std::io::Error,
>)
    requires
        i < archive_data(*old(a)).len(),
    ensures
        archive_names(*final(a)) == archive_names(*old(a)),
        archive_data(*final(a)) == archive_data(*old(a)),
        r is Ok <==> archive_data(*old(a))[i as int] is Some,
        r matches Ok(b) ==> archive_data(*old(a))[i as int] == Some(b@),
{
    let mut f = a.by_index(i)?;
    let mut buf = Vec::new();
    f.read_to_end(&mut buf)?;
    Ok(buf)
}

/// The name that marks a package's collection.
pub open spec fn collection_suffix() -> Seq<char> {
    "collection.anki2"@
}

/// Whether an entry holds the collection: its name is `collection.anki2` or
/// ends with it.
pub open spec fn is_collection_name(name: Seq<char>) -> bool {
    ends_with(name, collection_suffix())
}

/// The outcome of searching the entries from `i` on: the data of the first
/// collection entry, an error at the first entry that cannot be opened before
/// it, an error if its data cannot be read, or `NoCollection` when there is none.
pub open spec fn collection_from(
    names: Seq<Option<Seq<char>>>,
    data: Seq<Option<Seq<u8>>>,
    i: nat,
) -> Result<Seq<u8>, ImportError>
    decreases names.len() - i,
{
    if i >= names.len() {
        Err(ImportError::NoCollection)
    } else {
        match names[i as int] {
            None => Err(ImportError::EntryUnreadable),
            Some(n) => {
                if is_collection_name(n) {
                    match data[i as int] {
                        Some(b) => Ok(b),
                        None => Err(ImportError::CollectionUnreadable),
                    }
                } else {
                    collection_from(names, data, i + 1)
                }
            },
        }
    }
}

/// What reading a package gives: `NotAnArchive` for bytes that are not a zip
/// archive, else the outcome of searching its entries.
pub open spec fn package_collection(data: Seq<u8>) -> Result<Seq<u8>, ImportError> {
    match zip_read(data) {
        None => Err(ImportError::NotAnArchive),
        Some(entries) => collection_from(entries.0, entries.1, 0),
    }
}

/// The view of a search outcome.
pub open spec fn outcome_view(r: Result<Vec<u8>, ImportError>) -> Result<Seq<u8>, ImportError> {
    match r {
        Ok(b) => Ok(b@),
        Err(e) => Err(e),
    }
}

/// Searches an archive's entries for the collection, as [`collection_from`]
/// says from the first entry.
pub fn search_collection(archive: &mut ZipArchive<Cursor<Vec<u8>>>) -> (r: Result<
    Vec<u8>,
    ImportError,
>)
    ensures
        outcome_view(r) == collection_from(
            archive_names(*old(archive)),
            archive_data(*old(archive)),
            0,
        ),
{
    let ghost names = archive_names(*archive);
    let ghost data = archive_data(*archive);
    let suffix = chars_of("collection.anki2");
    let n = archive_len(archive);
    let mut i: usize = 0;
    while i < n
        invariant
            i <= n,
            n == names.len(),
            n == data.len(),
            names == archive_names(*archive),
            data == archive_data(*archive),
            names == archive_names(*old(archive)),
            data == archive_data(*old(archive)),
            suffix@ == collection_suffix(),
            collection_from(names, data, i as nat) == collection_from(names, data, 0),
        decreases n - i,
    {
        let name = match entry_name(archive, i) {
            Ok(s) => s,
            Err(_) => {
                return Err(ImportError::EntryUnreadable);
            },
        };
        let cs = chars_of(name.as_str());
        if has_suffix(&cs, &suffix) {
            return match entry_data(archive, i) {
                Ok(b) => Ok(b),
                Err(_) => Err(ImportError::CollectionUnreadable),
            };
        }
        i += 1;
    }
    Err(ImportError::NoCollection)
}

/// The collection inside a package's bytes, as [`package_collection`] says.
pub fn find_collection(data: Vec<u8>) -> (r: Result<Vec<u8>, ImportError>)
    ensures
        outcome_view(r) == package_collection(data@),
{
    match open_archive(data) {
        Ok(mut archive) => search_collection(&mut archive),
        Err(_) => Err(ImportError::NotAnArchive),
    }
}

} // verus!
