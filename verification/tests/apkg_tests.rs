use std::io::{Cursor, Write};

use scallion_vocab::apkg::{find_collection, search_collection};
use scallion_vocab::import::ImportError;

fn zip_of(entries: &[(&str, &[u8])]) -> Vec<u8> {
    let mut w = zip::ZipWriter::new(Cursor::new(Vec::new()));
    for (name, data) in entries {
        w.start_file(*name, zip::write::SimpleFileOptions::default()).unwrap();
        w.write_all(data).unwrap();
    }
    w.finish().unwrap().into_inner()
}

#[test]
fn package_collection_is_found() {
    let data = zip_of(&[("media", b"{}"), ("collection.anki2", b"SQLite data")]);
    assert_eq!(find_collection(data), Ok(b"SQLite data".to_vec()));
}

#[test]
fn package_collection_may_lie_in_a_folder() {
    let data = zip_of(&[("deck/collection.anki2", b"inner")]);
    assert_eq!(find_collection(data), Ok(b"inner".to_vec()));
}

#[test]
fn package_first_collection_wins() {
    let data = zip_of(&[("a/collection.anki2", b"first"), ("collection.anki2", b"second")]);
    assert_eq!(find_collection(data), Ok(b"first".to_vec()));
}

#[test]
fn package_without_collection() {
    let data = zip_of(&[("collection.anki21", b"newer format"), ("media", b"{}")]);
    assert_eq!(find_collection(data), Err(ImportError::NoCollection));
    let empty = zip_of(&[]);
    assert_eq!(find_collection(empty), Err(ImportError::NoCollection));
}

#[test]
fn package_that_is_not_an_archive() {
    assert_eq!(find_collection(b"plain text, not a zip".to_vec()), Err(ImportError::NotAnArchive));
    assert_eq!(find_collection(Vec::new()), Err(ImportError::NotAnArchive));
}

#[test]
fn package_search_over_an_open_archive() {
    let data = zip_of(&[("x.txt", b"x"), ("collection.anki2", b"db")]);
    let mut archive = zip::ZipArchive::new(Cursor::new(data)).unwrap();
    assert_eq!(search_collection(&mut archive), Ok(b"db".to_vec()));
}
