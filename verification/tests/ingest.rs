use cli_bloom::ingest::{path_precedes, sort_entries};
use cli_bloom::{Entry, EntryKind, Error, ErrorRate, FsIndex, IoFailure, Reading, Source};

fn index() -> FsIndex {
    FsIndex::new(ErrorRate::from_bits(0.01f32.to_bits()).unwrap())
}

fn text(path: &str, content: &str) -> Entry {
    Entry {
        path: path.to_string(),
        kind: EntryKind::File(Reading::Bytes(content.as_bytes().to_vec())),
    }
}

fn other(path: &str, kind: EntryKind) -> Entry {
    Entry { path: path.to_string(), kind }
}

fn keys(index: &FsIndex) -> Vec<String> {
    index.dump().bloom_filters.into_iter().map(|entry| entry.key).collect()
}

#[test]
fn paths_are_ordered_by_their_bytes() {
    let before = |a: &str, b: &str| path_precedes(&a.to_string(), &b.to_string());
    assert!(before("", ""));
    assert!(before("", "a"));
    assert!(!before("a", ""));
    assert!(before("a", "a"));
    assert!(before("a", "b"));
    assert!(!before("b", "a"));
    assert!(before("file1.txt", "file10.txt"));
    assert!(before("file10.txt", "file2.txt"));
    assert!(!before("file2.txt", "file10.txt"));
    assert!(before("Z", "a"));
    assert!(before("z", "\u{e9}"));
    assert!(before("\u{e9}", "\u{4e2d}"));
    for (a, b) in [("x/a", "x/b"), ("ab", "abc"), ("b", "abc"), ("\u{ff}", "\u{100}")] {
        assert_eq!(a.to_string() <= b.to_string(), before(a, b));
        assert_eq!(b.to_string() <= a.to_string(), before(b, a));
    }
}

#[test]
fn entries_are_sorted_by_path() {
    let entries = vec![
        text("d/c.txt", "3"),
        text("d/a.txt", "1"),
        other("d/b", EntryKind::Other),
        text("d/a.txt", "second of the same path"),
        text("d/B.txt", "0"),
    ];
    let sorted = sort_entries(entries);
    let paths: Vec<&str> = sorted.iter().map(|entry| entry.path.as_str()).collect();
    assert_eq!(vec!["d/B.txt", "d/a.txt", "d/a.txt", "d/b", "d/c.txt"], paths);
    match &sorted[2].kind {
        EntryKind::File(Reading::Bytes(bytes)) => {
            assert_eq!(b"second of the same path".to_vec(), *bytes)
        },
        _ => panic!("the entries of one path changed places"),
    }
    assert_eq!(0, sort_entries(vec![]).len());
}

#[test]
fn a_directory_is_ingested_in_the_order_of_its_paths() {
    let mut index = index();
    let entries = vec![text("d/c", "shared"), text("d/a", "shared"), text("d/b", "shared")];
    assert_eq!(Ok(()), index.ingest(Source::Directory { entries }));
    assert_eq!(vec!["d/a", "d/b", "d/c"], index.search("shared").unwrap());
}

#[test]
fn a_file_that_is_not_text_is_passed_over_in_a_directory() {
    let mut index = index();
    let entries = vec![
        text("d/valid.txt", "word1 word2"),
        other("d/image.png", EntryKind::File(Reading::Bytes(vec![0x89, 0x50, 0xff]))),
        other("d/late.txt", EntryKind::File(Reading::Failed(IoFailure::InvalidData))),
        other("d/sub", EntryKind::Other),
    ];
    assert_eq!(Ok(()), index.ingest(Source::Directory { entries }));
    assert_eq!(vec!["d/valid.txt"], keys(&index));
    assert_eq!(vec!["d/valid.txt"], index.search("word1").unwrap());
}

#[test]
fn a_file_that_is_not_text_fails_alone_and_changes_nothing() {
    let mut index = index();
    assert_eq!(Ok(()), index.ingest(Source::File {
        path: "a.txt".to_string(),
        reading: Reading::Bytes(b"word1".to_vec()),
    }));
    let source = Source::File {
        path: "a.txt".to_string(),
        reading: Reading::Bytes(vec![b'w', 0xc3, 0x28]),
    };
    assert_eq!(Err(Error::InvalidEncoding), index.ingest(source));
    assert_eq!(vec!["a.txt"], keys(&index));
    assert_eq!(vec!["a.txt"], index.search("word1").unwrap());
    let source = Source::File {
        path: "b.txt".to_string(),
        reading: Reading::Failed(IoFailure::InvalidData),
    };
    assert_eq!(Err(Error::InvalidEncoding), index.ingest(source));
    assert_eq!(vec!["a.txt"], keys(&index));
}

#[test]
fn a_failed_read_ends_the_ingestion() {
    let mut index = index();
    let entries = vec![
        text("d/c.txt", "late"),
        other("d/b.txt", EntryKind::File(Reading::Failed(IoFailure::Other))),
        text("d/a.txt", "early"),
    ];
    assert_eq!(Err(Error::Io), index.ingest(Source::Directory { entries }));
    assert_eq!(vec!["d/a.txt"], keys(&index));
    assert_eq!(None, index.search("late"));
    let source = Source::File { path: "f".to_string(), reading: Reading::Failed(IoFailure::Other) };
    assert_eq!(Err(Error::Io), index.ingest(source));
    assert_eq!(vec!["d/a.txt"], keys(&index));
}

#[test]
fn an_entry_of_which_nothing_is_known_ends_the_ingestion() {
    let mut index = index();
    let entries = vec![
        text("d/a.txt", "early"),
        other("d/b", EntryKind::Unknown(IoFailure::InvalidData)),
        text("d/c.txt", "late"),
    ];
    assert_eq!(Err(Error::InvalidEncoding), index.ingest(Source::Directory { entries }));
    assert_eq!(vec!["d/a.txt"], keys(&index));
    let entries = vec![other("d/b", EntryKind::Unknown(IoFailure::Other))];
    assert_eq!(Err(Error::Io), index.ingest(Source::Directory { entries }));
}

#[test]
fn a_directory_that_cannot_be_listed_fails() {
    let mut index = index();
    assert_eq!(Err(Error::Io), index.ingest(Source::Unlisted { failure: IoFailure::Other }));
    assert_eq!(
        Err(Error::InvalidEncoding),
        index.ingest(Source::Unlisted { failure: IoFailure::InvalidData })
    );
    assert_eq!(Err(Error::UnsupportedSource), index.ingest(Source::Unsupported));
    assert_eq!(0, keys(&index).len());
}

#[test]
fn text_is_decoded_as_utf8() {
    let mut index = index();
    let source = Source::File {
        path: "caf\u{e9}.txt".to_string(),
        reading: Reading::Bytes("Cr\u{e8}me BR\u{db}L\u{c9}E \u{4e2d}\u{6587}".as_bytes().to_vec()),
    };
    assert_eq!(Ok(()), index.ingest(source));
    assert_eq!(vec!["caf\u{e9}.txt"], index.search("cr\u{e8}me").unwrap());
    assert_eq!(vec!["caf\u{e9}.txt"], index.search("br\u{fb}l\u{e9}e").unwrap());
    assert_eq!(vec!["caf\u{e9}.txt"], index.search("\u{4e2d}\u{6587}").unwrap());
    assert_eq!(None, index.search("cr\u{c3}\u{a8}me"));
}

#[test]
fn an_empty_file_is_a_document_without_tokens() {
    let mut index = index();
    let source = Source::File { path: "empty".to_string(), reading: Reading::Bytes(vec![]) };
    assert_eq!(Ok(()), index.ingest(source));
    assert_eq!(vec!["empty"], keys(&index));
    assert_eq!(None, index.search("word1"));
}

#[test]
fn every_error_has_its_message() {
    assert_eq!("Error reading file", Error::Io.message());
    assert_eq!("Error source must be an UTF-8 text file", Error::InvalidEncoding.message());
    assert_eq!("source type must be file or directory", Error::UnsupportedSource.message());
    assert_eq!("Error dump is not a valid index", Error::MalformedSnapshot.message());
    assert_eq!("File not found", Error::DestinationNotFound.message());
    assert_eq!("Impossible to create dump file", Error::DestinationUnwritable.message());
    assert_eq!(Error::InvalidEncoding, Error::from(IoFailure::InvalidData));
    assert_eq!(Error::Io, Error::from(IoFailure::Other));
    assert!(Error::InvalidEncoding.is_skippable());
    assert!(!Error::Io.is_skippable());
}

#[test]
fn the_scenario_of_two_files() {
    let mut index = FsIndex::new(ErrorRate::from_bits(0.01f32.to_bits()).unwrap());
    let entries = vec![text("file1.txt", "word1 word2 word3"), text("file2.txt", "word4 word5")];
    assert_eq!(Ok(()), index.ingest(Source::Directory { entries }));
    assert_eq!(vec!["file1.txt"], index.search("word1").unwrap());
    assert_eq!(vec!["file2.txt"], index.search("word4").unwrap());
    assert_eq!(None, index.search("word6"));
}
