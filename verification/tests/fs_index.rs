use cli_bloom::{
    Entry, EntryKind, Error, ErrorRate, FsIndex, IoFailure, Reading, Snapshot, SnapshotEntry,
    Source,
};
use cli_bloom::FilterParts;

fn rate(value: f32) -> ErrorRate {
    ErrorRate::from_bits(value.to_bits()).unwrap()
}

fn text_file(path: &str, content: &str) -> Source {
    Source::File { path: path.to_string(), reading: Reading::Bytes(content.as_bytes().to_vec()) }
}

fn text_entry(path: &str, content: &str) -> Entry {
    Entry {
        path: path.to_string(),
        kind: EntryKind::File(Reading::Bytes(content.as_bytes().to_vec())),
    }
}

fn image() -> Vec<u8> {
    vec![0x89, 0x50, 0x4e, 0x47, 0x0d, 0x0a, 0x1a, 0x0a, 0x00, 0x00, 0x00, 0x0d, 0xff, 0xd8]
}

fn simple_content() -> Source {
    text_file("./test/data/simple_content.txt", "word1 word2 word3 word4\n")
}

fn simple_directory() -> Source {
    Source::Directory {
        entries: vec![
            text_entry("./test/data/simple_directory/file2.txt", "word4 word5\n"),
            text_entry("./test/data/simple_directory/file1.txt", "word1 word2 word3\n"),
        ],
    }
}

fn several_matches_directory() -> Source {
    Source::Directory {
        entries: vec![
            text_entry("./test/data/several_matches_directory/file1.txt", "word1 word2 word3\n"),
            text_entry("./test/data/several_matches_directory/file2.txt", "word1 word3\n"),
        ],
    }
}

#[test]
fn index_source_is_file() {
    let mut index = FsIndex::new(rate(0.01));
    assert_eq!(Ok(()), index.ingest(simple_content()));
    assert_eq!(vec!["./test/data/simple_content.txt"], index.search("word1").unwrap());
}

#[test]
fn index_source_is_directory() {
    let mut index = FsIndex::new(rate(0.01));
    assert_eq!(Ok(()), index.ingest(simple_directory()));
    assert_eq!(vec!["./test/data/simple_directory/file1.txt"], index.search("word1").unwrap());
    assert_eq!(vec!["./test/data/simple_directory/file2.txt"], index.search("word4").unwrap());
}

#[test]
fn index_source_is_binary_file() {
    let mut index = FsIndex::new(rate(0.01));
    let source = Source::File {
        path: "./test/data/image_file.png".to_string(),
        reading: Reading::Bytes(image()),
    };
    let error = index.ingest(source).unwrap_err();
    assert_eq!(Error::InvalidEncoding, error);
    assert_eq!("Error source must be an UTF-8 text file", error.message());
    assert_eq!(0, index.dump().bloom_filters.len());
}

#[test]
fn index_source_is_unsupported() {
    let mut index = FsIndex::new(rate(0.01));
    let error = index.ingest(Source::Unsupported).unwrap_err();
    assert_eq!(Error::UnsupportedSource, error);
    assert_eq!("source type must be file or directory", error.message());
}

#[test]
fn index_source_is_directory_with_mixed_content() {
    let mut index = FsIndex::new(rate(0.01));
    let source = Source::Directory {
        entries: vec![
            Entry {
                path: "./test/data/directory_with_mixed_content/image_file.png".to_string(),
                kind: EntryKind::File(Reading::Bytes(image())),
            },
            text_entry(
                "./test/data/directory_with_mixed_content/simple_content.txt",
                "word1 word2 word3 word4\n",
            ),
        ],
    };
    assert_eq!(Ok(()), index.ingest(source));
    assert_eq!(
        vec!["./test/data/directory_with_mixed_content/simple_content.txt"],
        index.search("word1").unwrap()
    );
    assert_eq!(1, index.dump().bloom_filters.len());
}

#[test]
fn file_simple_content() {
    let mut index = FsIndex::new(rate(0.01));
    assert_eq!(Ok(()), index.ingest(simple_content()));
    assert_eq!(vec!["./test/data/simple_content.txt"], index.search("word1").unwrap());
    assert_eq!(vec!["./test/data/simple_content.txt"], index.search("word2").unwrap());
    assert_eq!(vec!["./test/data/simple_content.txt"], index.search("word3").unwrap());
    assert_eq!(vec!["./test/data/simple_content.txt"], index.search("word4").unwrap());
}

#[test]
fn simple_directory_content() {
    let mut index = FsIndex::new(rate(0.01));
    assert_eq!(Ok(()), index.ingest(simple_directory()));
    assert_eq!(vec!["./test/data/simple_directory/file1.txt"], index.search("word1").unwrap());
    assert_eq!(vec!["./test/data/simple_directory/file1.txt"], index.search("word2").unwrap());
    assert_eq!(vec!["./test/data/simple_directory/file1.txt"], index.search("word3").unwrap());
    assert_eq!(vec!["./test/data/simple_directory/file2.txt"], index.search("word4").unwrap());
    assert_eq!(vec!["./test/data/simple_directory/file2.txt"], index.search("word5").unwrap());
}

#[test]
fn random_directory_content() {
    let mut index = FsIndex::new(rate(0.01));
    let source = Source::Directory {
        entries: vec![
            text_entry("./test/data/random_directory/file1.txt", "word1 word2 word3\n"),
            Entry {
                path: "./test/data/random_directory/file2.bin".to_string(),
                kind: EntryKind::File(Reading::Bytes(image())),
            },
            Entry { path: "./test/data/random_directory/nested".to_string(), kind: EntryKind::Other },
        ],
    };
    assert_eq!(Ok(()), index.ingest(source));
    assert_eq!(vec!["./test/data/random_directory/file1.txt"], index.search("word1").unwrap());
    assert_eq!(vec!["./test/data/random_directory/file1.txt"], index.search("word2").unwrap());
    assert_eq!(vec!["./test/data/random_directory/file1.txt"], index.search("word3").unwrap());
    assert_eq!(None, index.search("word4"));
    assert_eq!(None, index.search("word5"));
}

#[test]
fn several_matches() {
    let mut index = FsIndex::new(rate(0.01));
    assert_eq!(Ok(()), index.ingest(several_matches_directory()));
    let expected = vec!["./test/data/several_matches_directory/file1.txt"];
    assert_eq!(expected, index.search("word2").unwrap());
    let expected = vec![
        "./test/data/several_matches_directory/file1.txt",
        "./test/data/several_matches_directory/file2.txt",
    ];
    assert_eq!(index.search("word1").unwrap(), expected);
    assert_eq!(index.search("word3").unwrap(), expected);
}

#[test]
fn multi_keywords_search() {
    let mut index = FsIndex::new(rate(0.01));
    assert_eq!(Ok(()), index.ingest(several_matches_directory()));
    let expected = vec!["./test/data/several_matches_directory/file1.txt"];
    assert_eq!(expected, index.search("word1 word2").unwrap());
}

#[test]
fn clean_keywords_before_search() {
    let mut index = FsIndex::new(rate(0.01));
    assert_eq!(Ok(()), index.ingest(simple_directory()));
    let expected = vec!["./test/data/simple_directory/file1.txt"];
    assert_eq!(index.search("(word1) Word2, word3?").unwrap(), expected);
}

fn simple_dump() -> Snapshot {
    Snapshot {
        error_rate: 0.01f32.to_bits(),
        bloom_filters: vec![
            SnapshotEntry {
                key: "./test/data/simple_directory/file1.txt".to_string(),
                filter: FilterParts {
                    key_size: 7,
                    bitfield: vec![95, 74, 94, 6],
                    bitfield_size: 29,
                },
            },
            SnapshotEntry {
                key: "./test/data/simple_directory/file2.txt".to_string(),
                filter: FilterParts { key_size: 7, bitfield: vec![114, 178, 6], bitfield_size: 20 },
            },
        ],
    }
}

#[test]
fn restore_index() {
    let index = FsIndex::restore(simple_dump()).unwrap();
    let expected = vec!["./test/data/simple_directory/file1.txt"];
    assert_eq!(index.search("(word1) Word2, word3?").unwrap(), expected);
}

#[test]
fn restore_wrong_file() {
    let mut snapshot = simple_dump();
    snapshot.bloom_filters[1].filter.bitfield = image();
    let error = FsIndex::restore(snapshot).err().unwrap();
    assert_eq!(Error::MalformedSnapshot, error);
    assert_eq!("Error dump is not a valid index", error.message());
}

#[test]
fn restore_unknown_file() {
    assert_eq!("File not found", Error::DestinationNotFound.message());
    assert_eq!(Error::Io, Error::from(IoFailure::Other));
}

#[test]
fn dump_index() {
    let mut index = FsIndex::new(rate(0.1));
    assert_eq!(Ok(()), index.ingest(simple_content()));
    let snapshot = index.dump();
    assert_eq!(0.1f32.to_bits(), snapshot.error_rate);
    assert_eq!(1, snapshot.bloom_filters.len());
    let entry = &snapshot.bloom_filters[0];
    assert_eq!("./test/data/simple_content.txt", entry.key);
    assert_eq!(3, entry.filter.key_size);
    assert_eq!(vec![101, 58, 10], entry.filter.bitfield);
    assert_eq!(20, entry.filter.bitfield_size);
}

#[test]
fn dump_in_directory() {
    assert_eq!("Impossible to create dump file", Error::DestinationUnwritable.message());
}
