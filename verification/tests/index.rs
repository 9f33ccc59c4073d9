use cli_bloom::{DocumentIndex, Error, ErrorRate, FilterParts, Snapshot, SnapshotEntry};

fn rate(value: f32) -> ErrorRate {
    ErrorRate::from_bits(value.to_bits()).unwrap()
}

fn index_of(documents: &[(&str, &str)]) -> DocumentIndex {
    let mut index = DocumentIndex::new(rate(0.01));
    for (key, content) in documents {
        index.insert(key.to_string(), content);
    }
    index
}

fn token(text: &str) -> Vec<char> {
    text.chars().collect()
}

#[test]
fn an_empty_index_finds_nothing() {
    let index = DocumentIndex::new(rate(0.01));
    assert_eq!(0, index.len());
    assert_eq!(0.01f32.to_bits(), index.error_rate().to_bits());
    assert_eq!(None, index.search("word1"));
}

#[test]
fn every_token_of_a_document_finds_it() {
    let content = "It was the best of times, it was the worst of times.";
    let index = index_of(&[("other", "nothing in common"), ("tale", content)]);
    for word in ["it", "was", "the", "best", "of", "times", "worst", "Times.", "(BEST)"] {
        assert!(index.search(word).unwrap().contains(&&"tale".to_string()));
    }
    assert!(index.search_tokens(&vec![token("worst")]).unwrap().contains(&&"tale".to_string()));
}

#[test]
fn keywords_are_joined_by_and() {
    let index = index_of(&[("d", "word1 word2 word3"), ("e", "word4 word5")]);
    assert_eq!(vec!["d"], index.search("word1 word2").unwrap());
    assert_eq!(vec!["e"], index.search("word5 word4").unwrap());
    assert_eq!(None, index.search("word1 word4"));
}

#[test]
fn hits_come_in_insertion_order() {
    let index = index_of(&[("c", "shared one"), ("a", "shared two"), ("b", "shared three")]);
    assert_eq!(vec!["c", "a", "b"], index.search("shared").unwrap());
    assert_eq!(vec!["a"], index.search("two").unwrap());
}

#[test]
fn a_key_that_is_inserted_again_keeps_its_place() {
    let mut index = index_of(&[("a", "shared first"), ("b", "shared"), ("c", "shared")]);
    index.insert("a".to_string(), "shared second");
    assert_eq!(3, index.len());
    assert_eq!(vec!["a", "b", "c"], index.search("shared").unwrap());
    assert_eq!(vec!["a"], index.search("second").unwrap());
    assert_eq!(None, index.search("first"));
}

#[test]
fn no_match_is_none_and_never_an_empty_list() {
    let index = index_of(&[("a", "word1 word2 word3"), ("b", "word4 word5")]);
    assert_eq!(None, index.search("word6"));
    assert_eq!(None, index.search(""));
    assert_eq!(None, index.search(" (,) "));
    assert_eq!(None, index.search_tokens(&vec![]));
}

#[test]
fn a_search_may_give_a_false_positive() {
    let index = index_of(&[("a", "word1 word2 word3")]);
    assert_eq!(vec!["a"], index.search("word21").unwrap());
}

#[test]
fn an_index_is_dumped_bit_for_bit() {
    let index = index_of(&[("b", "word4 word5"), ("a", "word1 word2 word3")]);
    let snapshot = index.serialize();
    assert_eq!(0.01f32.to_bits(), snapshot.error_rate);
    assert_eq!(2, snapshot.bloom_filters.len());
    let first = &snapshot.bloom_filters[0];
    assert_eq!("b", first.key);
    assert_eq!(
        (7, &vec![114, 178, 6], 20),
        (first.filter.key_size, &first.filter.bitfield, first.filter.bitfield_size)
    );
    let second = &snapshot.bloom_filters[1];
    assert_eq!("a", second.key);
    assert_eq!(
        (7, &vec![95, 74, 94, 6], 29),
        (second.filter.key_size, &second.filter.bitfield, second.filter.bitfield_size)
    );
}

#[test]
fn a_restored_index_answers_as_the_original() {
    let index = index_of(&[
        ("c", "shared one (two)"),
        ("a", "Shared, three?"),
        ("b", "four five"),
        ("empty", ""),
    ]);
    let restored = DocumentIndex::deserialize(index.serialize()).ok().unwrap();
    assert_eq!(index.len(), restored.len());
    assert_eq!(index.error_rate().to_bits(), restored.error_rate().to_bits());
    for query in ["shared", "one two", "three", "four", "five four", "six", "", "word21", "SHARED"] {
        assert_eq!(index.search(query), restored.search(query));
    }
    let again = restored.serialize();
    let first = index.serialize();
    assert_eq!(first.error_rate, again.error_rate);
    assert_eq!(first.bloom_filters.len(), again.bloom_filters.len());
    for (one, other) in first.bloom_filters.iter().zip(again.bloom_filters.iter()) {
        assert_eq!(one.key, other.key);
        assert_eq!(one.filter.key_size, other.filter.key_size);
        assert_eq!(one.filter.bitfield, other.filter.bitfield);
        assert_eq!(one.filter.bitfield_size, other.filter.bitfield_size);
    }
}

#[test]
fn a_restored_index_takes_more_documents() {
    let index = index_of(&[("a", "word1")]);
    let mut restored = DocumentIndex::deserialize(index.serialize()).ok().unwrap();
    restored.insert("b".to_string(), "word1 word2");
    assert_eq!(vec!["a", "b"], restored.search("word1").unwrap());
    assert_eq!(vec!["b"], restored.search("word2").unwrap());
}

fn entry(key: &str, key_size: usize, bitfield: Vec<u8>, bitfield_size: usize) -> SnapshotEntry {
    SnapshotEntry { key: key.to_string(), filter: FilterParts { key_size, bitfield, bitfield_size } }
}

fn malformed(error_rate: u32, bloom_filters: Vec<SnapshotEntry>) -> bool {
    match DocumentIndex::deserialize(Snapshot { error_rate, bloom_filters }) {
        Ok(_) => false,
        Err(error) => error == Error::MalformedSnapshot,
    }
}

#[test]
fn a_malformed_snapshot_is_refused() {
    let good = 0.01f32.to_bits();
    assert!(!malformed(good, vec![]));
    assert!(!malformed(good, vec![entry("a", 1, vec![1], 8), entry("b", 2, vec![0, 1], 9)]));
    assert!(malformed(0, vec![]));
    assert!(malformed(1.0f32.to_bits(), vec![]));
    assert!(malformed((-0.01f32).to_bits(), vec![]));
    assert!(malformed(good, vec![entry("a", 0, vec![1], 8)]));
    assert!(malformed(good, vec![entry("a", 1, vec![], 0)]));
    assert!(malformed(good, vec![entry("a", 1, vec![1], 9)]));
    assert!(malformed(good, vec![entry("a", 1, vec![1, 2], 9)]));
    assert!(malformed(good, vec![entry("a", 1, vec![1], 8), entry("a", 1, vec![1], 8)]));
    assert!(malformed(good, vec![entry("a", 1, vec![1], 8), entry("b", 1, vec![1, 0], 8)]));
}
