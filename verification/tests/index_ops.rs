use fuzzy_trie_index::FuzzyIndex;
use fuzzy_trie_index::FuzzyTrieResource;
use fuzzy_trie_index::HostTerm;
use fuzzy_trie_index::IndexError;
use fuzzy_trie_index::SupportedTerm;

#[test]
fn fuzzy_search_finds_a_key_one_edit_away() {
    let idx = FuzzyTrieResource::new(1, true);
    idx.insert("hello", &HostTerm::Binary(String::from("world")))
        .unwrap();
    let hits = idx.fuzzy_search("hallo").unwrap();
    assert_eq!(hits, vec![SupportedTerm::Bitstring(String::from("world"))]);
    let misses = idx.fuzzy_search("hzzzo").unwrap();
    assert_eq!(misses, Vec::<SupportedTerm>::new());
}

#[test]
fn prefix_fuzzy_search_finds_an_exact_prefix() {
    let idx = FuzzyTrieResource::new(0, false);
    idx.insert("abcdef", &HostTerm::Number(42)).unwrap();
    let hits = idx.prefix_fuzzy_search("abcd").unwrap();
    assert_eq!(hits, vec![SupportedTerm::Integer(42)]);
    assert_eq!(idx.prefix_fuzzy_search("abd").unwrap(), Vec::<SupportedTerm>::new());
}

#[test]
fn unsupported_value_is_rejected_and_count_unchanged() {
    let idx = FuzzyTrieResource::new(1, false);
    assert_eq!(
        idx.insert("key", &HostTerm::Opaque),
        Err(IndexError::UnsupportedType)
    );
    assert_eq!(idx.len().unwrap(), 0);

    let nested = HostTerm::List(vec![HostTerm::Number(1), HostTerm::Opaque]);
    assert_eq!(idx.insert("key", &nested), Err(IndexError::UnsupportedType));
    assert_eq!(idx.len().unwrap(), 0);
}

#[test]
fn inserting_the_same_value_twice_keeps_one_copy() {
    let idx = FuzzyTrieResource::new(0, false);
    idx.insert("k", &HostTerm::Number(5)).unwrap();
    idx.insert("k", &HostTerm::Number(5)).unwrap();
    let hits = idx.fuzzy_search("k").unwrap();
    assert_eq!(hits, vec![SupportedTerm::Integer(5)]);
    assert_eq!(idx.len().unwrap(), 1);
}

#[test]
fn values_under_one_key_come_out_ordered_and_deduplicated() {
    let idx = FuzzyTrieResource::new(0, false);
    idx.insert("k", &HostTerm::Binary(String::from("text"))).unwrap();
    idx.insert("k", &HostTerm::Number(9)).unwrap();
    idx.insert("k", &HostTerm::AtomName(String::from("at"))).unwrap();
    idx.insert("k", &HostTerm::Number(9)).unwrap();
    let hits = idx.fuzzy_search("k").unwrap();
    assert_eq!(
        hits,
        vec![
            SupportedTerm::Integer(9),
            SupportedTerm::Atom(String::from("at")),
            SupportedTerm::Bitstring(String::from("text")),
        ]
    );
}

#[test]
fn len_counts_distinct_keys_not_values() {
    let idx = FuzzyTrieResource::new(1, false);
    idx.insert("alpha", &HostTerm::Number(1)).unwrap();
    idx.insert("alpha", &HostTerm::Number(2)).unwrap();
    idx.insert("beta", &HostTerm::Number(3)).unwrap();
    idx.insert("beta", &HostTerm::AtomName(String::from("b"))).unwrap();
    assert_eq!(idx.len().unwrap(), 2);
}

#[test]
fn transpositions_count_as_one_edit_only_when_enabled() {
    let with = FuzzyTrieResource::new(1, true);
    with.insert("ab", &HostTerm::Number(1)).unwrap();
    assert_eq!(
        with.fuzzy_search("ba").unwrap(),
        vec![SupportedTerm::Integer(1)]
    );

    let without = FuzzyTrieResource::new(1, false);
    without.insert("ab", &HostTerm::Number(1)).unwrap();
    assert_eq!(without.fuzzy_search("ba").unwrap(), Vec::<SupportedTerm>::new());
}

#[test]
fn search_flattens_values_across_matching_keys_in_entry_order() {
    let idx = FuzzyTrieResource::new(1, false);
    idx.insert("cat", &HostTerm::Number(1)).unwrap();
    idx.insert("cut", &HostTerm::Number(2)).unwrap();
    idx.insert("dog", &HostTerm::Number(3)).unwrap();
    let hits = idx.fuzzy_search("cot").unwrap();
    assert_eq!(
        hits,
        vec![SupportedTerm::Integer(1), SupportedTerm::Integer(2)]
    );
}

#[test]
fn sequential_engine_supports_the_same_operations() {
    let mut engine = FuzzyIndex::new(1, true);
    engine.insert("hello", SupportedTerm::Bitstring(String::from("world")));
    assert_eq!(engine.len(), 1);
    assert_eq!(
        engine.fuzzy_search("hallo"),
        vec![SupportedTerm::Bitstring(String::from("world"))]
    );
    assert_eq!(
        engine.prefix_fuzzy_search("hel"),
        vec![SupportedTerm::Bitstring(String::from("world"))]
    );
}

#[test]
fn prefix_search_tolerates_edits_inside_the_prefix() {
    let idx = FuzzyTrieResource::new(1, false);
    idx.insert("abcdef", &HostTerm::Number(7)).unwrap();
    // one substitution inside the prefix
    assert_eq!(
        idx.prefix_fuzzy_search("axcd").unwrap(),
        vec![SupportedTerm::Integer(7)]
    );
    // two edits exceed the bound
    assert_eq!(idx.prefix_fuzzy_search("axyd").unwrap(), Vec::<SupportedTerm>::new());
}

#[test]
fn keys_with_multibyte_characters_match_by_character_edits() {
    let idx = FuzzyTrieResource::new(1, false);
    idx.insert("héllo", &HostTerm::Number(1)).unwrap();
    // one substitution on the accented character
    assert_eq!(
        idx.fuzzy_search("hello").unwrap(),
        vec![SupportedTerm::Integer(1)]
    );
    assert_eq!(idx.len().unwrap(), 1);
}
