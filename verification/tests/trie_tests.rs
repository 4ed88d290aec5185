use prefix_lookup::codec::bool_vec_from_str;
use prefix_lookup::trie::BinaryTrie;

fn bits(s: &str) -> Vec<bool> {
    bool_vec_from_str(s).unwrap()
}

#[test]
fn trie_searching() {
    let mut trie = BinaryTrie::new();
    let entries = [
        &bool_vec_from_str("0").unwrap(),
        &bool_vec_from_str("1").unwrap(),
        &bool_vec_from_str("01").unwrap(),
        &bool_vec_from_str("00").unwrap(),
        &bool_vec_from_str("10").unwrap(),
        &bool_vec_from_str("110").unwrap(),
        &bool_vec_from_str("00001001").unwrap(),
    ];
    for entry in entries {
        trie.insert(entry);
    }
    let test = |test_case, longest_matching_prefix| {
        assert_eq!(
            trie.search(&bool_vec_from_str(test_case).unwrap()),
            bool_vec_from_str(longest_matching_prefix).unwrap()
        )
    };
    test("11", "1");
    test("000", "00");
    test("1101", "110");
    test("1101010", "110");
    test("00001001001", "00001001");
}

#[test]
fn trie_insert_is_idempotent() {
    let mut once = BinaryTrie::new();
    let mut twice = BinaryTrie::new();
    for entry in ["0", "110", "00001001"] {
        once.insert(&bits(entry));
        twice.insert(&bits(entry));
        twice.insert(&bits(entry));
    }
    for query in ["", "0", "11", "000", "1101010", "00001001001"] {
        assert_eq!(once.search(&bits(query)), twice.search(&bits(query)));
    }
}

#[test]
fn trie_empty_query_reports_empty_prefix() {
    let mut trie = BinaryTrie::new();
    assert_eq!(trie.search(&bits("")), bits(""));
    // Marking the root filled (by inserting the empty sequence) changes
    // nothing: the walk over an empty query visits no node.
    trie.insert(&bits(""));
    assert_eq!(trie.search(&bits("")), bits(""));
    trie.insert(&bits("10"));
    assert_eq!(trie.search(&bits("")), bits(""));
}

#[test]
fn trie_match_is_a_strict_prefix() {
    // The filled check happens before each descent, so an entry equal to
    // the whole query is never reported.
    let mut trie = BinaryTrie::new();
    trie.insert(&bits("11"));
    assert_eq!(trie.search(&bits("11")), bits(""));
    trie.insert(&bits("1"));
    assert_eq!(trie.search(&bits("11")), bits("1"));
}

#[test]
fn trie_root_entry_is_invisible_to_search() {
    // The empty sequence can be inserted, but a search records depth zero
    // either way, which callers cannot tell from "no match".
    let mut trie = BinaryTrie::new();
    trie.insert(&bits(""));
    assert_eq!(trie.search(&bits("101")), bits(""));
}

#[test]
fn trie_delete_is_unsupported() {
    let mut trie = BinaryTrie::new();
    trie.insert(&bits("10"));
    assert!(trie.delete(&bits("10")).is_err());
    // The failed delete left the table unchanged.
    assert_eq!(trie.search(&bits("100")), bits("10"));
}
