use prefix_lookup::codec::bool_vec_from_str;
use prefix_lookup::linear::LinearLookup;
use prefix_lookup::table::LookUpTable;
use prefix_lookup::trie::BinaryTrie;

fn bits(s: &str) -> Vec<bool> {
    bool_vec_from_str(s).unwrap()
}

fn exercise<T: LookUpTable>(table: &mut T) -> Vec<bool> {
    table.insert(&bits("10"));
    table.insert(&bits("1"));
    table.search(&bits("100"))
}

#[test]
fn tables_are_interchangeable() {
    // Both tables satisfy the one shared contract and, on prefix-shaped
    // entry sets, report the same match through it.
    let mut trie = BinaryTrie::new();
    let mut table = LinearLookup::new();
    assert_eq!(exercise(&mut trie), bits("10"));
    assert_eq!(exercise(&mut table), bits("10"));
    assert!(LookUpTable::delete(&mut trie, &bits("1")).is_err());
    assert!(LookUpTable::delete(&mut table, &bits("1")).is_err());
}

#[test]
fn tables_agree_once_normalized() {
    // Queries for which every run an entry shares with the query is itself
    // an inserted prefix, and which are not entries themselves: the linear
    // result equals the trie result, except that a trie "no match" shows up
    // as the linear table's one-bit floor.
    let entries = ["0", "1", "01", "00", "10", "110", "00001001"];
    let mut trie = BinaryTrie::new();
    let mut table = LinearLookup::new();
    for entry in entries {
        trie.insert(&bits(entry));
        table.insert(&bits(entry));
    }
    for query in ["1101", "1101010", "00001001001", "0110"] {
        let from_trie = trie.search(&bits(query));
        let from_table = table.search(&bits(query));
        let normalized = if from_trie.is_empty() {
            bits(query)[..1].to_vec()
        } else {
            from_trie.clone()
        };
        assert_eq!(from_table, normalized);
    }
    // A query sharing nothing with any entry: the trie reports no match and
    // the linear table reports its one-bit floor.
    let mut lone_trie = BinaryTrie::new();
    let mut lone_table = LinearLookup::new();
    lone_trie.insert(&bits("00"));
    lone_table.insert(&bits("00"));
    assert_eq!(lone_trie.search(&bits("11")), bits(""));
    assert_eq!(lone_table.search(&bits("11")), bits("1"));
}

#[test]
fn tables_diverge_on_non_prefix_overlap() {
    // The documented divergence the agreement above must exclude: an entry
    // that overlaps the query without being a prefix of it is counted by
    // the linear scan but invisible to the trie.
    let mut trie = BinaryTrie::new();
    let mut table = LinearLookup::new();
    trie.insert(&bits("0011"));
    table.insert(&bits("0011"));
    assert_eq!(trie.search(&bits("0010")), bits(""));
    assert_eq!(table.search(&bits("0010")), bits("001"));
}

#[test]
fn tables_diverge_on_entry_covering_whole_query() {
    // An entry longer than the query covers it entirely: the linear scan
    // reports the whole query, while the trie's check-before-descent rule
    // can only ever report a strict prefix of it.
    let mut trie = BinaryTrie::new();
    let mut table = LinearLookup::new();
    for entry in ["1", "110"] {
        trie.insert(&bits(entry));
        table.insert(&bits(entry));
    }
    assert_eq!(trie.search(&bits("11")), bits("1"));
    assert_eq!(table.search(&bits("11")), bits("11"));
    // The same happens when a long entry shadows a shorter query: with
    // "00001001" also stored, the run it shares with "000" is the whole
    // query, which was never inserted.
    trie.insert(&bits("00"));
    table.insert(&bits("00"));
    trie.insert(&bits("00001001"));
    table.insert(&bits("00001001"));
    assert_eq!(trie.search(&bits("000")), bits("00"));
    assert_eq!(table.search(&bits("000")), bits("000"));
}
