use prefix_lookup::codec::bool_vec_from_str;
use prefix_lookup::linear::LinearLookup;

fn bits(s: &str) -> Vec<bool> {
    bool_vec_from_str(s).unwrap()
}

#[test]
fn linear_no_duplicate_growth() {
    let mut table = LinearLookup::new();
    assert_eq!(table.len(), 0);
    table.insert(&bits("0101"));
    assert_eq!(table.len(), 1);
    table.insert(&bits("0101"));
    assert_eq!(table.len(), 1);
    table.insert(&bits("01"));
    assert_eq!(table.len(), 2);
    // A prefix of an entry is not a duplicate; only byte-identical contents are.
    table.insert(&bits("010"));
    assert_eq!(table.len(), 3);
}

#[test]
fn linear_insert_is_idempotent() {
    let mut once = LinearLookup::new();
    let mut twice = LinearLookup::new();
    for entry in ["0", "110", "00001001"] {
        once.insert(&bits(entry));
        twice.insert(&bits(entry));
        twice.insert(&bits(entry));
    }
    assert_eq!(once.len(), twice.len());
    for query in ["0", "11", "000", "1101010", "00001001001"] {
        assert_eq!(once.search(&bits(query)), twice.search(&bits(query)));
    }
}

#[test]
fn linear_search_reports_best_common_run() {
    let mut table = LinearLookup::new();
    table.insert(&bits("0"));
    table.insert(&bits("00"));
    table.insert(&bits("110"));
    // "00" shares two leading bits with "000": position 1, reported as 2 bits.
    assert_eq!(table.search(&bits("000")), bits("00"));
    // "110" shares three leading bits with "1101": position 2, reported as 3 bits.
    assert_eq!(table.search(&bits("1101")), bits("110"));
}

#[test]
fn linear_search_counts_overlap_beyond_stored_prefixes() {
    // An entry need not be a prefix of the query to contribute: the common
    // leading run of "0011" and "0010" is three bits long.
    let mut table = LinearLookup::new();
    table.insert(&bits("0011"));
    assert_eq!(table.search(&bits("0010")), bits("001"));
}

#[test]
fn linear_search_floors_at_one_bit() {
    // With no overlap at all the best position stays zero and the reported
    // prefix is still one bit long.
    let mut table = LinearLookup::new();
    table.insert(&bits("1"));
    assert_eq!(table.search(&bits("00")), bits("0"));
    // The same happens with no entries whatsoever.
    let empty = LinearLookup::new();
    assert_eq!(empty.search(&bits("10")), bits("1"));
}

#[test]
fn linear_search_ignores_insertion_order() {
    let mut forward = LinearLookup::new();
    let mut backward = LinearLookup::new();
    let entries = ["0", "00", "110", "00001001"];
    for entry in entries {
        forward.insert(&bits(entry));
    }
    for entry in entries.iter().rev() {
        backward.insert(&bits(entry));
    }
    for query in ["000", "1101", "00001001001", "111"] {
        assert_eq!(forward.search(&bits(query)), backward.search(&bits(query)));
    }
}

#[test]
fn linear_delete_is_unsupported() {
    let mut table = LinearLookup::new();
    table.insert(&bits("10"));
    assert!(table.delete(&bits("10")).is_err());
    assert_eq!(table.len(), 1);
}
