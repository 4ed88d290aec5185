//! The shared lookup-table contract both implementations satisfy.
//!
//! Viewed as a set of sequences, insertion means the same thing for both
//! tables — the contents afterwards are the contents before plus the new
//! sequence, so duplicates can never grow them — while each table's search
//! reports a prefix of the query whose length is that implementation's own
//! documented match rule.  Removal is declared by the contract but
//! supported by neither table: it fails explicitly and changes nothing.

use crate::errors::UnsupportedOperation;
use crate::linear::lemma_best_run_bound;
use crate::linear::linear_search_len;
use crate::linear::LinearLookup;
use crate::trie::lemma_search_len_characterizes;
use crate::trie::BinaryTrie;
use vstd::prelude::*;

verus! {

/// Common capability set of the two lookup tables.
pub trait LookUpTable: Sized {
    /// The set of sequences the table holds.
    spec fn contents(self) -> Set<Seq<bool>>;

    /// The prefix length this implementation's search rule reports.
    spec fn reported_len(self, q: Seq<bool>) -> nat;

    /// The queries this implementation's search accepts.
    spec fn may_search(self, q: Seq<bool>) -> bool;

    /// Adds `value` to the contents; re-inserting an already-held sequence
    /// changes nothing.
    fn insert(&mut self, value: &Vec<bool>)
        ensures
            final(self).contents() == old(self).contents().insert(value@),
    ;

    /// Returns the prefix of `query` this implementation's match rule
    /// selects.
    fn search(&self, query: &Vec<bool>) -> (r: Vec<bool>)
        requires
            self.may_search(query@),
        ensures
            r@ == query@.take(self.reported_len(query@) as int),
            self.reported_len(query@) <= query@.len(),
    ;

    /// Removal: declared, but supported by no implementation; the table is
    /// left unchanged.
    fn delete(&mut self, value: &Vec<bool>) -> (r: Result<(), UnsupportedOperation>)
        ensures
            *final(self) == *old(self),
            r == Err::<(), UnsupportedOperation>(UnsupportedOperation),
    ;
}

impl LookUpTable for BinaryTrie {
    open spec fn contents(self) -> Set<Seq<bool>> {
        Set::new(|s: Seq<bool>| self.contains_seq(s))
    }

    open spec fn reported_len(self, q: Seq<bool>) -> nat {
        self.search_len(q)
    }

    open spec fn may_search(self, q: Seq<bool>) -> bool {
        true
    }

    fn insert(&mut self, value: &Vec<bool>) {
        let ghost pre = *self;
        BinaryTrie::insert(self, value);
        proof {
            assert(self.contents() =~= pre.contents().insert(value@));
        }
    }

    fn search(&self, query: &Vec<bool>) -> (r: Vec<bool>) {
        proof {
            lemma_search_len_characterizes(*self, query@);
        }
        BinaryTrie::search(self, query)
    }

    fn delete(&mut self, value: &Vec<bool>) -> (r: Result<(), UnsupportedOperation>) {
        BinaryTrie::delete(self, value)
    }
}

impl LookUpTable for LinearLookup {
    open spec fn contents(self) -> Set<Seq<bool>> {
        self@.to_set()
    }

    open spec fn reported_len(self, q: Seq<bool>) -> nat {
        linear_search_len(self@, q)
    }

    open spec fn may_search(self, q: Seq<bool>) -> bool {
        q.len() > 0
    }

    fn insert(&mut self, value: &Vec<bool>) {
        let ghost pre = *self;
        LinearLookup::insert(self, value);
        proof {
            if crate::linear::has_entry(pre@, value@) {
                assert(pre.contents().contains(value@) == pre@.contains(value@));
                assert(pre@.contains(value@));
                assert(self.contents() =~= pre.contents().insert(value@));
            } else {
                assert forall|s: Seq<bool>|
                    self.contents().contains(s) <==> pre.contents().insert(value@).contains(
                        s,
                    ) by {
                    assert(self.contents().contains(s) == self@.contains(s));
                    assert(pre.contents().contains(s) == pre@.contains(s));
                    if self@.contains(s) {
                        let j = choose|j: int| 0 <= j < self@.len() && self@[j] == s;
                        if j < pre@.len() {
                            assert(pre@[j] == s);
                        } else {
                            assert(s == value@);
                        }
                    }
                    if pre@.contains(s) {
                        let j = choose|j: int| 0 <= j < pre@.len() && pre@[j] == s;
                        assert(self@[j] == s);
                        assert(self@.contains(s));
                    }
                    if s == value@ {
                        assert(self@[pre@.len() as int] == s);
                        assert(self@.contains(s));
                    }
                }
                assert(self.contents() =~= pre.contents().insert(value@));
            }
        }
    }

    fn search(&self, query: &Vec<bool>) -> (r: Vec<bool>) {
        proof {
            lemma_best_run_bound(self@, query@);
        }
        LinearLookup::search(self, query)
    }

    fn delete(&mut self, value: &Vec<bool>) -> (r: Result<(), UnsupportedOperation>) {
        LinearLookup::delete(self, value)
    }
}

} // verus!
