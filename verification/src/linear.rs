//! Linear (brute-force) lookup table: the simple oracle the trie is checked
//! against.
//!
//! Entries are stored flat, duplicates suppressed.  A search computes, for
//! every entry, the length of the common leading run of bits shared with the
//! query, keeps the best "last matched position" (one less than that run,
//! floored at zero), and reports the query prefix one bit longer than the
//! best position.  That `best + 1` rule is deliberately part of the
//! contract: with no overlap at all the table still reports a one-bit
//! prefix, and the empty query is outside its domain (see [`crate::oracle`]
//! for how this lines up with the trie).

use crate::bits::bits_eq;
use crate::bits::common_prefix_len;
use crate::bits::lemma_common_prefix_len_spec;
use crate::bits::prefix_of;
use crate::errors::UnsupportedOperation;
use vstd::prelude::*;

verus! {

/// Flat table of inserted bit sequences.
#[derive(Debug)]
pub struct LinearLookup {
    pub entries: Vec<Vec<bool>>,
}

/// Whether the table contents `m` hold an entry equal to `v`.
pub open spec fn has_entry(m: Seq<Seq<bool>>, v: Seq<bool>) -> bool {
    exists|j: int| 0 <= j < m.len() && m[j] == v
}

/// Contents after an insertion: unchanged for a duplicate, appended
/// otherwise.
pub open spec fn linear_insert(m: Seq<Seq<bool>>, v: Seq<bool>) -> Seq<Seq<bool>> {
    if has_entry(m, v) {
        m
    } else {
        m.push(v)
    }
}

/// The "last matched position" one entry contributes: one less than its
/// common leading run with the query, floored at zero.
pub open spec fn entry_run(e: Seq<bool>, q: Seq<bool>) -> nat {
    if common_prefix_len(e, q) == 0 {
        0
    } else {
        (common_prefix_len(e, q) - 1) as nat
    }
}

/// The best "last matched position" over all entries (zero when there are
/// none).
pub open spec fn best_run(m: Seq<Seq<bool>>, q: Seq<bool>) -> nat
    decreases m.len(),
{
    if m.len() == 0 {
        0
    } else {
        let rest = best_run(m.drop_last(), q);
        let last = entry_run(m.last(), q);
        if last > rest {
            last
        } else {
            rest
        }
    }
}

/// The prefix length the linear table reports: one more than the best
/// matched position.
pub open spec fn linear_search_len(m: Seq<Seq<bool>>, q: Seq<bool>) -> nat {
    best_run(m, q) + 1
}

/// The best matched position stays below the query length.
pub proof fn lemma_best_run_bound(m: Seq<Seq<bool>>, q: Seq<bool>)
    requires
        q.len() > 0,
    ensures
        best_run(m, q) < q.len(),
    decreases m.len(),
{
    if m.len() == 0 {
    } else {
        lemma_best_run_bound(m.drop_last(), q);
        lemma_common_prefix_len_spec(m.last(), q);
    }
}

/// `best_run` is the maximum of the entries' positions, reached by one of
/// them whenever it is positive.
pub proof fn lemma_best_run_is_max(m: Seq<Seq<bool>>, q: Seq<bool>)
    ensures
        forall|j: int| 0 <= j < m.len() ==> entry_run(m[j], q) <= best_run(m, q),
        best_run(m, q) > 0 ==> exists|j: int|
            0 <= j < m.len() && entry_run(m[j], q) == best_run(m, q),
    decreases m.len(),
{
    if m.len() == 0 {
    } else {
        lemma_best_run_is_max(m.drop_last(), q);
        let b = best_run(m, q);
        assert forall|j: int| 0 <= j < m.len() implies entry_run(m[j], q) <= b by {
            if j < m.len() - 1 {
                assert(m.drop_last()[j] == m[j]);
            } else {
                assert(m.last() == m[j]);
            }
        }
        if b > 0 {
            if entry_run(m.last(), q) == b {
                assert(m[m.len() - 1] == m.last());
                assert(entry_run(m[m.len() - 1], q) == b);
            } else {
                let j0 = choose|j: int|
                    0 <= j < m.drop_last().len() && entry_run(m.drop_last()[j], q) == b;
                assert(m.drop_last()[j0] == m[j0]);
                assert(entry_run(m[j0], q) == b);
            }
        }
    }
}

impl View for LinearLookup {
    type V = Seq<Seq<bool>>;

    open spec fn view(&self) -> Seq<Seq<bool>> {
        Seq::new(self.entries@.len() as nat, |i: int| self.entries@[i]@)
    }
}

impl LinearLookup {
    /// An empty table.
    pub fn new() -> (r: Self)
        ensures
            r@ == Seq::<Seq<bool>>::empty(),
    {
        let r = LinearLookup { entries: Vec::new() };
        proof {
            assert(r@ =~= Seq::<Seq<bool>>::empty());
        }
        r
    }

    /// Number of stored entries.
    pub fn len(&self) -> (n: usize)
        ensures
            n == self@.len(),
    {
        self.entries.len()
    }

    /// Appends a copy of `value` unless an entry with identical contents is
    /// already stored; a duplicate leaves the table — and so its entry count
    /// and every later search result — unchanged.
    pub fn insert(&mut self, value: &Vec<bool>)
        ensures
            final(self)@ == linear_insert(old(self)@, value@),
    {
        let mut j: usize = 0;
        while j < self.entries.len()
            invariant
                j <= self.entries@.len(),
                forall|k: int| 0 <= k < j ==> self@[k] != value@,
            decreases self.entries@.len() - j,
        {
            if bits_eq(&self.entries[j], value) {
                proof {
                    assert(self@[j as int] == value@);
                    assert(has_entry(self@, value@));
                }
                return ;
            }
            j += 1;
        }
        proof {
            assert(!has_entry(self@, value@));
        }
        let ghost pre = self@;
        let copy = prefix_of(value, value.len());
        proof {
            assert(copy@ =~= value@);
        }
        self.entries.push(copy);
        proof {
            assert(self@ =~= pre.push(value@));
        }
    }

    /// Scans every entry, keeps the best "last matched position", and
    /// returns the prefix of `query` one bit longer than it.  The query must
    /// be non-empty: the `best + 1` rule always reports at least one bit,
    /// even when nothing overlaps.
    pub fn search(&self, query: &Vec<bool>) -> (r: Vec<bool>)
        requires
            query@.len() > 0,
        ensures
            r@ == query@.take(linear_search_len(self@, query@) as int),
    {
        let mut best: usize = 0;
        let mut j: usize = 0;
        proof {
            assert(self@.take(0) =~= Seq::<Seq<bool>>::empty());
        }
        while j < self.entries.len()
            invariant
                j <= self.entries@.len(),
                query@.len() > 0,
                best == best_run(self@.take(j as int), query@),
                best < query@.len(),
            decreases self.entries@.len() - j,
        {
            let run = crate::bits::common_run(&self.entries[j], query);
            let matched_till = if run > 0 {
                run - 1
            } else {
                0
            };
            proof {
                lemma_common_prefix_len_spec(self.entries@[j as int]@, query@);
                assert(self@[j as int] == self.entries@[j as int]@);
                assert(matched_till == entry_run(self@[j as int], query@));
                let step = self@.take(j + 1);
                assert(step.drop_last() =~= self@.take(j as int));
                assert(step.last() == self@[j as int]);
            }
            if matched_till > best {
                best = matched_till;
            }
            j += 1;
        }
        proof {
            assert(self@.take(self.entries@.len() as int) =~= self@);
        }
        let qlen = query.len();
        assert(best < qlen);
        prefix_of(query, best + 1)
    }

    /// Removal is declared by the shared lookup-table contract but left
    /// unsupported: it fails explicitly and leaves the table unchanged.
    pub fn delete(&mut self, _value: &Vec<bool>) -> (r: Result<(), UnsupportedOperation>)
        ensures
            *final(self) == *old(self),
            r == Err::<(), UnsupportedOperation>(UnsupportedOperation),
    {
        Err(UnsupportedOperation)
    }
}

/// Inserting a sequence twice is the same as inserting it once: the second
/// insertion sees a duplicate and leaves the contents — and so every later
/// search result — unchanged.
pub proof fn lemma_linear_insert_idempotent(m: Seq<Seq<bool>>, v: Seq<bool>)
    ensures
        linear_insert(linear_insert(m, v), v) == linear_insert(m, v),
{
    let m1 = linear_insert(m, v);
    if !has_entry(m, v) {
        assert(m1[m.len() as int] == v);
        assert(has_entry(m1, v));
    }
}

/// Insertion order is irrelevant to search: tables holding the same
/// entries report the same best matched position — and so the same prefix —
/// for every query.
pub proof fn lemma_search_order_independent(m1: Seq<Seq<bool>>, m2: Seq<Seq<bool>>, q: Seq<bool>)
    requires
        forall|s: Seq<bool>| has_entry(m1, s) == has_entry(m2, s),
    ensures
        linear_search_len(m1, q) == linear_search_len(m2, q),
{
    lemma_best_run_is_max(m1, q);
    lemma_best_run_is_max(m2, q);
    let b1 = best_run(m1, q);
    let b2 = best_run(m2, q);
    if b1 > b2 {
        let j = choose|j: int| 0 <= j < m1.len() && entry_run(m1[j], q) == b1;
        assert(has_entry(m1, m1[j]));
        let k = choose|k: int| 0 <= k < m2.len() && m2[k] == m1[j];
        assert(entry_run(m2[k], q) == b1);
    }
    if b2 > b1 {
        let j = choose|j: int| 0 <= j < m2.len() && entry_run(m2[j], q) == b2;
        assert(has_entry(m2, m2[j]));
        let k = choose|k: int| 0 <= k < m1.len() && m1[k] == m2[j];
        assert(entry_run(m1[k], q) == b2);
    }
}

/// No duplicate growth: inserting a sequence the table already holds does
/// not increase its entry count.
pub proof fn lemma_no_duplicate_growth(m: Seq<Seq<bool>>, v: Seq<bool>)
    requires
        has_entry(m, v),
    ensures
        linear_insert(m, v).len() == m.len(),
{
}

} // verus!
