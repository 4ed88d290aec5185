//! Cross-implementation agreement between the trie and the linear table.
//!
//! The two tables measure slightly different things.  The trie reports the
//! longest *inserted* sequence that is a strict prefix of the query (its
//! check-before-descent rule never sees a match as long as the whole query).
//! The linear table reports one bit more than the best "last matched
//! position" over all entries, where an entry contributes its common leading
//! run with the query whether or not either is a prefix of the other — and
//! with no overlap at all it still reports one bit.
//!
//! The two agree whenever the linear scan's raw material lines up with what
//! the trie can see: every run an entry shares with the query must itself be
//! an inserted prefix of the query, and the query itself must not be an
//! entry.  Under those conditions the only difference left is the two
//! documented off-by-one rules, and they cancel: the linear result is
//! exactly the trie result, except that a trie result of zero shows up as
//! the linear table's one-bit floor.

use crate::bits::common_prefix_len;
use crate::bits::is_prefix_of;
use crate::bits::lemma_common_prefix_len_spec;
use crate::bits::lemma_prefix_common_prefix_len;
use crate::linear::best_run;
use crate::linear::entry_run;
use crate::linear::has_entry;
use crate::linear::lemma_best_run_bound;
use crate::linear::lemma_best_run_is_max;
use crate::linear::linear_search_len;
use crate::trie::lemma_search_len_characterizes;
use crate::trie::BinaryTrie;
use vstd::prelude::*;

verus! {

/// For any entry set shared by both tables and any non-empty query — as
/// long as the common run every entry shares with the query is itself an
/// inserted prefix of the query, and the query itself was not inserted —
/// the linear table's reported prefix length equals the trie's, with the
/// trie's "no match" (zero) showing up as the linear table's one-bit floor.
pub proof fn lemma_cross_agreement(t: BinaryTrie, m: Seq<Seq<bool>>, q: Seq<bool>)
    requires
        q.len() > 0,
        forall|s: Seq<bool>| t.contains_seq(s) <==> has_entry(m, s),
        forall|j: int|
            0 <= j < m.len() && common_prefix_len(m[j], q) > 0 ==> has_entry(
                m,
                q.take(common_prefix_len(m[j], q) as int),
            ),
        !has_entry(m, q),
    ensures
        linear_search_len(m, q) == if t.search_len(q) == 0 {
            1nat
        } else {
            t.search_len(q)
        },
{
    lemma_search_len_characterizes(t, q);
    lemma_best_run_is_max(m, q);
    lemma_best_run_bound(m, q);
    let b = best_run(m, q) as int;
    let d = t.search_len(q) as int;
    if d > 0 {
        // The trie's match is an inserted prefix of length d, so some entry
        // equals q.take(d); its run is d and its position d - 1, so the best
        // position is at least that.
        assert(t.contains_seq(q.take(d)));
        assert(has_entry(m, q.take(d)));
        let j = choose|j: int| 0 <= j < m.len() && m[j] == q.take(d);
        assert(q.take(d).len() == d);
        assert(is_prefix_of(m[j], q));
        lemma_prefix_common_prefix_len(m[j], q);
        assert(entry_run(m[j], q) == d - 1);
        assert(b >= d - 1);
    }
    if b > 0 {
        // The best position is reached by some entry whose run is b + 1;
        // that run is itself an inserted prefix of q, strictly shorter than
        // q, so the trie's match is at least b + 1 long.
        let j = choose|j: int| 0 <= j < m.len() && entry_run(m[j], q) == b;
        let c = common_prefix_len(m[j], q) as int;
        assert(c == b + 1);
        assert(has_entry(m, q.take(c)));
        lemma_common_prefix_len_spec(m[j], q);
        if c == q.len() {
            assert(q.take(c) =~= q);
            assert(has_entry(m, q));
        }
        assert(c < q.len());
        assert(t.contains_seq(q.take(c)));
        if d < c {
            assert(!t.contains_seq(q.take(c)));
        }
        assert(d == b + 1);
    }
}

} // verus!
