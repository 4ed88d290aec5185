//! Bitwise binary trie: the single-pass longest-prefix-match table.
//!
//! Each node has an optional child per bit and a `filled` flag marking that
//! some inserted sequence ends exactly there.  A search walks the query bit
//! by bit, checks `filled` at each node *before* descending, and reports the
//! deepest filled node it visited.  The check-before-descent rule means the
//! node reached by the whole query is never examined, so a match is always a
//! strict prefix of a non-empty query, and an empty query always reports the
//! empty prefix.

use crate::bits::lemma_take_skip;
use crate::bits::prefix_of;
use crate::errors::UnsupportedOperation;
use vstd::prelude::*;

verus! {

/// Binary trie node: `left` is the child for bit `0`, `right` for bit `1`,
/// and `filled` marks the end of an inserted sequence.
#[derive(Debug)]
pub struct BinaryTrie {
    pub filled: bool,
    pub left: Option<Box<BinaryTrie>>,
    pub right: Option<Box<BinaryTrie>>,
}

/// The child of `t` selected by one bit.
pub open spec fn child_for(t: BinaryTrie, b: bool) -> Option<Box<BinaryTrie>> {
    if b {
        t.right
    } else {
        t.left
    }
}

/// Whether an optional subtree contains `s` (a missing subtree contains
/// nothing).
pub open spec fn opt_contains(node: Option<Box<BinaryTrie>>, s: Seq<bool>) -> bool {
    match node {
        None => false,
        Some(c) => c.contains_seq(s),
    }
}

impl BinaryTrie {
    /// The sequences this trie contains: those whose bit-by-bit path from
    /// `self` exists and ends at a filled node.
    pub open spec fn contains_seq(self, s: Seq<bool>) -> bool
        decreases s.len(),
    {
        if s.len() == 0 {
            self.filled
        } else {
            match child_for(self, s[0]) {
                None => false,
                Some(c) => c.contains_seq(s.skip(1)),
            }
        }
    }

    /// Depth of the deepest filled node a search for `q` visits, or `-1`
    /// when none of the visited nodes is filled.  The walk checks each node
    /// before following the next bit of `q` and stops where a child is
    /// missing, so only depths `0 .. q.len() - 1` are ever examined.
    pub open spec fn last_filled_depth(self, q: Seq<bool>) -> int
        decreases q.len(),
    {
        if q.len() == 0 {
            -1
        } else {
            let here: int = if self.filled {
                0
            } else {
                -1
            };
            match child_for(self, q[0]) {
                None => here,
                Some(c) => {
                    let sub = c.last_filled_depth(q.skip(1));
                    if sub >= 0 {
                        sub + 1
                    } else {
                        here
                    }
                },
            }
        }
    }

    /// Length of the prefix of `q` that `search` reports.
    pub open spec fn search_len(self, q: Seq<bool>) -> nat {
        if self.last_filled_depth(q) >= 0 {
            self.last_filled_depth(q) as nat
        } else {
            0
        }
    }

    /// Some node of this subtree (possibly the root) is filled.
    pub open spec fn has_filled_node(self) -> bool
        decreases self,
    {
        self.filled || (match self.left {
            Some(c) => c.has_filled_node(),
            None => false,
        }) || (match self.right {
            Some(c) => c.has_filled_node(),
            None => false,
        })
    }

    /// Structural invariant: children exist only on the path of some
    /// inserted sequence, so every subtree below the root holds a filled
    /// node.  `new` establishes this and `insert` preserves it — children
    /// are created lazily, only along the sequence being inserted.
    pub open spec fn well_formed(self) -> bool
        decreases self,
    {
        (match self.left {
            Some(c) => c.has_filled_node() && c.well_formed(),
            None => true,
        }) && (match self.right {
            Some(c) => c.has_filled_node() && c.well_formed(),
            None => true,
        })
    }

    /// An empty trie: no children, nothing contained.
    pub fn new() -> (r: Self)
        ensures
            r == (BinaryTrie { filled: false, left: None, right: None }),
            forall|s: Seq<bool>| !r.contains_seq(s),
            r.well_formed(),
    {
        let r = BinaryTrie { filled: false, left: None, right: None };
        proof {
            assert forall|s: Seq<bool>| !r.contains_seq(s) by {
                if s.len() > 0 {
                    assert(child_for(r, s[0]) is None);
                }
            }
        }
        r
    }

    /// Grows (or creates) the subtree under `node` so that it contains
    /// `value[i..]`, leaving every other contained sequence in place.  The
    /// grown subtree always ends at a filled node, and stays well formed
    /// when it was before (or was only just created).
    fn insert_opt(node: &mut Option<Box<BinaryTrie>>, value: &Vec<bool>, i: usize)
        requires
            i <= value@.len(),
        ensures
            forall|s: Seq<bool>|
                opt_contains(*final(node), s) <==> (opt_contains(*old(node), s) || s == value@.skip(
                    i as int,
                )),
            (match *final(node) {
                Some(b) => b.has_filled_node() && ((match *old(node) {
                    Some(p) => p.well_formed(),
                    None => true,
                }) ==> b.well_formed()),
                None => false,
            }),
        decreases value@.len() - i,
    {
        let ghost orig = *old(node);
        let mut boxed: Box<BinaryTrie> = match node.take() {
            None => Box::new(BinaryTrie { filled: false, left: None, right: None }),
            Some(b) => b,
        };
        proof {
            assert forall|s: Seq<bool>| (*boxed).contains_seq(s) == opt_contains(orig, s) by {
                if orig is None && s.len() > 0 {
                    assert(child_for(*boxed, s[0]) is None);
                }
            }
        }
        let ghost base = *boxed;
        if i == value.len() {
            boxed.filled = true;
            proof {
                assert(value@.skip(i as int) =~= Seq::<bool>::empty());
                assert forall|s: Seq<bool>| (*boxed).contains_seq(s) <==> (base.contains_seq(s)
                    || s == value@.skip(i as int)) by {
                    if s.len() == 0 {
                        assert(s =~= value@.skip(i as int));
                    } else {
                        assert(s != value@.skip(i as int));
                        assert(child_for(*boxed, s[0]) == child_for(base, s[0]));
                    }
                }
            }
        } else {
            let bit = value[i];
            if bit {
                Self::insert_opt(&mut boxed.right, value, i + 1);
            } else {
                Self::insert_opt(&mut boxed.left, value, i + 1);
            }
            proof {
                let rest = value@.skip(i as int);
                assert(rest.len() == value@.len() - i);
                assert(rest[0] == value@[i as int]);
                assert(rest.skip(1) =~= value@.skip(i + 1));
                assert forall|s: Seq<bool>| (*boxed).contains_seq(s) <==> (base.contains_seq(s)
                    || s == rest) by {
                    if s.len() == 0 {
                        assert(s != rest);
                    } else if s[0] == bit {
                        assert(child_for(*boxed, !bit) == child_for(base, !bit));
                        assert(opt_contains(child_for(*boxed, bit), s.skip(1)) <==> (opt_contains(
                            child_for(base, bit),
                            s.skip(1),
                        ) || s.skip(1) == value@.skip(i + 1)));
                        if s[0] == rest[0] && s.skip(1) == rest.skip(1) {
                            crate::bits::lemma_head_tail_eq(s, rest);
                        }
                        if s == rest {
                            assert(s.skip(1) == rest.skip(1));
                        }
                    } else {
                        assert(child_for(*boxed, s[0]) == child_for(base, s[0]));
                        assert(s[0] != rest[0]);
                        assert(s != rest);
                    }
                }
            }
        }
        *node = Some(boxed);
    }

    /// Inserts `value`: afterwards the trie contains exactly what it
    /// contained before, plus `value`.  Re-inserting a contained sequence
    /// changes nothing, and a well-formed trie stays well formed.
    pub fn insert(&mut self, value: &Vec<bool>)
        ensures
            forall|s: Seq<bool>|
                final(self).contains_seq(s) <==> (old(self).contains_seq(s) || s == value@),
            old(self).well_formed() ==> final(self).well_formed(),
    {
        let ghost base = *self;
        if value.len() == 0 {
            self.filled = true;
            proof {
                assert forall|s: Seq<bool>| final(self).contains_seq(s) <==> (base.contains_seq(s)
                    || s == value@) by {
                    if s.len() == 0 {
                        assert(s =~= value@);
                    } else {
                        assert(s != value@);
                        assert(child_for(*self, s[0]) == child_for(base, s[0]));
                    }
                }
            }
        } else {
            let bit = value[0];
            if bit {
                Self::insert_opt(&mut self.right, value, 1);
            } else {
                Self::insert_opt(&mut self.left, value, 1);
            }
            proof {
                assert(value@.skip(0) =~= value@);
                assert forall|s: Seq<bool>| final(self).contains_seq(s) <==> (base.contains_seq(s)
                    || s == value@) by {
                    if s.len() == 0 {
                        assert(s != value@);
                    } else if s[0] == bit {
                        assert(child_for(*self, !bit) == child_for(base, !bit));
                        assert(opt_contains(child_for(*self, bit), s.skip(1)) <==> (opt_contains(
                            child_for(base, bit),
                            s.skip(1),
                        ) || s.skip(1) == value@.skip(1)));
                        if s[0] == value@[0] && s.skip(1) == value@.skip(1) {
                            crate::bits::lemma_head_tail_eq(s, value@);
                        }
                        if s == value@ {
                            assert(s.skip(1) == value@.skip(1));
                        }
                    } else {
                        assert(child_for(*self, s[0]) == child_for(base, s[0]));
                        assert(s != value@);
                    }
                }
            }
        }
    }

    /// Walks `query[i..]` from `self` and reports the depth (relative to
    /// `self`) of the deepest filled node visited, or `None` when no visited
    /// node is filled.
    fn search_depth(&self, query: &Vec<bool>, i: usize) -> (r: Option<usize>)
        requires
            i <= query@.len(),
        ensures
            match r {
                Some(d) => self.last_filled_depth(query@.skip(i as int)) == d && d < query@.len()
                    - i,
                None => self.last_filled_depth(query@.skip(i as int)) == -1,
            },
        decreases query@.len() - i,
    {
        let ghost q = query@.skip(i as int);
        if i == query.len() {
            proof {
                assert(q.len() == 0);
            }
            return None;
        }
        proof {
            assert(q.len() == query@.len() - i);
            assert(q[0] == query@[i as int]);
        }
        let here: Option<usize> = if self.filled {
            Some(0)
        } else {
            None
        };
        let child = if query[i] {
            &self.right
        } else {
            &self.left
        };
        match child {
            None => here,
            Some(c) => {
                proof {
                    assert(q.skip(1) =~= query@.skip(i + 1));
                }
                match c.search_depth(query, i + 1) {
                    Some(d) => Some(d + 1),
                    None => here,
                }
            },
        }
    }

    /// Longest-prefix search: returns the prefix of `query` of length
    /// `self.search_len(query@)` — the longest inserted sequence that is a
    /// strict prefix of `query`, or the empty prefix when no node visited on
    /// the walk is filled.
    pub fn search(&self, query: &Vec<bool>) -> (r: Vec<bool>)
        ensures
            r@ == query@.take(self.search_len(query@) as int),
    {
        proof {
            assert(query@.skip(0) =~= query@);
        }
        let len: usize = match self.search_depth(query, 0) {
            Some(d) => d,
            None => 0,
        };
        prefix_of(query, len)
    }

    /// Removal is declared by the shared lookup-table contract but left
    /// unsupported: it fails explicitly and leaves the trie unchanged.
    pub fn delete(&mut self, _value: &Vec<bool>) -> (r: Result<(), UnsupportedOperation>)
        ensures
            *final(self) == *old(self),
            r == Err::<(), UnsupportedOperation>(UnsupportedOperation),
    {
        Err(UnsupportedOperation)
    }
}

/// What the search walk reports, characterized by the contained sequences
/// alone: `last_filled_depth` is the largest `k` below `q.len()` with
/// `q.take(k)` contained, or `-1` when there is none.
pub proof fn lemma_last_filled_characterizes(t: BinaryTrie, q: Seq<bool>)
    ensures
        -1 <= t.last_filled_depth(q) < q.len(),
        t.last_filled_depth(q) >= 0 ==> t.contains_seq(q.take(t.last_filled_depth(q))),
        forall|k: int| t.last_filled_depth(q) < k < q.len() ==> !t.contains_seq(q.take(k)),
    decreases q.len(),
{
    if q.len() == 0 {
    } else {
        let d = t.last_filled_depth(q);
        assert forall|k: int| 1 <= k <= q.len() implies t.contains_seq(q.take(k)) == opt_contains(
            child_for(t, q[0]),
            q.skip(1).take(k - 1),
        ) by {
            assert(q.take(k).len() == k);
            assert(q.take(k)[0] == q[0]);
            lemma_take_skip(q, k);
        }
        match child_for(t, q[0]) {
            None => {
                assert forall|k: int| d < k < q.len() implies !t.contains_seq(q.take(k)) by {
                    if k == 0 {
                        assert(q.take(0) =~= Seq::<bool>::empty());
                    }
                }
                if d >= 0 {
                    assert(q.take(0) =~= Seq::<bool>::empty());
                }
            },
            Some(c) => {
                lemma_last_filled_characterizes(*c, q.skip(1));
                let sub = c.last_filled_depth(q.skip(1));
                assert(q.skip(1).len() == q.len() - 1);
                if sub >= 0 {
                    assert(t.contains_seq(q.take(d)));
                    assert forall|k: int| d < k < q.len() implies !t.contains_seq(q.take(k)) by {
                        assert(!c.contains_seq(q.skip(1).take(k - 1)));
                    }
                } else {
                    assert forall|k: int| d < k < q.len() implies !t.contains_seq(q.take(k)) by {
                        if k == 0 {
                            assert(q.take(0) =~= Seq::<bool>::empty());
                        } else {
                            assert(!c.contains_seq(q.skip(1).take(k - 1)));
                        }
                    }
                    if d >= 0 {
                        assert(q.take(0) =~= Seq::<bool>::empty());
                    }
                }
            },
        }
    }
}

/// The reported prefix length, characterized by the contained sequences: it
/// is bounded by the query (strictly, for a non-empty query), a positive
/// report names a contained strict prefix of the query, and no longer strict
/// prefix of the query is contained.
pub proof fn lemma_search_len_characterizes(t: BinaryTrie, q: Seq<bool>)
    ensures
        t.search_len(q) <= q.len(),
        q.len() > 0 ==> t.search_len(q) < q.len(),
        t.search_len(q) > 0 ==> t.contains_seq(q.take(t.search_len(q) as int)),
        forall|k: int| t.search_len(q) < k < q.len() ==> !t.contains_seq(q.take(k)),
{
    lemma_last_filled_characterizes(t, q);
}

/// A search result depends only on which sequences the trie contains.
/// Since `insert`'s contract makes the contained set of a table after
/// inserting `value` exactly the old set plus `value`, inserting the same
/// sequence twice leaves every later search result unchanged.
pub proof fn lemma_search_agrees_on_contents(t1: BinaryTrie, t2: BinaryTrie, q: Seq<bool>)
    requires
        forall|s: Seq<bool>| t1.contains_seq(s) == t2.contains_seq(s),
    ensures
        t1.search_len(q) == t2.search_len(q),
{
    lemma_last_filled_characterizes(t1, q);
    lemma_last_filled_characterizes(t2, q);
    let d1 = t1.last_filled_depth(q);
    let d2 = t2.last_filled_depth(q);
    if d1 > d2 && d1 > 0 {
        assert(t1.contains_seq(q.take(d1)));
        assert(!t2.contains_seq(q.take(d1)));
    }
    if d2 > d1 && d2 > 0 {
        assert(t2.contains_seq(q.take(d2)));
        assert(!t1.contains_seq(q.take(d2)));
    }
}

/// Idempotence: let `t1` be any table whose contents include `v` (for
/// instance one that `v` was just inserted into), and `t2` the table after
/// inserting `v` into `t1` once more, as `insert`'s contract describes the
/// result.  Then every search result of `t2` equals `t1`'s.
pub proof fn lemma_trie_insert_idempotent(
    t1: BinaryTrie,
    t2: BinaryTrie,
    v: Seq<bool>,
    q: Seq<bool>,
)
    requires
        t1.contains_seq(v),
        forall|s: Seq<bool>| t2.contains_seq(s) <==> (t1.contains_seq(s) || s == v),
    ensures
        t2.search_len(q) == t1.search_len(q),
{
    lemma_search_agrees_on_contents(t1, t2, q);
}

/// Empty-query boundary: a search for the empty query reports the empty
/// prefix whether or not the root is filled.
pub proof fn lemma_empty_query(t: BinaryTrie)
    ensures
        t.search_len(Seq::empty()) == 0,
{
}

} // verus!
