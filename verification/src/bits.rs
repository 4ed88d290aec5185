//! Shared vocabulary for bit sequences: prefixes, common leading runs, and
//! small executable helpers used by both table implementations.

use vstd::prelude::*;

verus! {

/// `p` is a (not necessarily strict) prefix of `q`.
pub open spec fn is_prefix_of(p: Seq<bool>, q: Seq<bool>) -> bool {
    p.len() <= q.len() && p == q.take(p.len() as int)
}

/// Length of the common leading run of `a` and `b`: the largest `k` such
/// that the first `k` bits of `a` and `b` agree.
pub open spec fn common_prefix_len(a: Seq<bool>, b: Seq<bool>) -> nat
    decreases a.len(),
{
    if a.len() == 0 || b.len() == 0 || a[0] != b[0] {
        0
    } else {
        common_prefix_len(a.skip(1), b.skip(1)) + 1
    }
}

/// The common leading run is bounded by both lengths, agrees position by
/// position, and is maximal: the bits just past it (when both exist) differ.
pub proof fn lemma_common_prefix_len_spec(a: Seq<bool>, b: Seq<bool>)
    ensures
        common_prefix_len(a, b) <= a.len(),
        common_prefix_len(a, b) <= b.len(),
        forall|j: int| 0 <= j < common_prefix_len(a, b) ==> a[j] == b[j],
        common_prefix_len(a, b) < a.len() && common_prefix_len(a, b) < b.len() ==> a[common_prefix_len(
            a,
            b,
        ) as int] != b[common_prefix_len(a, b) as int],
    decreases a.len(),
{
    if a.len() == 0 || b.len() == 0 || a[0] != b[0] {
    } else {
        lemma_common_prefix_len_spec(a.skip(1), b.skip(1));
        let c = common_prefix_len(a, b) as int;
        assert forall|j: int| 0 <= j < c implies a[j] == b[j] by {
            if j > 0 {
                assert(a.skip(1)[j - 1] == a[j]);
                assert(b.skip(1)[j - 1] == b[j]);
            }
        }
        if c < a.len() && c < b.len() {
            assert(a.skip(1)[c - 1] == a[c]);
            assert(b.skip(1)[c - 1] == b[c]);
        }
    }
}

/// Any position that agrees up to itself and then stops (by running out of
/// bits or by a mismatch) is exactly the common leading run.
pub proof fn lemma_common_prefix_len_unique(a: Seq<bool>, b: Seq<bool>, i: int)
    requires
        0 <= i <= a.len(),
        i <= b.len(),
        forall|j: int| 0 <= j < i ==> a[j] == b[j],
        i == a.len() || i == b.len() || a[i] != b[i],
    ensures
        common_prefix_len(a, b) == i,
{
    lemma_common_prefix_len_spec(a, b);
    let c = common_prefix_len(a, b) as int;
    if c < i {
        assert(a[c] == b[c]);
    }
    if c > i {
        assert(a[i] == b[i]);
    }
}

/// A prefix agrees with the longer sequence along its whole length.
pub proof fn lemma_prefix_common_prefix_len(p: Seq<bool>, q: Seq<bool>)
    requires
        is_prefix_of(p, q),
    ensures
        common_prefix_len(p, q) == p.len(),
{
    assert forall|j: int| 0 <= j < p.len() implies p[j] == q[j] by {
        assert(p[j] == q.take(p.len() as int)[j]);
    }
    lemma_common_prefix_len_unique(p, q, p.len() as int);
}

/// Dropping the first bit commutes with truncation.
pub proof fn lemma_take_skip(q: Seq<bool>, k: int)
    requires
        1 <= k <= q.len(),
    ensures
        q.take(k).skip(1) == q.skip(1).take(k - 1),
{
    assert(q.take(k).skip(1) =~= q.skip(1).take(k - 1));
}

/// Sequences with the same first bit and the same remainder are equal.
pub proof fn lemma_head_tail_eq(a: Seq<bool>, b: Seq<bool>)
    requires
        a.len() > 0,
        b.len() > 0,
        a[0] == b[0],
        a.skip(1) == b.skip(1),
    ensures
        a == b,
{
    assert(a.skip(1).len() == a.len() - 1);
    assert(b.skip(1).len() == b.len() - 1);
    assert forall|j: int| 0 <= j < a.len() implies a[j] == b[j] by {
        if j > 0 {
            assert(a.skip(1)[j - 1] == a[j]);
            assert(b.skip(1)[j - 1] == b[j]);
        }
    }
    assert(a =~= b);
}

/// Element-wise equality of two bit vectors.
pub fn bits_eq(a: &Vec<bool>, b: &Vec<bool>) -> (r: bool)
    ensures
        r == (a@ == b@),
{
    if a.len() != b.len() {
        return false;
    }
    let mut i: usize = 0;
    while i < a.len()
        invariant
            i <= a@.len(),
            a@.len() == b@.len(),
            forall|j: int| 0 <= j < i ==> a@[j] == b@[j],
        decreases a@.len() - i,
    {
        if a[i] != b[i] {
            return false;
        }
        i += 1;
    }
    proof {
        assert(a@ =~= b@);
    }
    true
}

/// Length of the common leading run of `a` and `b`, found by scanning.
pub fn common_run(a: &Vec<bool>, b: &Vec<bool>) -> (r: usize)
    ensures
        r == common_prefix_len(a@, b@),
{
    let mut i: usize = 0;
    while i < a.len() && i < b.len()
        invariant
            i <= a@.len(),
            i <= b@.len(),
            forall|j: int| 0 <= j < i ==> a@[j] == b@[j],
        decreases a@.len() - i,
    {
        if a[i] != b[i] {
            proof {
                lemma_common_prefix_len_unique(a@, b@, i as int);
            }
            return i;
        }
        i += 1;
    }
    proof {
        lemma_common_prefix_len_unique(a@, b@, i as int);
    }
    i
}

/// Copy of the first `n` bits of `q`.
pub fn prefix_of(q: &Vec<bool>, n: usize) -> (r: Vec<bool>)
    requires
        n <= q@.len(),
    ensures
        r@ == q@.take(n as int),
{
    let mut r: Vec<bool> = Vec::new();
    let mut i: usize = 0;
    while i < n
        invariant
            i <= n,
            n <= q@.len(),
            r@.len() == i,
            forall|j: int| 0 <= j < i ==> r@[j] == q@[j],
        decreases n - i,
    {
        r.push(q[i]);
        i += 1;
    }
    proof {
        assert(r@ =~= q@.take(n as int));
    }
    r
}

} // verus!
