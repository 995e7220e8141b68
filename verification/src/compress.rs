//! Merging overlapping detections.
//!
//! The detections are visited in pairs `(i, j)`, `i < j`, in lexicographic
//! order. A pair is offered only while neither detection has been merged
//! away; when the caller finds that the two overlap, it merges detection `i`
//! into detection `j` and reports it, and `i` is merged away. At the end the
//! detections merged away are dropped, the others kept in order.
//!
//! Deciding whether two detections overlap, and merging them, is geometry
//! and belongs to the caller.
use vstd::prelude::*;

verus! {

/// Pair `a` comes strictly before pair `b` in lexicographic order.
pub open spec fn pair_before(a: (int, int), b: (int, int)) -> bool {
    a.0 < b.0 || (a.0 == b.0 && a.1 < b.1)
}

/// A pair of distinct detections among `n`, the smaller first.
pub open spec fn is_pair(p: (int, int), n: nat) -> bool {
    0 <= p.0 < p.1 < n
}

/// A pair that is offered: neither detection merged away.
pub open spec fn offered(p: (int, int), merged: Seq<bool>) -> bool {
    !merged[p.0] && !merged[p.1]
}

/// Visits the pairs of `n` detections and records which are merged away.
pub struct MergeScan {
    n: usize,
    i: usize,
    j: usize,
    merged: Vec<bool>,
    last: Option<(usize, usize)>,
}

/// The items of `items` whose flag in `merged` is clear, among the first `k`.
pub open spec fn unmerged_prefix<T>(items: Seq<T>, merged: Seq<bool>, k: nat) -> Seq<T>
    decreases k,
{
    if k == 0 {
        seq![]
    } else {
        let earlier = unmerged_prefix(items, merged, (k - 1) as nat);
        if merged[k - 1] {
            earlier
        } else {
            earlier.push(items[k - 1])
        }
    }
}

/// The items of `items` whose flag in `merged` is clear, in order.
pub open spec fn unmerged<T>(items: Seq<T>, merged: Seq<bool>) -> Seq<T> {
    unmerged_prefix(items, merged, items.len())
}

/// With nothing merged away, every item is kept, in order.
pub proof fn lemma_nothing_merged_keeps_all<T>(items: Seq<T>, merged: Seq<bool>)
    requires
        merged.len() == items.len(),
        forall|k: int| 0 <= k < merged.len() ==> !merged[k],
    ensures
        unmerged(items, merged) == items,
{
    assert forall|k: nat| k <= items.len() implies #[trigger] unmerged_prefix(items, merged, k)
        == items.take(k as int) by {
        lemma_unmerged_prefix_all(items, merged, k);
    }
    assert(items.take(items.len() as int) == items);
}

proof fn lemma_unmerged_prefix_all<T>(items: Seq<T>, merged: Seq<bool>, k: nat)
    requires
        merged.len() == items.len(),
        forall|m: int| 0 <= m < merged.len() ==> !merged[m],
        k <= items.len(),
    ensures
        unmerged_prefix(items, merged, k) == items.take(k as int),
    decreases k,
{
    if k > 0 {
        lemma_unmerged_prefix_all(items, merged, (k - 1) as nat);
        assert(items.take(k as int) =~= items.take(k - 1).push(items[k - 1]));
    } else {
        assert(items.take(0) =~= Seq::<T>::empty());
    }
}

/// Each detection merged away drops exactly one item: the items kept and
/// the flags set add up to all items.
pub proof fn lemma_unmerged_count<T>(items: Seq<T>, merged: Seq<bool>)
    requires
        merged.len() == items.len(),
    ensures
        unmerged(items, merged).len() + merged.filter(|b: bool| b).len() == items.len(),
{
    lemma_unmerged_prefix_count(items, merged, items.len());
    assert(merged.take(items.len() as int) == merged);
}

proof fn lemma_unmerged_prefix_count<T>(items: Seq<T>, merged: Seq<bool>, k: nat)
    requires
        merged.len() == items.len(),
        k <= items.len(),
    ensures
        unmerged_prefix(items, merged, k).len() + merged.take(k as int).filter(|b: bool| b).len()
            == k,
    decreases k,
{
    if k > 0 {
        lemma_unmerged_prefix_count(items, merged, (k - 1) as nat);
        assert(merged.take(k as int) =~= merged.take(k - 1).push(merged[k - 1]));
        merged.take(k - 1).lemma_filter_push(merged[k - 1], |b: bool| b);
    } else {
        assert(merged.take(0) =~= Seq::<bool>::empty());
        reveal(Seq::filter);
    }
}

impl MergeScan {
    /// The number of detections.
    pub closed spec fn count(&self) -> nat {
        self.n as nat
    }

    /// Which detections have been merged away.
    pub closed spec fn merged(&self) -> Seq<bool> {
        self.merged@
    }

    /// The next pair to consider: every pair before it has been offered or
    /// passed over.
    pub closed spec fn cursor(&self) -> (int, int) {
        (self.i as int, self.j as int)
    }

    /// The pair offered last, if it may still be merged.
    pub closed spec fn last(&self) -> Option<(usize, usize)> {
        self.last
    }

    /// The scan's invariant.
    pub closed spec fn well_formed(&self) -> bool {
        &&& self.merged@.len() == self.n
        &&& self.n < usize::MAX
        &&& self.i <= self.n
        &&& self.i < self.j <= self.n + 1
        &&& self.last matches Some(p) ==> {
            &&& is_pair((p.0 as int, p.1 as int), self.n as nat)
            &&& !self.merged@[p.0 as int]
            &&& p.0 == self.i
        }
        &&& forall|k: int| 0 <= k < self.n && #[trigger] self.merged@[k] ==> k <= self.i
    }

    /// Starts a scan of `n` detections, none merged.
    pub fn new(n: usize) -> (s: Self)
        requires
            n < usize::MAX,
        ensures
            s.well_formed(),
            s.count() == n,
            s.merged() == Seq::new(n as nat, |k: int| false),
            s.cursor() == (0int, 1int),
            s.last() is None,
    {
        let mut merged: Vec<bool> = Vec::new();
        let mut k: usize = 0;
        while k < n
            invariant
                k <= n,
                merged@ == Seq::new(k as nat, |m: int| false),
            decreases n - k,
        {
            merged.push(false);
            k = k + 1;
        }
        assert(merged@ =~= Seq::new(n as nat, |k: int| false));
        MergeScan { n, i: 0, j: 1, merged, last: None }
    }

    /// Offers the next pair whose detections are both still there, or
    /// `None` when no pair is left. Every pair passed over has a detection
    /// that was merged away.
    pub fn next_pair(&mut self) -> (r: Option<(usize, usize)>)
        requires
            old(self).well_formed(),
        ensures
            final(self).well_formed(),
            final(self).count() == old(self).count(),
            final(self).merged() == old(self).merged(),
            final(self).last() == r,
            match r {
                Some(p) => {
                    &&& is_pair((p.0 as int, p.1 as int), old(self).count())
                    &&& offered((p.0 as int, p.1 as int), old(self).merged())
                    &&& !pair_before((p.0 as int, p.1 as int), old(self).cursor())
                    &&& forall|q: (int, int)|
                        is_pair(q, old(self).count()) && !pair_before(q, old(self).cursor())
                            && pair_before(q, (p.0 as int, p.1 as int)) ==> !offered(
                            q,
                            old(self).merged(),
                        )
                    &&& final(self).cursor() == (p.0 as int, p.1 + 1)
                },
                None => {
                    &&& forall|q: (int, int)|
                        is_pair(q, old(self).count()) && !pair_before(q, old(self).cursor())
                            ==> !offered(q, old(self).merged())
                    &&& forall|q: (int, int)|
                        is_pair(q, final(self).count()) ==> pair_before(q, final(self).cursor())
                },
            },
    {
        let ghost start = self.cursor();
        let ghost merged = self.merged@;
        loop
            invariant
                self.n == old(self).n,
                self.merged@ == merged,
                merged == old(self).merged@,
                merged.len() == self.n,
                self.n < usize::MAX,
                self.i <= self.n,
                self.i < self.j <= self.n + 1,
                forall|k: int| 0 <= k < self.n && #[trigger] merged[k] ==> k <= self.i,
                start == old(self).cursor(),
                !pair_before(self.cursor(), start),
                forall|q: (int, int)|
                    is_pair(q, self.n as nat) && !pair_before(q, start) && pair_before(
                        q,
                        self.cursor(),
                    ) ==> !offered(q, merged),
            decreases self.n - self.i, self.n + 1 - self.j,
        {
            if self.i >= self.n {
                self.last = None;
                assert forall|q: (int, int)|
                    is_pair(q, self.n as nat) && !pair_before(q, start) implies !offered(
                    q,
                    merged,
                ) by {
                    assert(pair_before(q, self.cursor()));
                }
                return None;
            }
            if self.j >= self.n {
                let ghost before = self.cursor();
                self.i = self.i + 1;
                self.j = self.i + 1;
                assert forall|q: (int, int)|
                    is_pair(q, self.n as nat) && !pair_before(q, start) && pair_before(
                        q,
                        self.cursor(),
                    ) implies !offered(q, merged) by {
                    assert(pair_before(q, before));
                }
            } else {
                let (i, j) = (self.i, self.j);
                if !self.merged[i] && !self.merged[j] {
                    self.j = j + 1;
                    self.last = Some((i, j));
                    return Some((i, j));
                }
                self.j = j + 1;
            }
        }
    }

    /// Records that the detections of the pair offered last overlap: the
    /// first of them is merged away.
    pub fn merge_last(&mut self)
        requires
            old(self).well_formed(),
            old(self).last() is Some,
        ensures
            final(self).well_formed(),
            final(self).count() == old(self).count(),
            final(self).cursor() == old(self).cursor(),
            final(self).last() is None,
            final(self).merged() == old(self).merged().update(old(self).last().unwrap().0 as int, true),
    {
        let (i, _j) = self.last.unwrap();
        self.merged.set(i, true);
        self.last = None;
    }

    /// Which detections have been merged away, one flag per detection.
    pub fn merged_flags(&self) -> (m: &Vec<bool>)
        ensures
            m@ == self.merged(),
    {
        &self.merged
    }

    /// The items whose detections were not merged away, in order.
    pub fn keep_unmerged<T>(&self, items: Vec<T>) -> (out: Vec<T>)
        requires
            self.well_formed(),
            items@.len() == self.count(),
        ensures
            out@ == unmerged(items@, self.merged()),
    {
        let ghost orig = items@;
        let mut out: Vec<T> = Vec::new();
        let mut k: usize = 0;
        let mut rest = items;
        // Walk the items from the front, moving out the ones to keep.
        let mut front: Vec<T> = Vec::new();
        while rest.len() > 0
            invariant
                rest@.len() + front@.len() == orig.len(),
                front@ == orig.subrange(rest@.len() as int, orig.len() as int).reverse(),
                rest@ == orig.take(rest@.len() as int),
            decreases rest@.len(),
        {
            let x = rest.pop().unwrap();
            front.push(x);
            assert(front@ =~= orig.subrange(rest@.len() as int, orig.len() as int).reverse());
            assert(rest@ =~= orig.take(rest@.len() as int));
        }
        assert(front@ =~= orig.reverse());
        while k < self.n
            invariant
                self.well_formed(),
                orig.len() == self.n,
                k <= self.n,
                front@.len() == self.n - k,
                front@ == orig.subrange(k as int, orig.len() as int).reverse(),
                out@ == unmerged_prefix(orig, self.merged@, k as nat),
            decreases self.n - k,
        {
            let x = front.pop().unwrap();
            assert(x == orig[k as int]);
            if !self.merged[k] {
                out.push(x);
            }
            k = k + 1;
            assert(front@ =~= orig.subrange(k as int, orig.len() as int).reverse());
        }
        out
    }
}

/// The first result to absorb a new detection: the first index whose
/// result holds the detection within its radius, or `None` to add it as a
/// new result.
pub fn absorbing_result(within: &Vec<bool>) -> (r: Option<usize>)
    ensures
        match r {
            Some(k) => k < within@.len() && within@[k as int] && forall|m: int|
                0 <= m < k ==> !within@[m],
            None => forall|m: int| 0 <= m < within@.len() ==> !within@[m],
        },
{
    let mut k: usize = 0;
    while k < within.len()
        invariant
            k <= within.len(),
            forall|m: int| 0 <= m < k ==> !within@[m],
        decreases within.len() - k,
    {
        if within[k] {
            return Some(k);
        }
        k = k + 1;
    }
    None
}

} // verus!
