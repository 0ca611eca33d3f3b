use vstd::prelude::*;
use crate::label::{Label, dominates_spec, same_shape, lemma_dominates_transitive};

verus! {

/// `y` is reachable from `x` by following successor links (zero or more).
/// Each link `p -> y` is recorded in `succs[p]` and mirrored by `y`'s
/// predecessor, which always has a smaller index.
pub open spec fn descends(labels: Seq<Label>, succs: Seq<Vec<usize>>, x: int, y: int) -> bool
    decreases y,
{
    if y == x {
        true
    } else if 0 <= y < labels.len() {
        match labels[y].predecessor {
            Some(p) => p < y && succs[p as int]@.contains(y as usize) && descends(labels, succs, x, p as int),
            None => false,
        }
    } else {
        false
    }
}

/// Labels of one search, owned by index. `ignore[i]` flags label `i` dead;
/// `successors[i]` lists the labels that extend it and were accepted.
pub struct LabelPool {
    pub labels: Vec<Label>,
    pub ignore: Vec<bool>,
    pub successors: Vec<Vec<usize>>,
}


/// A strict descendant of `x` descends from one of `x`'s recorded successors.
pub proof fn lemma_descends_via_child(labels: Seq<Label>, succs: Seq<Vec<usize>>, x: int, y: int)
    requires
        labels.len() <= usize::MAX,
        descends(labels, succs, x, y),
        y != x,
    ensures
        exists|k: int|
            0 <= k < succs[x]@.len() && descends(labels, succs, #[trigger] succs[x]@[k] as int, y),
    decreases y,
{
    let p = labels[y].predecessor.unwrap() as int;
    assert(0 <= y < labels.len() && 0 <= p < y && succs[p]@.contains(y as usize) && descends(labels, succs, x, p));
    if p == x {
        let k = choose|k: int| 0 <= k < succs[x]@.len() && succs[x]@[k] == y as usize;
        assert(succs[x]@[k] as int == y);
        assert(descends(labels, succs, succs[x]@[k] as int, y));
    } else {
        lemma_descends_via_child(labels, succs, x, p);
        let k = choose|k: int|
            0 <= k < succs[x]@.len() && descends(labels, succs, #[trigger] succs[x]@[k] as int, p);
        assert(descends(labels, succs, succs[x]@[k] as int, y));
    }
}

/// What descends from a recorded successor `c` of `x` descends from `x`.
pub proof fn lemma_descends_from_child(labels: Seq<Label>, succs: Seq<Vec<usize>>, x: int, c: int, y: int)
    requires
        labels.len() <= usize::MAX,
        0 <= x < c < labels.len(),
        labels[c].predecessor == Some(x as usize),
        succs[x]@.contains(c as usize),
        descends(labels, succs, c, y),
    ensures
        descends(labels, succs, x, y),
        y != x,
    decreases y,
{
    lemma_descends_ge(labels, succs, c, y);
    if y == c {
        assert(descends(labels, succs, x, x));
        assert(labels[c].predecessor.unwrap() as int == x);
        assert(descends(labels, succs, x, c));
    } else {
        let p = labels[y].predecessor.unwrap() as int;
        assert(0 <= y < labels.len() && 0 <= p < y && succs[p]@.contains(y as usize) && descends(labels, succs, c, p));
        lemma_descends_from_child(labels, succs, x, c, p);
        assert(descends(labels, succs, x, y));
    }
}

/// Descent from `x` never reaches below `x`.
pub proof fn lemma_descends_ge(labels: Seq<Label>, succs: Seq<Vec<usize>>, x: int, y: int)
    requires
        descends(labels, succs, x, y),
    ensures
        x <= y,
    decreases y,
{
    if y != x {
        let p = labels[y].predecessor.unwrap() as int;
        lemma_descends_ge(labels, succs, x, p);
    }
}

/// A store: distinct indices of labels of the pool, pairwise incomparable.
pub open spec fn store_wf(labels: Seq<Label>, store: Seq<usize>) -> bool {
    &&& store.no_duplicates()
    &&& forall|i: int| 0 <= i < store.len() ==> (#[trigger] store[i]) < labels.len()
    &&& forall|i: int, j: int|
        0 <= i < store.len() && 0 <= j < store.len() && i != j
            ==> !dominates_spec(#[trigger] labels[store[i] as int], #[trigger] labels[store[j] as int])
}


/// Removing position `i` by moving the last element into it keeps a store
/// well formed and drops exactly `s[i]`.
pub proof fn lemma_swap_remove(labels: Seq<Label>, s: Seq<usize>, i: int)
    requires
        store_wf(labels, s),
        0 <= i < s.len(),
    ensures
        store_wf(labels, s.update(i, s.last()).drop_last()),
        forall|m: usize| #[trigger] s.update(i, s.last()).drop_last().contains(m) <==> (s.contains(m) && m != s[i]),
        forall|j: int| 0 <= j < i ==> #[trigger] s.update(i, s.last()).drop_last()[j] == s[j],
{
    let t = s.update(i, s.last()).drop_last();
    let last = s.len() - 1;
    // position of t's entry j in s
    assert forall|j: int| 0 <= j < t.len() implies #[trigger] t[j] == s[if j == i { last } else { j }] by {}
    assert forall|a: int, b: int| 0 <= a < t.len() && 0 <= b < t.len() && a != b implies t[a] != t[b] by {
        let pa = if a == i { last } else { a };
        let pb = if b == i { last } else { b };
        assert(t[a] == s[pa] && t[b] == s[pb] && pa != pb);
    }
    assert forall|a: int, b: int| 0 <= a < t.len() && 0 <= b < t.len() && a != b implies
        !dominates_spec(#[trigger] labels[t[a] as int], #[trigger] labels[t[b] as int]) by {
        let pa = if a == i { last } else { a };
        let pb = if b == i { last } else { b };
        assert(t[a] == s[pa] && t[b] == s[pb] && pa != pb);
    }
    assert forall|j: int| 0 <= j < t.len() implies (#[trigger] t[j]) < labels.len() by {
        let pj = if j == i { last } else { j };
        assert(t[j] == s[pj]);
    }
    assert forall|m: usize| #[trigger] t.contains(m) <==> (s.contains(m) && m != s[i]) by {
        if t.contains(m) {
            let j = choose|j: int| 0 <= j < t.len() && t[j] == m;
            let pj = if j == i { last } else { j };
            assert(s[pj] == m);
            assert(pj != i);
        }
        if s.contains(m) && m != s[i] {
            let j = choose|j: int| 0 <= j < s.len() && s[j] == m;
            assert(j != i);
            if j == last {
                assert(t[i] == m);
            } else {
                assert(t[j] == m);
            }
        }
    }
}

impl LabelPool {
    pub open spec fn len(&self) -> nat {
        self.labels@.len()
    }

    /// Index bookkeeping: parallel vectors, successor links point forward
    /// and agree with predecessors, and all labels share one shape.
    pub open spec fn wf(&self) -> bool {
        &&& self.labels@.len() <= usize::MAX
        &&& self.ignore@.len() == self.labels@.len()
        &&& self.successors@.len() == self.labels@.len()
        &&& forall|p: int, k: int|
            0 <= p < self.labels@.len() && 0 <= k < self.successors@[p]@.len() ==> {
                let s = #[trigger] self.successors@[p]@[k];
                p < s < self.labels@.len() && self.labels@[s as int].predecessor == Some(p as usize)
            }
        &&& forall|i: int, j: int|
            0 <= i < self.labels@.len() && 0 <= j < self.labels@.len()
                ==> same_shape(#[trigger] self.labels@[i], #[trigger] self.labels@[j])
    }

    pub open spec fn descends(&self, x: int, y: int) -> bool {
        descends(self.labels@, self.successors@, x, y)
    }

    /// A pool holding only `first`, alive and without successors.
    pub fn new(first: Label) -> (r: LabelPool)
        ensures
            r.wf(),
            r.labels@ == seq![first],
            r.ignore@ == seq![false],
            r.successors@.len() == 1,
            r.successors@[0]@.len() == 0,
    {
        let mut labels: Vec<Label> = Vec::new();
        labels.push(first);
        let mut ignore: Vec<bool> = Vec::new();
        ignore.push(false);
        let mut successors: Vec<Vec<usize>> = Vec::new();
        successors.push(Vec::new());
        LabelPool { labels, ignore, successors }
    }

    /// Adds `l` as a live label without successors and returns its index.
    pub fn add(&mut self, l: Label) -> (r: usize)
        requires
            old(self).wf(),
            old(self).len() < usize::MAX,
            old(self).len() > 0 ==> same_shape(l, old(self).labels@[0]),
            forall|p: usize| l.predecessor == Some(p) ==> p < old(self).len(),
        ensures
            final(self).wf(),
            r == old(self).len(),
            final(self).labels@ == old(self).labels@.push(l),
            final(self).ignore@ == old(self).ignore@.push(false),
            final(self).successors@.len() == old(self).successors@.len() + 1,
            forall|p: int| 0 <= p < old(self).len() ==> #[trigger] final(self).successors@[p] == old(self).successors@[p],
            final(self).successors@[r as int]@.len() == 0,
    {
        let r = self.labels.len();
        self.labels.push(l);
        self.ignore.push(false);
        self.successors.push(Vec::new());
        proof {
            let s = *self;
            assert forall|i: int, j: int| 0 <= i < s.labels@.len() && 0 <= j < s.labels@.len()
                implies same_shape(#[trigger] s.labels@[i], #[trigger] s.labels@[j]) by {
                assert(same_shape(s.labels@[i], s.labels@[0]));
                assert(same_shape(s.labels@[j], s.labels@[0]));
            }
            assert forall|p: int, k: int|
                0 <= p < s.labels@.len() && 0 <= k < s.successors@[p]@.len() implies {
                    let c = #[trigger] s.successors@[p]@[k];
                    p < c < s.labels@.len() && s.labels@[c as int].predecessor == Some(p as usize)
                } by {
                assert(p < r);
                assert(s.successors@[p] == old(self).successors@[p]);
            }
        }
        r
    }

    /// Records `child` as a successor of `parent`.
    pub fn addsuccessor(&mut self, parent: usize, child: usize)
        requires
            old(self).wf(),
            parent < child < old(self).len(),
            old(self).labels@[child as int].predecessor == Some(parent),
        ensures
            final(self).wf(),
            final(self).labels@ == old(self).labels@,
            final(self).ignore@ == old(self).ignore@,
            final(self).successors@.len() == old(self).successors@.len(),
            final(self).successors@[parent as int]@ == old(self).successors@[parent as int]@.push(child),
            forall|p: int| 0 <= p < old(self).len() && p != parent ==> #[trigger] final(self).successors@[p] == old(self).successors@[p],
    {
        let mut list = Vec::new();
        std::mem::swap(&mut list, &mut self.successors[parent]);
        list.push(child);
        std::mem::swap(&mut list, &mut self.successors[parent]);
        proof {
            let s = *self;
            assert forall|p: int, k: int|
                0 <= p < s.labels@.len() && 0 <= k < s.successors@[p]@.len() implies {
                    let c = #[trigger] s.successors@[p]@[k];
                    p < c < s.labels@.len() && s.labels@[c as int].predecessor == Some(p as usize)
                } by {
                if p != parent {
                    assert(s.successors@[p] == old(self).successors@[p]);
                } else if k < old(self).successors@[p]@.len() {
                    assert(s.successors@[p]@[k] == old(self).successors@[p]@[k]);
                }
            }
        }
    }

    /// Flags every label that descends from `x`, `x` itself excepted, as
    /// dead. Nothing else changes.
    pub fn marksuccessors(&mut self, x: usize)
        requires
            old(self).wf(),
            x < old(self).len(),
        ensures
            final(self).wf(),
            final(self).labels@ == old(self).labels@,
            final(self).successors@ == old(self).successors@,
            final(self).ignore@.len() == old(self).ignore@.len(),
            forall|y: int| 0 <= y < old(self).len() ==> #[trigger] final(self).ignore@[y]
                == (old(self).ignore@[y] || (y != x && old(self).descends(x as int, y))),
        decreases old(self).len() - x,
    {
        let ghost labels = self.labels@;
        let ghost succs = self.successors@;
        let ghost start = self.ignore@;
        let n = self.successors[x].len();
        let mut k: usize = 0;
        while k < n
            invariant
                self.wf(),
                self.labels@ == labels,
                self.successors@ == succs,
                labels == old(self).labels@,
                x < labels.len(),
                n == succs[x as int]@.len(),
                k <= n,
                self.ignore@.len() == start.len(),
                forall|y: int| 0 <= y < labels.len() ==> #[trigger] self.ignore@[y]
                    == (start[y] || exists|j: int| 0 <= j < k && descends(labels, succs, #[trigger] succs[x as int]@[j] as int, y)),
            decreases n - k,
        {
            let s = self.successors[x][k];
            assert(x < s < labels.len());
            assert(self.len() == old(self).len());
            self.ignore.set(s, true);
            let ghost mid = self.ignore@;
            self.marksuccessors(s);
            proof {
                assert forall|y: int| 0 <= y < labels.len() implies #[trigger] self.ignore@[y]
                    == (start[y] || exists|j: int| 0 <= j < k + 1 && descends(labels, succs, #[trigger] succs[x as int]@[j] as int, y)) by {
                    if descends(labels, succs, s as int, y) {
                        assert(descends(labels, succs, succs[x as int]@[k as int] as int, y));
                    }
                    if exists|j: int| 0 <= j < k + 1 && descends(labels, succs, #[trigger] succs[x as int]@[j] as int, y) {
                        let j = choose|j: int| 0 <= j < k + 1 && descends(labels, succs, #[trigger] succs[x as int]@[j] as int, y);
                        if j < k {
                            assert(exists|j: int| 0 <= j < k && descends(labels, succs, #[trigger] succs[x as int]@[j] as int, y));
                        }
                    }
                }
            }
            k += 1;
        }
        proof {
            assert forall|y: int| 0 <= y < labels.len() implies #[trigger] self.ignore@[y]
                == (start[y] || (y != x && descends(labels, succs, x as int, y))) by {
                if y != x && descends(labels, succs, x as int, y) {
                    lemma_descends_via_child(labels, succs, x as int, y);
                }
                if exists|j: int| 0 <= j < n && descends(labels, succs, #[trigger] succs[x as int]@[j] as int, y) {
                    let j = choose|j: int| 0 <= j < n && descends(labels, succs, #[trigger] succs[x as int]@[j] as int, y);
                    let c = succs[x as int]@[j];
                    assert(succs[x as int]@.contains(c));
                    lemma_descends_from_child(labels, succs, x as int, c as int, y);
                }
            }
        }
    }

    /// Offers label `idx` to `store`. It is refused, with nothing changed,
    /// when a label of the store dominates it; otherwise every label of the
    /// store that it dominates leaves the store and is flagged dead together
    /// with all its descendants, and `idx` is appended to the store.
    pub fn updatedominance(&mut self, store: &mut Vec<usize>, idx: usize) -> (r: bool)
        requires
            old(self).wf(),
            idx < old(self).len(),
            store_wf(old(self).labels@, old(store)@),
            !old(store)@.contains(idx),
        ensures
            final(self).wf(),
            final(self).labels@ == old(self).labels@,
            final(self).successors@ == old(self).successors@,
            final(self).ignore@.len() == old(self).ignore@.len(),
            r == !exists|i: int| 0 <= i < old(store)@.len()
                && dominates_spec(#[trigger] old(self).labels@[old(store)@[i] as int], old(self).labels@[idx as int]),
            !r ==> final(store)@ == old(store)@ && final(self).ignore@ == old(self).ignore@,
            r ==> final(store)@.len() > 0 && final(store)@.last() == idx,
            r ==> forall|m: usize| #[trigger] final(store)@.contains(m) <==> (m == idx || (old(store)@.contains(m)
                && !dominates_spec(old(self).labels@[idx as int], old(self).labels@[m as int]))),
            store_wf(final(self).labels@, final(store)@),
            forall|y: int| 0 <= y < old(self).len() ==> #[trigger] final(self).ignore@[y] == (old(self).ignore@[y]
                || r && exists|m: usize| old(store)@.contains(m) && dominates_spec(old(self).labels@[idx as int], old(self).labels@[m as int])
                    && #[trigger] descends(old(self).labels@, old(self).successors@, m as int, y)),
    {
        let ghost labels = self.labels@;
        let ghost succs = self.successors@;
        let ghost start = self.ignore@;
        let ghost orig = store@;
        let ghost mut removed: Seq<usize> = Seq::empty();
        let mut i: usize = 0;
        while i < store.len()
            invariant
                self.wf(),
                self.labels@ == labels,
                self.successors@ == succs,
                labels == old(self).labels@,
                succs == old(self).successors@,
                start == old(self).ignore@,
                orig == old(store)@,
                idx < labels.len(),
                store_wf(labels, orig),
                !orig.contains(idx),
                store_wf(labels, store@),
                i <= store@.len(),
                forall|m: usize| #[trigger] store@.contains(m) <==> (orig.contains(m) && !removed.contains(m)),
                forall|j: int| 0 <= j < removed.len() ==> orig.contains(#[trigger] removed[j])
                    && dominates_spec(labels[idx as int], labels[removed[j] as int])
                    && !dominates_spec(labels[removed[j] as int], labels[idx as int]),
                removed.len() == 0 ==> store@ == orig,
                forall|j: int| 0 <= j < i ==> !dominates_spec(labels[idx as int], #[trigger] labels[store@[j] as int])
                    && !dominates_spec(labels[store@[j] as int], labels[idx as int]),
                self.ignore@.len() == start.len(),
                forall|y: int| 0 <= y < labels.len() ==> #[trigger] self.ignore@[y] == (start[y]
                    || exists|j: int| 0 <= j < removed.len() && descends(labels, succs, #[trigger] removed[j] as int, y)),
            decreases store@.len() - i,
        {
            let m = store[i];
            assert(same_shape(labels[m as int], labels[idx as int]));
            if self.labels[m].dominates(&self.labels[idx]) {
                proof {
                    if removed.len() > 0 {
                        let r0 = removed[0];
                        assert(store@.contains(m));
                        lemma_dominates_transitive(labels[m as int], labels[idx as int], labels[r0 as int]);
                        let a = choose|a: int| 0 <= a < orig.len() && orig[a] == m;
                        let b = choose|b: int| 0 <= b < orig.len() && orig[b] == r0;
                        assert(a != b);
                    }
                    assert(self.ignore@ =~= start);
                    assert(orig[i as int] == m);
                }
                return false;
            }
            if self.labels[idx].dominates(&self.labels[m]) {
                assert(store@.contains(m));
                self.ignore.set(m, true);
                self.marksuccessors(m);
                proof {
                    lemma_swap_remove(labels, store@, i as int);
                }
                store.swap_remove(i);
                proof {
                    let old_removed = removed;
                    removed = removed.push(m);
                    assert(removed[old_removed.len() as int] == m);
                    assert forall|j: int| 0 <= j < old_removed.len() implies removed[j] == old_removed[j] by {}
                    assert forall|m2: usize| #[trigger] store@.contains(m2) <==> (orig.contains(m2) && !removed.contains(m2)) by {
                        if removed.contains(m2) && m2 != m {
                            let j = choose|j: int| 0 <= j < removed.len() && removed[j] == m2;
                            assert(old_removed[j] == m2);
                        }
                        if old_removed.contains(m2) {
                            let j = choose|j: int| 0 <= j < old_removed.len() && old_removed[j] == m2;
                            assert(removed[j] == m2);
                        }
                    }
                    assert forall|y: int| 0 <= y < labels.len() implies #[trigger] self.ignore@[y] == (start[y]
                        || exists|j: int| 0 <= j < removed.len() && descends(labels, succs, #[trigger] removed[j] as int, y)) by {
                        if exists|j: int| 0 <= j < old_removed.len() && descends(labels, succs, #[trigger] old_removed[j] as int, y) {
                            let j = choose|j: int| 0 <= j < old_removed.len() && descends(labels, succs, #[trigger] old_removed[j] as int, y);
                            assert(removed[j] == old_removed[j]);
                        }
                        if exists|j: int| 0 <= j < removed.len() && descends(labels, succs, #[trigger] removed[j] as int, y) {
                            let j = choose|j: int| 0 <= j < removed.len() && descends(labels, succs, #[trigger] removed[j] as int, y);
                            if j < old_removed.len() {
                                assert(old_removed[j] == removed[j]);
                            }
                        }
                    }
                }
            } else {
                i += 1;
            }
        }
        proof {
            assert forall|m: usize| orig.contains(m) && dominates_spec(labels[idx as int], labels[m as int])
                implies #[trigger] removed.contains(m) by {
                if !removed.contains(m) {
                    assert(store@.contains(m));
                    let j = choose|j: int| 0 <= j < store@.len() && store@[j] == m;
                }
            }
            assert forall|k: int| 0 <= k < orig.len() implies
                !dominates_spec(#[trigger] labels[orig[k] as int], labels[idx as int]) by {
                let m = orig[k];
                assert(orig.contains(m));
                if removed.contains(m) {
                    let j = choose|j: int| 0 <= j < removed.len() && removed[j] == m;
                } else {
                    assert(store@.contains(m));
                    let j = choose|j: int| 0 <= j < store@.len() && store@[j] == m;
                }
            }
        }
        let ghost pre = store@;
        store.push(idx);
        proof {
            let fs = store@;
            assert(fs.drop_last() =~= pre);
            assert forall|m: usize| #[trigger] fs.contains(m) <==> (m == idx || (orig.contains(m)
                && !dominates_spec(labels[idx as int], labels[m as int]))) by {
                if fs.contains(m) && m != idx {
                    let j = choose|j: int| 0 <= j < fs.len() && fs[j] == m;
                    assert(store@.drop_last()[j] == m);
                    assert(store@.drop_last().contains(m));
                }
                if m == idx {
                    assert(fs[fs.len() - 1] == idx);
                }
                if orig.contains(m) && !dominates_spec(labels[idx as int], labels[m as int]) {
                    if removed.contains(m) {
                        let j = choose|j: int| 0 <= j < removed.len() && removed[j] == m;
                    }
                    let old_s = fs.drop_last();
                    assert(pre.contains(m));
                    let j = choose|j: int| 0 <= j < old_s.len() && old_s[j] == m;
                    assert(fs[j] == m);
                }
            }
            assert forall|y: int| 0 <= y < labels.len() implies #[trigger] self.ignore@[y] == (start[y]
                || exists|m: usize| orig.contains(m) && dominates_spec(labels[idx as int], labels[m as int])
                    && #[trigger] descends(labels, succs, m as int, y)) by {
                if exists|j: int| 0 <= j < removed.len() && descends(labels, succs, #[trigger] removed[j] as int, y) {
                    let j = choose|j: int| 0 <= j < removed.len() && descends(labels, succs, #[trigger] removed[j] as int, y);
                    let m = removed[j];
                    assert(orig.contains(m) && dominates_spec(labels[idx as int], labels[m as int]) && descends(labels, succs, m as int, y));
                }
                if exists|m: usize| orig.contains(m) && dominates_spec(labels[idx as int], labels[m as int])
                    && #[trigger] descends(labels, succs, m as int, y) {
                    let m = choose|m: usize| orig.contains(m) && dominates_spec(labels[idx as int], labels[m as int])
                        && #[trigger] descends(labels, succs, m as int, y);
                    assert(removed.contains(m));
                    let j = choose|j: int| 0 <= j < removed.len() && removed[j] == m;
                    assert(descends(labels, succs, removed[j] as int, y));
                }
            }
            let old_s = fs.drop_last();
            assert forall|a: int, b: int| 0 <= a < fs.len() && 0 <= b < fs.len() && a != b implies
                !dominates_spec(#[trigger] labels[fs[a] as int], #[trigger] labels[fs[b] as int]) by {
                if a < old_s.len() && b < old_s.len() {
                    assert(fs[a] == old_s[a] && fs[b] == old_s[b]);
                } else if a < old_s.len() {
                    assert(fs[a] == old_s[a]);
                } else {
                    assert(fs[b] == old_s[b]);
                }
            }
            assert forall|a: int| 0 <= a < old_s.len() implies #[trigger] old_s[a] != idx by {
                assert(old_s.contains(old_s[a]));
            }
            assert forall|a: int, b: int| 0 <= a < fs.len() && 0 <= b < fs.len() && a != b implies fs[a] != fs[b] by {
                if a < old_s.len() && b < old_s.len() {
                    assert(fs[a] == old_s[a] && fs[b] == old_s[b]);
                } else if a < old_s.len() {
                    assert(fs[a] == old_s[a]);
                } else {
                    assert(fs[b] == old_s[b]);
                }
            }
        }
        true
    }
    /// Drops the most recently added label, which nothing links to.
    pub fn discard_last(&mut self)
        requires
            old(self).wf(),
            old(self).len() > 0,
            forall|p: int, k: int| 0 <= p < old(self).len() && 0 <= k < old(self).successors@[p]@.len()
                ==> #[trigger] old(self).successors@[p]@[k] < old(self).len() - 1,
        ensures
            final(self).wf(),
            final(self).labels@ == old(self).labels@.drop_last(),
            final(self).ignore@ == old(self).ignore@.drop_last(),
            final(self).successors@ == old(self).successors@.drop_last(),
    {
        self.labels.pop();
        self.ignore.pop();
        self.successors.pop();
        proof {
            let s = *self;
            assert forall|p: int, k: int|
                0 <= p < s.labels@.len() && 0 <= k < s.successors@[p]@.len() implies {
                    let c = #[trigger] s.successors@[p]@[k];
                    p < c < s.labels@.len() && s.labels@[c as int].predecessor == Some(p as usize)
                } by {
                assert(s.successors@[p] == old(self).successors@[p]);
                assert(old(self).successors@[p]@[k] < old(self).len() - 1);
            }
            assert forall|i: int, j: int| 0 <= i < s.labels@.len() && 0 <= j < s.labels@.len()
                implies same_shape(#[trigger] s.labels@[i], #[trigger] s.labels@[j]) by {
                assert(same_shape(old(self).labels@[i], old(self).labels@[j]));
            }
        }
    }
}

} // verus!
