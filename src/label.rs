use vstd::prelude::*;
use crate::oracle::Oracle;

verus! {

/// Whether visiting vertex `v` consumes one unit of resource `r`: bit `r`
/// of the vertex id is set.
pub open spec fn has_bit(v: usize, r: int) -> bool {
    0 <= r < 64 && ((v as u64) >> (r as u64)) & 1u64 == 1u64
}

/// Number of unvisited entries of a visited vector.
pub open spec fn count_false(s: Seq<bool>) -> nat
    decreases s.len(),
{
    if s.len() == 0 {
        0
    } else {
        count_false(s.drop_last()) + if s.last() { 0nat } else { 1nat }
    }
}

/// A vector with nothing visited has every entry unvisited.
pub proof fn lemma_count_false_all(n: nat)
    ensures
        count_false(Seq::new(n, |i: int| false)) == n,
    decreases n,
{
    if n > 0 {
        lemma_count_false_all((n - 1) as nat);
        assert(Seq::new(n, |i: int| false).drop_last() =~= Seq::new((n - 1) as nat, |i: int| false));
    }
}

/// Marking one unvisited entry as visited lowers the count by one.
pub proof fn lemma_count_false_mark(s: Seq<bool>, i: int)
    requires
        0 <= i < s.len(),
        !s[i],
    ensures
        count_false(s.update(i, true)) + 1 == count_false(s),
    decreases s.len(),
{
    let t = s.update(i, true);
    if i == s.len() - 1 {
        assert(t.drop_last() =~= s.drop_last());
    } else {
        lemma_count_false_mark(s.drop_last(), i);
        assert(t.drop_last() =~= s.drop_last().update(i, true));
    }
}

/// One partial elementary path, ending at vertex `at`. `predecessor` is the
/// index of the label it extends in its label pool.
pub struct Label {
    pub at: usize,
    pub visited: Vec<bool>,
    pub predecessor: Option<usize>,
    pub cost: i64,
    pub length: i64,
    pub q: Vec<usize>,
}

/// Whether `a` is at least as good as `b` on cost, length, visited set and
/// every resource.
pub open spec fn dominates_spec(a: Label, b: Label) -> bool {
    &&& a.cost <= b.cost
    &&& a.length <= b.length
    &&& forall|v: int| 0 <= v < a.visited@.len() && #[trigger] a.visited@[v] ==> b.visited@[v]
    &&& forall|r: int| 0 <= r < a.q@.len() ==> #[trigger] a.q@[r] <= b.q@[r]
}

/// Both labels track the same vertices and the same resources.
pub open spec fn same_shape(a: Label, b: Label) -> bool {
    a.visited@.len() == b.visited@.len() && a.q@.len() == b.q@.len()
}

/// Every dominance-relevant component of `a` and `b` agrees.
pub open spec fn same_state(a: Label, b: Label) -> bool {
    a.cost == b.cost && a.length == b.length && a.visited@ == b.visited@ && a.q@ == b.q@
}

/// Dominance is reflexive.
pub proof fn lemma_dominates_reflexive(a: Label)
    ensures
        dominates_spec(a, a),
{
}

/// Dominance is transitive.
pub proof fn lemma_dominates_transitive(a: Label, b: Label, c: Label)
    requires
        same_shape(a, b),
        same_shape(b, c),
        dominates_spec(a, b),
        dominates_spec(b, c),
    ensures
        dominates_spec(a, c),
{
    assert forall|v: int| 0 <= v < a.visited@.len() && #[trigger] a.visited@[v] implies c.visited@[v] by {
        assert(b.visited@[v]);
    }
    assert forall|r: int| 0 <= r < a.q@.len() implies #[trigger] a.q@[r] <= c.q@[r] by {
        assert(a.q@[r] <= b.q@[r]);
        assert(b.q@[r] <= c.q@[r]);
    }
}

/// Two labels dominate each other only when they agree componentwise.
pub proof fn lemma_dominates_antisymmetric(a: Label, b: Label)
    requires
        same_shape(a, b),
        dominates_spec(a, b),
        dominates_spec(b, a),
    ensures
        same_state(a, b),
{
    assert forall|v: int| 0 <= v < a.visited@.len() implies a.visited@[v] == b.visited@[v] by {
        if a.visited@[v] {
            assert(b.visited@[v]);
        }
        if b.visited@[v] {
            assert(a.visited@[v]);
        }
    }
    assert(a.visited@ =~= b.visited@);
    assert forall|r: int| 0 <= r < a.q@.len() implies a.q@[r] == b.q@[r] by {
        assert(a.q@[r] <= b.q@[r]);
        assert(b.q@[r] <= a.q@[r]);
    }
    assert(a.q@ =~= b.q@);
}

/// Dominance is not total: some pairs of labels are incomparable.
pub proof fn lemma_dominates_incomparable(a: Label, b: Label)
    requires
        a.cost < b.cost,
        a.length > b.length,
    ensures
        !dominates_spec(a, b),
        !dominates_spec(b, a),
{
}

/// The resource vector after visiting `vertex`.
pub open spec fn q_after(q: Seq<usize>, vertex: usize) -> Seq<int> {
    Seq::new(q.len(), |r: int| q[r] + if has_bit(vertex, r) { 1int } else { 0int })
}

impl Label {
    /// The empty path at the depot, over `n` vertices and `nresources`
    /// resources.
    pub fn empty(n: usize, nresources: usize) -> (r: Label)
        ensures
            r.at == 0,
            r.visited@ == Seq::new(n as nat, |i: int| false),
            r.q@ == Seq::new(nresources as nat, |i: int| 0usize),
            r.predecessor is None,
            r.cost == 0,
            r.length == 0,
    {
        let visited: Vec<bool> = vec![false; n];
        let q: Vec<usize> = vec![0; nresources];
        Label { at: 0, visited, predecessor: None, cost: 0, length: 0, q }
    }

    /// Whether this label dominates `other`.
    pub fn dominates(&self, other: &Label) -> (r: bool)
        requires
            same_shape(*self, *other),
        ensures
            r == dominates_spec(*self, *other),
    {
        if self.cost > other.cost || self.length > other.length {
            return false;
        }
        let mut i: usize = 0;
        while i < self.visited.len()
            invariant
                same_shape(*self, *other),
                i <= self.visited@.len(),
                forall|v: int| 0 <= v < i && #[trigger] self.visited@[v] ==> other.visited@[v],
            decreases self.visited@.len() - i,
        {
            if self.visited[i] && !other.visited[i] {
                return false;
            }
            i += 1;
        }
        let mut r: usize = 0;
        while r < self.q.len()
            invariant
                same_shape(*self, *other),
                r <= self.q@.len(),
                forall|k: int| 0 <= k < r ==> #[trigger] self.q@[k] <= other.q@[k],
            decreases self.q@.len() - r,
        {
            if self.q[r] > other.q[r] {
                return false;
            }
            r += 1;
        }
        true
    }

    /// The label reached by extending `from`, stored at index `from_idx`,
    /// to `vertex`. The depot is never marked visited. Feasibility is the
    /// caller's concern.
    pub fn extend(d: &Oracle, from: &Label, from_idx: usize, vertex: usize) -> (r: Label)
        requires
            d.wf(),
            from.at < d.n,
            vertex < d.n,
            from.visited@.len() == d.n,
            from.q@.len() <= 64,
            forall|k: int| 0 <= k < from.q@.len() && has_bit(vertex, k) ==> #[trigger] from.q@[k] < usize::MAX,
            i64::MIN <= from.cost + d.aux_spec(from.at as int, vertex as int) <= i64::MAX,
            i64::MIN <= from.length + d.d_spec(from.at as int, vertex as int) <= i64::MAX,
        ensures
            r.at == vertex,
            r.visited@ == if vertex == 0 { from.visited@ } else { from.visited@.update(vertex as int, true) },
            r.q@.len() == from.q@.len(),
            forall|k: int| 0 <= k < r.q@.len() ==> #[trigger] r.q@[k] == q_after(from.q@, vertex)[k],
            r.predecessor == Some(from_idx),
            r.cost == from.cost + d.aux_spec(from.at as int, vertex as int),
            r.length == from.length + d.d_spec(from.at as int, vertex as int),
    {
        let mut visited = from.visited.clone();
        if vertex != 0 {
            visited.set(vertex, true);
        }
        let mut q = from.q.clone();
        let mut i: usize = 0;
        while i < q.len()
            invariant
                from.q@.len() <= 64,
                q@.len() == from.q@.len(),
                i <= q@.len(),
                forall|k: int| 0 <= k < from.q@.len() && has_bit(vertex, k) ==> #[trigger] from.q@[k] < usize::MAX,
                forall|k: int| 0 <= k < i ==> #[trigger] q@[k] == q_after(from.q@, vertex)[k],
                forall|k: int| i <= k < q@.len() ==> #[trigger] q@[k] == from.q@[k],
            decreases q@.len() - i,
        {
            if ((vertex as u64) >> (i as u64)) & 1u64 == 1u64 {
                let c = q[i];
                q.set(i, c + 1);
            }
            i += 1;
        }
        let cost = from.cost + d.aux(from.at, vertex) as i64;
        let length = from.length + d.d(from.at, vertex) as i64;
        Label { at: vertex, visited, predecessor: Some(from_idx), cost, length, q }
    }
}

} // verus!
