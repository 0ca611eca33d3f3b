use vstd::prelude::*;
use crate::oracle::Oracle;
use crate::label::{Label, has_bit, q_after};

verus! {

/// Sum of the reduced costs of the arcs along `r`.
pub open spec fn route_cost(d: &Oracle, r: Seq<usize>) -> int
    decreases r.len(),
{
    if r.len() < 2 {
        0
    } else {
        route_cost(d, r.drop_last()) + d.aux_spec(r[r.len() - 2] as int, r.last() as int)
    }
}

/// Sum of the travel distances of the arcs along `r`.
pub open spec fn route_length(d: &Oracle, r: Seq<usize>) -> int
    decreases r.len(),
{
    if r.len() < 2 {
        0
    } else {
        route_length(d, r.drop_last()) + d.d_spec(r[r.len() - 2] as int, r.last() as int)
    }
}

/// No depot and no repeated vertex in `s`.
pub open spec fn elementary(s: Seq<usize>) -> bool {
    s.no_duplicates() && !s.contains(0usize)
}

/// An elementary route: from the depot through one or more distinct other
/// vertices and back to the depot.
pub open spec fn is_route(d: &Oracle, r: Seq<usize>) -> bool {
    &&& r.len() >= 3
    &&& r[0] == 0
    &&& r.last() == 0
    &&& forall|k: int| 0 <= k < r.len() ==> (#[trigger] r[k]) < d.n
    &&& elementary(r.subrange(1, r.len() - 1))
}

/// The vertices of label `i`'s path, from the start of its predecessor
/// chain to the label's own vertex.
pub open spec fn path(labels: Seq<Label>, i: int) -> Seq<usize>
    decreases i,
{
    if 0 <= i < labels.len() {
        match labels[i].predecessor {
            Some(p) => if p < i {
                path(labels, p as int).push(labels[i].at)
            } else {
                seq![labels[i].at]
            },
            None => seq![labels[i].at],
        }
    } else {
        seq![]
    }
}

/// Appending a label leaves the paths of the others as they were.
pub proof fn lemma_path_push(labels: Seq<Label>, l: Label, i: int)
    requires
        0 <= i < labels.len(),
    ensures
        path(labels.push(l), i) == path(labels, i),
    decreases i,
{
    match labels[i].predecessor {
        Some(p) => if p < i {
            lemma_path_push(labels, l, p as int);
        },
        None => {},
    }
}

/// Label `i` is the end of its path: cost and length are the path's, it
/// starts at the depot, and, while the label can be extended, the vertices
/// after the start are distinct, not the depot, and are exactly the visited
/// ones. A completed route is such a path followed by the depot.
pub open spec fn path_ok(d: &Oracle, labels: Seq<Label>, i: int) -> bool {
    let r = path(labels, i);
    let l = labels[i];
    &&& r.len() >= 1
    &&& r[0] == 0
    &&& r.last() == l.at
    &&& forall|k: int| 0 <= k < r.len() ==> (#[trigger] r[k]) < d.n
    &&& l.cost == route_cost(d, r)
    &&& l.length == route_length(d, r)
    &&& (i == 0 ==> r.len() == 1)
    &&& (i != 0 ==> r.len() >= 2)
    &&& ((l.at != 0 || i == 0) ==> elementary(r.subrange(1, r.len() as int))
        && forall|v: int| 1 <= v < l.visited@.len() ==> (#[trigger] l.visited@[v] <==> r.subrange(1, r.len() as int).contains(v as usize)))
    &&& ((l.at == 0 && i != 0) ==> r.len() >= 3 && elementary(r.subrange(1, r.len() - 1)))
}

/// The path of a label made by extending open label `li` to `succ` is
/// `li`'s path followed by `succ`, and keeps every label's path well formed.
pub proof fn lemma_extend_path(d: &Oracle, labels: Seq<Label>, li: int, nl: Label)
    requires
        d.wf(),
        0 <= li < labels.len(),
        labels.len() < usize::MAX,
        forall|k: int| 0 <= k < labels.len() ==> #[trigger] path_ok(d, labels, k),
        labels[li].at != 0 || li == 0,
        labels[li].visited@.len() == d.n,
        !labels[li].visited@[0],
        nl.predecessor == Some(li as usize),
        nl.at < d.n,
        nl.at != labels[li].at,
        !labels[li].visited@[nl.at as int],
        nl.visited@ == if nl.at == 0 { labels[li].visited@ } else { labels[li].visited@.update(nl.at as int, true) },
        nl.at == 0 ==> li != 0,
        nl.cost == labels[li].cost + d.aux_spec(labels[li].at as int, nl.at as int),
        nl.length == labels[li].length + d.d_spec(labels[li].at as int, nl.at as int),
    ensures
        path(labels.push(nl), labels.len() as int) == path(labels, li).push(nl.at),
        forall|k: int| 0 <= k < labels.len() + 1 ==> #[trigger] path_ok(d, labels.push(nl), k),
{
    let ls = labels.push(nl);
    let n = labels.len() as int;
    lemma_path_push(labels, nl, li);
    let r = path(labels, li);
    let r2 = path(ls, n);
    assert(ls[n] == nl);
    assert((li as usize) as int == li);
    assert(r2 == r.push(nl.at));
    assert(path_ok(d, labels, li));
    assert(r2.drop_last() =~= r);
    let succ = nl.at;
    let inner = r.subrange(1, r.len() as int);
    assert forall|k: int| 0 <= k < r2.len() implies (#[trigger] r2[k]) < d.n by {
        if k < r.len() {
            assert(r2[k] == r[k]);
        }
    }
    if succ != 0 {
        let inner2 = r2.subrange(1, r2.len() as int);
        assert(inner2 =~= inner.push(succ));
        assert(!inner.contains(succ));
        assert forall|v: int| 1 <= v < nl.visited@.len() implies (#[trigger] nl.visited@[v] <==> inner2.contains(v as usize)) by {
            if v != succ {
                assert(nl.visited@[v] == labels[li].visited@[v]);
                if inner.contains(v as usize) {
                    let k = choose|k: int| 0 <= k < inner.len() && inner[k] == v as usize;
                    assert(inner2[k] == v as usize);
                }
                if inner2.contains(v as usize) {
                    let k = choose|k: int| 0 <= k < inner2.len() && inner2[k] == v as usize;
                    assert(inner[k] == v as usize);
                }
            } else {
                assert(inner2[inner2.len() - 1] == succ);
            }
        }
        assert(!inner2.contains(0usize)) by {
            if inner2.contains(0usize) {
                let k = choose|k: int| 0 <= k < inner2.len() && inner2[k] == 0usize;
                if k < inner.len() {
                    assert(inner[k] == 0usize);
                }
            }
        }
        assert(inner2.no_duplicates()) by {
            assert forall|a: int, b: int| 0 <= a < inner2.len() && 0 <= b < inner2.len() && a != b implies inner2[a] != inner2[b] by {
                if a < inner.len() && b < inner.len() {
                    assert(inner2[a] == inner[a] && inner2[b] == inner[b]);
                } else if a < inner.len() {
                    assert(inner2[a] == inner[a]);
                } else {
                    assert(inner2[b] == inner[b]);
                }
            }
        }
    } else {
        assert(r2.subrange(1, r2.len() - 1) =~= inner);
    }
    assert(path_ok(d, ls, n));
    assert forall|k: int| 0 <= k < labels.len() + 1 implies #[trigger] path_ok(d, ls, k) by {
        if k < n {
            lemma_path_push(labels, nl, k);
            assert(ls[k] == labels[k]);
            assert(path_ok(d, labels, k));
        }
    }
}

/// Number of vertices of `s` that consume resource `r`.
pub open spec fn uses(s: Seq<usize>, r: int) -> nat
    decreases s.len(),
{
    if s.len() == 0 {
        0
    } else {
        uses(s.drop_last(), r) + if has_bit(s.last(), r) { 1nat } else { 0nat }
    }
}

/// Every step of `rt` passes the search's length test: the length up to
/// the step's end, plus the direct way from there back to the depot, is
/// within `maxlen`.
pub open spec fn steps_within(d: &Oracle, rt: Seq<usize>, maxlen: int) -> bool {
    forall|k: int| 1 <= k < rt.len() ==> #[trigger] route_length(d, rt.take(k + 1)) + d.d_spec(rt[k] as int, 0) <= maxlen
}

/// An elementary route within the limits of a search: each of the
/// `nres` resources is used at most `cap` times, and every step passes the
/// length test.
pub open spec fn feasible_route(d: &Oracle, rt: Seq<usize>, nres: nat, cap: int, maxlen: int) -> bool {
    &&& is_route(d, rt)
    &&& steps_within(d, rt, maxlen)
    &&& forall|r: int| 0 <= r < nres ==> #[trigger] uses(rt, r) <= cap
}

/// Label `i` stays within the limits of the search: each resource count
/// is its path's use of that resource and within `cap`, and every step of
/// its path passed the length test.
pub open spec fn limits_ok(d: &Oracle, cap: int, maxlen: int, labels: Seq<Label>, i: int) -> bool {
    let l = labels[i];
    &&& steps_within(d, path(labels, i), maxlen)
    &&& forall|r: int| 0 <= r < l.q@.len() ==> (#[trigger] l.q@[r]) == uses(path(labels, i), r) && l.q@[r] <= cap
}

/// Extending label `li` to a feasible vertex keeps every label within the
/// limits of the search.
pub proof fn lemma_extend_limits(d: &Oracle, cap: int, maxlen: int, labels: Seq<Label>, li: int, nl: Label)
    requires
        0 <= li < labels.len(),
        forall|k: int| 0 <= k < labels.len() ==> #[trigger] limits_ok(d, cap, maxlen, labels, k),
        path(labels.push(nl), labels.len() as int) == path(labels, li).push(nl.at),
        nl.length + d.d_spec(nl.at as int, 0) <= maxlen,
        nl.length == route_length(d, path(labels.push(nl), labels.len() as int)),
        nl.q@.len() == labels[li].q@.len(),
        forall|r: int| 0 <= r < nl.q@.len() ==> #[trigger] nl.q@[r] == q_after(labels[li].q@, nl.at)[r],
        forall|r: int| 0 <= r < nl.q@.len() && has_bit(nl.at, r) ==> #[trigger] labels[li].q@[r] + 1 <= cap,
    ensures
        forall|k: int| 0 <= k < labels.len() + 1 ==> #[trigger] limits_ok(d, cap, maxlen, labels.push(nl), k),
{
    let ls = labels.push(nl);
    let n = labels.len() as int;
    let p = path(labels, li);
    assert(p.push(nl.at).drop_last() =~= p);
    assert(limits_ok(d, cap, maxlen, labels, li));
    assert forall|r: int| 0 <= r < nl.q@.len() implies (#[trigger] nl.q@[r]) == uses(path(ls, n), r) && nl.q@[r] <= cap by {
        assert(nl.q@[r] == q_after(labels[li].q@, nl.at)[r]);
        assert(labels[li].q@[r] == uses(p, r));
    }
    let p2 = p.push(nl.at);
    assert forall|k: int| 1 <= k < p2.len() implies #[trigger] route_length(d, p2.take(k + 1)) + d.d_spec(p2[k] as int, 0) <= maxlen by {
        if k < p.len() {
            assert(p2.take(k + 1) =~= p.take(k + 1));
            assert(p2[k] == p[k]);
            assert(route_length(d, p.take(k + 1)) + d.d_spec(p[k] as int, 0) <= maxlen);
        } else {
            assert(p2.take(k + 1) =~= p2);
        }
    }
    assert(limits_ok(d, cap, maxlen, ls, n));
    assert forall|k: int| 0 <= k < labels.len() + 1 implies #[trigger] limits_ok(d, cap, maxlen, ls, k) by {
        if k < n {
            lemma_path_push(labels, nl, k);
            assert(ls[k] == labels[k]);
            assert(limits_ok(d, cap, maxlen, labels, k));
        }
    }
}

} // verus!
