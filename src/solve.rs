use vstd::prelude::*;
use std::collections::VecDeque;
use crate::oracle::Oracle;
use crate::label::{Label, same_shape, count_false, has_bit, dominates_spec, lemma_count_false_all,
    lemma_count_false_mark};
use crate::pool::{LabelPool, store_wf};
use crate::route::{path, path_ok, is_route, route_cost, lemma_extend_path, limits_ok, feasible_route,
    lemma_extend_limits, uses};

verus! {

/// Bound on the absolute value of one matrix entry.
pub const ARC_BOUND: i64 = 0x8000_0000;

/// Why a search was not run, or not finished.
#[derive(Debug, Clone, Copy, PartialEq, Eq)]
pub enum SolveError {
    /// The instance has no vertex, hence no depot.
    EmptyInstance,
    /// More resources than the bit width of the largest vertex id.
    TooManyResources,
    /// The label pool reached the largest size an index can address.
    TooManyLabels,
}

/// `b` to the power `e`.
pub open spec fn pw(b: nat, e: nat) -> nat
    decreases e,
{
    if e == 0 {
        1
    } else {
        b * pw(b, (e - 1) as nat)
    }
}

/// Powers of a positive base are positive.
pub proof fn lemma_pw_positive(b: nat, e: nat)
    requires
        b >= 1,
    ensures
        pw(b, e) >= 1,
    decreases e,
{
    if e > 0 {
        lemma_pw_positive(b, (e - 1) as nat);
        let x = pw(b, (e - 1) as nat);
        assert(b * x >= 1) by (nonlinear_arith)
            requires
                b >= 1,
                x >= 1,
        ;
    }
}

/// A label that the search may still extend: alive, and not a completed
/// route (a label at the depot other than the first one).
pub open spec fn open_label(l: Label, ign: bool, i: int) -> bool {
    !ign && (l.at != 0 || i == 0)
}

/// Weight of one label in the search's termination measure: an open label
/// with `u` unvisited vertices can spawn at most `n` labels with `u - 1`.
pub open spec fn weight(n: nat, l: Label, ign: bool, i: int) -> nat {
    if open_label(l, ign, i) {
        pw(n + 1, count_false(l.visited@))
    } else {
        0
    }
}

/// Total weight of the first `k` labels.
pub open spec fn potential(n: nat, labels: Seq<Label>, ignore: Seq<bool>, k: int) -> nat
    decreases k,
{
    if k <= 0 {
        0
    } else {
        potential(n, labels, ignore, k - 1) + weight(n, labels[k - 1], ignore[k - 1], k - 1)
    }
}

/// Flagging more labels dead never raises the measure.
pub proof fn lemma_potential_le(n: nat, l1: Seq<Label>, i1: Seq<bool>, l2: Seq<Label>, i2: Seq<bool>, k: int)
    requires
        forall|i: int| 0 <= i < k ==> l1[i] == #[trigger] l2[i],
        forall|i: int| 0 <= i < k && i1[i] ==> #[trigger] i2[i],
    ensures
        potential(n, l2, i2, k) <= potential(n, l1, i1, k),
    decreases k,
{
    if k > 0 {
        lemma_potential_le(n, l1, i1, l2, i2, k - 1);
        assert(l1[k - 1] == l2[k - 1] && (i1[k - 1] ==> i2[k - 1]));
    }
}

/// Flagging label `i` dead lowers the measure by its weight.
pub proof fn lemma_potential_kill(n: nat, labels: Seq<Label>, ignore: Seq<bool>, i: int, k: int)
    requires
        0 <= i < k <= ignore.len(),
    ensures
        potential(n, labels, ignore.update(i, true), k) + weight(n, labels[i], ignore[i], i)
            == potential(n, labels, ignore, k),
    decreases k,
{
    if k - 1 == i {
        lemma_potential_le(n, labels, ignore, labels, ignore.update(i, true), k - 1);
        lemma_potential_le(n, labels, ignore.update(i, true), labels, ignore, k - 1);
    } else {
        lemma_potential_kill(n, labels, ignore, i, k - 1);
    }
}

/// Appending one label adds its weight.
pub proof fn lemma_potential_push(n: nat, labels: Seq<Label>, ignore: Seq<bool>, l: Label, b: bool, k: int)
    requires
        k == labels.len(),
        k == ignore.len(),
    ensures
        potential(n, labels.push(l), ignore.push(b), k + 1) == potential(n, labels, ignore, k) + weight(n, l, b, k),
{
    lemma_potential_le(n, labels, ignore, labels.push(l), ignore.push(b), k);
    lemma_potential_le(n, labels.push(l), ignore.push(b), labels, ignore, k);
}

/// A label of the search is well placed: its vectors have the instance's
/// sizes, the depot is unvisited, and cost and length are sums of at most
/// `n - u` matrix entries, `u` being the number of unvisited entries, or
/// one more for a completed route.
pub open spec fn label_ok(n: nat, nres: nat, l: Label, i: int) -> bool {
    let span = n - count_false(l.visited@) + if l.at == 0 && i != 0 { 1int } else { 0int };
    &&& l.at < n
    &&& l.visited@.len() == n
    &&& l.q@.len() == nres
    &&& !l.visited@[0]
    &&& count_false(l.visited@) <= n
    &&& -span * ARC_BOUND <= l.cost <= span * ARC_BOUND
    &&& -span * ARC_BOUND <= l.length <= span * ARC_BOUND
}

/// State of the search between extensions.
pub open spec fn search_ok(d: &Oracle, nres: nat, cap: int, maxlen: int, pool: &LabelPool, stores: Seq<Vec<usize>>) -> bool {
    &&& d.wf()
    &&& d.n > 0
    &&& nres <= 64
    &&& pool.wf()
    &&& pool.len() >= 1
    &&& forall|i: int| 0 <= i < pool.len() ==> label_ok(d.n as nat, nres, #[trigger] pool.labels@[i], i)
    &&& pool.labels@[0].at == 0
    &&& pool.labels@[0].visited@ == Seq::new(d.n as nat, |i: int| false)
    &&& pool.labels@[0].cost == 0
    &&& stores.len() == d.n
    &&& forall|v: int| 0 <= v < d.n ==> store_wf(pool.labels@, #[trigger] stores[v]@)
    &&& forall|v: int, j: int| 0 <= v < d.n && 0 <= j < stores[v]@.len()
        ==> pool.labels@[#[trigger] stores[v]@[j] as int].at == v
    &&& stores[0]@.contains(0)
    &&& forall|i: int| 0 <= i < pool.len() ==> #[trigger] path_ok(d, pool.labels@, i)
    &&& forall|i: int| 0 <= i < pool.len() ==> #[trigger] limits_ok(d, cap, maxlen, pool.labels@, i)
}

/// Extends open label `li` to every feasible successor vertex, offers each
/// new label to its vertex's store, queues the vertices whose store took a
/// label, and then flags `li` as expanded. Returns false, leaving the search
/// unfinished, only when the pool cannot address another label.
fn expand(
    d: &Oracle,
    nres: usize,
    cap: usize,
    maxlen: i64,
    pool: &mut LabelPool,
    stores: &mut Vec<Vec<usize>>,
    queue: &mut VecDeque<usize>,
    in_q: &mut Vec<bool>,
    li: usize,
) -> (r: bool)
    requires
        search_ok(d, nres as nat, cap as int, maxlen as int, old(pool), old(stores)@),
        li < old(pool).len(),
        open_label(old(pool).labels@[li as int], old(pool).ignore@[li as int], li as int),
        old(in_q)@.len() == d.n,
        forall|k: int| 0 <= k < old(queue)@.len() ==> #[trigger] old(queue)@[k] < d.n,
    ensures
        search_ok(d, nres as nat, cap as int, maxlen as int, final(pool), final(stores)@),
        final(in_q)@.len() == d.n,
        forall|k: int| 0 <= k < final(queue)@.len() ==> #[trigger] final(queue)@[k] < d.n,
        final(stores)@[old(pool).labels@[li as int].at as int] == old(stores)@[old(pool).labels@[li as int].at as int],
        r ==> potential(d.n as nat, final(pool).labels@, final(pool).ignore@, final(pool).len() as int)
            < potential(d.n as nat, old(pool).labels@, old(pool).ignore@, old(pool).len() as int),
        potential(d.n as nat, old(pool).labels@, old(pool).ignore@, old(pool).len() as int) >= 1,
        r ==> final(pool).len() <= old(pool).len() + d.n,
        !r ==> old(pool).len() + d.n >= usize::MAX - 1,
{
    let n = d.n();
    let ghost nn = n as nat;
    let ghost l = pool.labels@[li as int];
    let ghost len0 = pool.labels@.len();
    let ghost px0 = potential(nn, pool.labels@, pool.ignore@.update(li as int, true), len0 as int);
    let ghost cf = count_false(l.visited@);
    proof {
        assert(label_ok(nn, nres as nat, l, li as int));
        lemma_count_false_mark(l.visited@, 0);
        lemma_pw_positive(nn + 1, (cf - 1) as nat);
        lemma_pw_positive(nn + 1, cf);
        lemma_potential_kill(nn, pool.labels@, pool.ignore@, li as int, len0 as int);
    }
    let ghost wc = pw(nn + 1, (cf - 1) as nat);
    let at = pool.labels[li].at;
    let mut succ: usize = 0;
    while succ < n
        invariant
            search_ok(d, nres as nat, cap as int, maxlen as int, pool, stores@),
            n == d.n,
            nn == n,
            li < pool.len(),
            pool.labels@[li as int] == l,
            l == old(pool).labels@[li as int],
            at == l.at,
            open_label(l, false, li as int),
            cf == count_false(l.visited@),
            cf >= 1,
            wc == pw(nn + 1, (cf - 1) as nat),
            stores@[at as int] == old(stores)@[at as int],
            in_q@.len() == n,
            forall|k: int| 0 <= k < queue@.len() ==> #[trigger] queue@[k] < n,
            succ <= n,
            pool.len() <= len0 + succ,
            len0 == old(pool).len(),
            potential(nn, old(pool).labels@, old(pool).ignore@, old(pool).len() as int) >= 1,
            potential(nn, pool.labels@, pool.ignore@.update(li as int, true), pool.len() as int) <= px0 + succ * wc,
        decreases n - succ,
    {
        proof {
            assert(succ * wc + wc == (succ + 1) * wc) by (nonlinear_arith);
        }
        if !pool.labels[li].visited[succ] && succ != at {
            let out = d.d(at, succ);
            let back = d.d(succ, 0);
            proof {
                assert(label_ok(nn, nres as nat, l, li as int));
                assert((n - cf) * ARC_BOUND <= n * ARC_BOUND) by (nonlinear_arith)
                    requires
                        cf >= 0,
                        n >= 0,
                ;
            }
            if length_feasible(pool.labels[li].length, out, back, maxlen)
                && resource_feasible(&pool.labels[li].q, succ, cap) {
                if pool.labels.len() >= usize::MAX - 1 {
                    return false;
                }
                let nl = Label::extend(d, &pool.labels[li], li, succ);
                let ghost labels1 = pool.labels@;
                let ghost ignore1 = pool.ignore@;
                let ghost succs1 = pool.successors@;
                let ghost stores1 = stores@;
                proof {
                    lemma_extend_path(d, labels1, li as int, nl);
                    assert(path_ok(d, labels1.push(nl), labels1.len() as int));
                    lemma_extend_limits(d, cap as int, maxlen as int, labels1, li as int, nl);
                    lemma_count_false_mark(l.visited@, succ as int);
                    assert(label_ok(nn, nres as nat, nl, labels1.len() as int));
                    assert(same_shape(nl, labels1[0]));
                }
                let nidx = pool.add(nl);
                proof {
                    lemma_potential_push(nn, labels1, ignore1.update(li as int, true), nl, false, nidx as int);
                    assert(ignore1.push(false).update(li as int, true) =~= ignore1.update(li as int, true).push(false));
                    assert(weight(nn, nl, false, nidx as int) <= wc);
                    assert forall|v: int| 0 <= v < n implies store_wf(pool.labels@, #[trigger] stores@[v]@) by {
                        assert(store_wf(labels1, stores@[v]@));
                    }
                    assert(!stores@[succ as int]@.contains(nidx)) by {
                        if stores@[succ as int]@.contains(nidx) {
                            let j = choose|j: int| 0 <= j < stores@[succ as int]@.len() && stores@[succ as int]@[j] == nidx;
                        }
                    }
                }
                let ghost ignore2 = pool.ignore@;
                let added = pool.updatedominance(&mut stores[succ], nidx);
                proof {
                    lemma_potential_le(nn, pool.labels@, ignore2.update(li as int, true), pool.labels@,
                        pool.ignore@.update(li as int, true), pool.len() as int);
                }
                let ghost stores3 = stores@;
                let ghost labels3 = pool.labels@;
                proof {
                    assert(labels3 == labels1.push(nl));
                    if succ == 0 {
                        assert(path_ok(d, labels1, li as int));
                        let pr = path(labels1, li as int);
                        assert(pr.subrange(1, pr.len() as int)[pr.len() - 2] == at);
                        assert(l.visited@[at as int]);
                        lemma_route_never_dominates_baseline(nl, labels1[0], at as int);
                    }
                }
                if added {
                    pool.addsuccessor(li, nidx);
                    proof {
                        assert forall|i: int| 0 <= i < pool.len() implies label_ok(nn, nres as nat, #[trigger] pool.labels@[i], i) by {
                            if i < nidx {
                                assert(pool.labels@[i] == labels1[i]);
                            }
                        }
                        assert forall|v: int| 0 <= v < n implies store_wf(pool.labels@, #[trigger] stores@[v]@) by {
                            if v != succ {
                                assert(stores@[v] == stores1[v]);
                            }
                        }
                        assert forall|v: int, j: int| 0 <= v < n && 0 <= j < stores@[v]@.len()
                            implies pool.labels@[#[trigger] stores@[v]@[j] as int].at == v by {
                            if v != succ {
                                assert(stores@[v] == stores1[v]);
                                assert(labels1[stores1[v]@[j] as int].at == v);
                            } else {
                                let m = stores@[v]@[j];
                                assert(stores@[v]@.contains(m));
                                if m != nidx {
                                    assert(stores1[v]@.contains(m));
                                    let j2 = choose|j2: int| 0 <= j2 < stores1[v]@.len() && stores1[v]@[j2] == m;
                                    assert(labels1[stores1[v]@[j2] as int].at == v);
                                }
                            }
                        }
                        if succ != 0 {
                            assert(stores@[0] == stores1[0]);
                        }
                        assert(stores@[0]@.contains(0));
                        assert(search_ok(d, nres as nat, cap as int, maxlen as int, pool, stores@));
                    }
                    if succ != 0 && !in_q[succ] {
                        queue.push_back(succ);
                        in_q.set(succ, true);
                    }
                } else {
                    proof {
                        assert forall|p: int, k: int| 0 <= p < pool.len() && 0 <= k < pool.successors@[p]@.len()
                            implies #[trigger] pool.successors@[p]@[k] < pool.len() - 1 by {
                            if p < nidx {
                                assert(pool.successors@[p] == succs1[p]);
                            }
                        }
                    }
                    pool.discard_last();
                    proof {
                        assert(pool.labels@ =~= labels1);
                        assert(pool.ignore@ =~= ignore1);
                        assert forall|v: int| 0 <= v < n implies (#[trigger] stores@[v])@ == stores1[v]@ by {
                            if v != succ {
                                assert(stores@[v] == stores1[v]);
                            }
                        }
                        assert forall|v: int| 0 <= v < n implies store_wf(pool.labels@, #[trigger] stores@[v]@) by {
                            assert(stores@[v]@ == stores1[v]@);
                        }
                        assert forall|v: int, j: int| 0 <= v < n && 0 <= j < stores@[v]@.len()
                            implies pool.labels@[#[trigger] stores@[v]@[j] as int].at == v by {
                            assert(stores@[v]@ == stores1[v]@);
                        }
                        assert(stores@[0]@ == stores1[0]@);
                    }
                }
            }
        }
        succ += 1;
    }
    let ghost ignore_end = pool.ignore@;
    pool.ignore.set(li, true);
    proof {
        assert(pool.ignore@ == ignore_end.update(li as int, true));
        assert(pw(nn + 1, cf) == (nn + 1) * wc);
        assert(nn * wc < (nn + 1) * wc) by (nonlinear_arith)
            requires
                wc >= 1,
        ;
    }
    true
}

/// Some vertex id carries the highest resource bit: `nresources` does not
/// exceed the bit width of `n - 1`.
/// The pool can address every label the search may create: each
/// expansion adds at most `n` labels and lowers the termination measure,
/// which starts at `(n + 1)^n`.
pub open spec fn label_capacity_ok(n: nat) -> bool {
    n * pw(n + 1, n) + 2 < usize::MAX
}

pub open spec fn resources_fit_spec(n: usize, nresources: usize) -> bool {
    nresources == 0 || (nresources <= 64 && n >= 1 && ((n - 1) as u64 >> ((nresources - 1) as u64)) != 0u64)
}

/// Whether `nresources` resource bits fit in the ids of `n` vertices.
pub fn resources_fit(n: usize, nresources: usize) -> (r: bool)
    ensures
        r == resources_fit_spec(n, nresources),
{
    if nresources == 0 {
        return true;
    }
    if nresources > 64 || n == 0 {
        return false;
    }
    ((n - 1) as u64) >> ((nresources - 1) as u64) != 0u64
}

/// Length test: the path, the arc out and the direct way back to the depot
/// fit in `maxlen`.
pub open spec fn length_feasible_spec(length: int, out: int, back: int, maxlen: int) -> bool {
    length + out + back <= maxlen
}

/// Resource test: every resource that `vertex` consumes still has room
/// under `cap`.
pub open spec fn resource_feasible_spec(q: Seq<usize>, vertex: usize, cap: int) -> bool {
    forall|r: int| 0 <= r < q.len() && has_bit(vertex, r) ==> #[trigger] q[r] + 1 <= cap
}

pub fn length_feasible(length: i64, out: i32, back: i32, maxlen: i64) -> (r: bool)
    requires
        -0x4000_0000_0000_0000 <= length <= 0x4000_0000_0000_0000,
    ensures
        r == length_feasible_spec(length as int, out as int, back as int, maxlen as int),
{
    length + out as i64 + back as i64 <= maxlen
}

pub fn resource_feasible(q: &Vec<usize>, vertex: usize, cap: usize) -> (r: bool)
    ensures
        r == resource_feasible_spec(q@, vertex, cap as int),
{
    let mut i: usize = 0;
    while i < q.len()
        invariant
            i <= q@.len(),
            forall|r: int| 0 <= r < i && has_bit(vertex, r) ==> #[trigger] q@[r] + 1 <= cap,
        decreases q@.len() - i,
    {
        if i < 64 && ((vertex as u64) >> (i as u64)) & 1u64 == 1u64 && q[i] >= cap {
            return false;
        }
        i += 1;
    }
    true
}

/// An extension refused for want of resource capacity `c` is refused under
/// any smaller capacity too.
pub proof fn lemma_resource_monotone(q: Seq<usize>, vertex: usize, c: int, c2: int)
    requires
        !resource_feasible_spec(q, vertex, c),
        c2 < c,
    ensures
        !resource_feasible_spec(q, vertex, c2),
{
}

/// An extension accepted under length bound `m` is accepted under any larger
/// bound too.
pub proof fn lemma_length_monotone(length: int, out: int, back: int, m: int, m2: int)
    requires
        length_feasible_spec(length, out, back, m),
        m2 > m,
    ensures
        length_feasible_spec(length, out, back, m2),
{
}

/// A completed route has visited some vertex, so it never dominates the
/// empty path at the depot.
pub proof fn lemma_route_never_dominates_baseline(route: Label, base: Label, v: int)
    requires
        route.visited@.len() == base.visited@.len(),
        0 <= v < route.visited@.len(),
        route.visited@[v],
        base.visited@ == Seq::new(base.visited@.len(), |i: int| false),
    ensures
        !dominates_spec(route, base),
{
    assert(!base.visited@[v]);
}

/// The smallest cost among the labels of `store`.
pub fn best_cost(pool: &LabelPool, store: &Vec<usize>) -> (r: i64)
    requires
        store@.len() > 0,
        forall|i: int| 0 <= i < store@.len() ==> (#[trigger] store@[i]) < pool.labels@.len(),
    ensures
        exists|i: int| 0 <= i < store@.len() && r == #[trigger] pool.labels@[store@[i] as int].cost,
        forall|i: int| 0 <= i < store@.len() ==> r <= #[trigger] pool.labels@[store@[i] as int].cost,
{
    let mut best = pool.labels[store[0]].cost;
    let mut i: usize = 1;
    while i < store.len()
        invariant
            1 <= i <= store@.len(),
            forall|k: int| 0 <= k < store@.len() ==> (#[trigger] store@[k]) < pool.labels@.len(),
            exists|k: int| 0 <= k < i && best == #[trigger] pool.labels@[store@[k] as int].cost,
            forall|k: int| 0 <= k < i ==> best <= #[trigger] pool.labels@[store@[k] as int].cost,
        decreases store@.len() - i,
    {
        let c = pool.labels[store[i]].cost;
        if c < best {
            best = c;
        }
        i += 1;
    }
    best
}

/// Minimum reduced cost among the labels that end at the depot when the
/// label-setting search is done: the empty route's 0, or the cost of a
/// cheaper elementary route that meets every resource capacity and the
/// per-step length test. A negative result signals an improving route. The
/// search always finishes on instances small enough for the pool to
/// address every label it may create.
pub fn solve(d: &Oracle, nresources: usize, resourcecapacity: usize, maxlen: i64) -> (r: Result<i64, SolveError>)
    requires
        d.wf(),
    ensures
        (r == Err::<i64, SolveError>(SolveError::EmptyInstance)) <==> d.n == 0,
        (r == Err::<i64, SolveError>(SolveError::TooManyResources)) <==> (d.n > 0 && !resources_fit_spec(d.n, nresources)),
        (d.n > 0 && resources_fit_spec(d.n, nresources) && label_capacity_ok(d.n as nat)) ==> r is Ok,
        r matches Ok(c) ==> c <= 0,
        r matches Ok(c) ==> c == 0 || exists|rt: Seq<usize>|
            feasible_route(d, rt, nresources as nat, resourcecapacity as int, maxlen as int) && route_cost(d, rt) == c,
{
    let n = d.n();
    if n == 0 {
        return Err(SolveError::EmptyInstance);
    }
    if !resources_fit(n, nresources) {
        return Err(SolveError::TooManyResources);
    }
    let mut queue: VecDeque<usize> = VecDeque::new();
    let mut in_q: Vec<bool> = vec![false; n];
    let l0 = Label::empty(n, nresources);
    queue.push_back(0);
    in_q.set(0, true);
    let mut pool = LabelPool::new(l0);
    let mut stores: Vec<Vec<usize>> = Vec::new();
    let mut first: Vec<usize> = Vec::new();
    first.push(0);
    stores.push(first);
    while stores.len() < n
        invariant
            1 <= stores@.len() <= n,
            stores@[0]@ == seq![0usize],
            forall|v: int| 1 <= v < stores@.len() ==> (#[trigger] stores@[v])@.len() == 0,
        decreases n - stores@.len(),
    {
        stores.push(Vec::new());
    }
    proof {
        lemma_count_false_all(n as nat);
        assert(stores@[0]@[0] == 0);
        assert forall|v: int| 0 <= v < n implies store_wf(pool.labels@, #[trigger] stores@[v]@) by {
            if v == 0 {
                assert(stores@[0]@ == seq![0usize]);
            }
        }
        assert(label_ok(n as nat, nresources as nat, pool.labels@[0], 0));
        assert(path(pool.labels@, 0) == seq![0usize]);
        assert(path_ok(d, pool.labels@, 0));
        assert forall|r: int| 0 <= r < nresources implies uses(seq![0usize], r) == 0 by {
            assert(seq![0usize].drop_last() =~= Seq::<usize>::empty());
            let rr = r as u64;
            assert((0u64 >> rr) & 1u64 == 0u64) by (bit_vector);
            assert(!has_bit(0usize, r));
            assert(uses(Seq::<usize>::empty(), r) == 0);
            assert(seq![0usize].last() == 0usize);
        }
        assert(limits_ok(d, resourcecapacity as int, maxlen as int, pool.labels@, 0));
        assert(potential(n as nat, pool.labels@, pool.ignore@, 0) == 0);
        assert(potential(n as nat, pool.labels@, pool.ignore@, 1) == pw(n as nat + 1, n as nat));
    }
    let ghost cap0 = 1 + n * pw(n as nat + 1, n as nat);
    while queue.len() > 0
        invariant
            search_ok(d, nresources as nat, resourcecapacity as int, maxlen as int, &pool, stores@),
            resources_fit_spec(n, nresources),
            n == d.n,
            in_q@.len() == n,
            forall|k: int| 0 <= k < queue@.len() ==> #[trigger] queue@[k] < n,
            cap0 == 1 + n * pw(n as nat + 1, n as nat),
            pool.len() + n * potential(n as nat, pool.labels@, pool.ignore@, pool.len() as int) <= cap0,
        decreases potential(n as nat, pool.labels@, pool.ignore@, pool.len() as int), queue@.len(),
    {
        let v = match queue.pop_front() {
            Some(v) => v,
            None => 0,
        };
        in_q.set(v, false);
        let ghost p0 = potential(n as nat, pool.labels@, pool.ignore@, pool.len() as int);
        let ghost q0 = queue@.len();
        let ghost sv = stores@[v as int];
        let mut j: usize = 0;
        while j < stores[v].len()
            invariant
                search_ok(d, nresources as nat, resourcecapacity as int, maxlen as int, &pool, stores@),
                resources_fit_spec(n, nresources),
                n == d.n,
                v < n,
                in_q@.len() == n,
                forall|k: int| 0 <= k < queue@.len() ==> #[trigger] queue@[k] < n,
                stores@[v as int] == sv,
                j <= sv@.len(),
                cap0 == 1 + n * pw(n as nat + 1, n as nat),
                pool.len() + n * potential(n as nat, pool.labels@, pool.ignore@, pool.len() as int) <= cap0,
                potential(n as nat, pool.labels@, pool.ignore@, pool.len() as int) <= p0,
                potential(n as nat, pool.labels@, pool.ignore@, pool.len() as int) < p0 || queue@.len() == q0,
            decreases sv@.len() - j,
        {
            let li = stores[v][j];
            // dead labels are skipped; so are completed routes, which end at
            // the depot and have nowhere left to go
            if !pool.ignore[li] && (pool.labels[li].at != 0 || li == 0) {
                let ghost len_o = pool.len();
                let ghost pot_o = potential(n as nat, pool.labels@, pool.ignore@, pool.len() as int);
                if !expand(d, nresources, resourcecapacity, maxlen, &mut pool, &mut stores, &mut queue, &mut in_q, li) {
                    proof {
                        assert(n * pot_o >= n) by (nonlinear_arith)
                            requires
                                pot_o >= 1,
                        ;
                    }
                    return Err(SolveError::TooManyLabels);
                }
                proof {
                    let pot_f = potential(n as nat, pool.labels@, pool.ignore@, pool.len() as int);
                    assert(n * pot_f + n <= n * pot_o) by (nonlinear_arith)
                        requires
                            pot_f + 1 <= pot_o,
                    ;
                }
            }
            j += 1;
        }
    }
    let best = best_cost(&pool, &stores[0]);
    proof {
        let k = choose|k: int| 0 <= k < stores@[0]@.len() && stores@[0]@[k] == 0;
        assert(pool.labels@[stores@[0]@[k] as int].cost == 0);
        let b = choose|b: int| 0 <= b < stores@[0]@.len() && best == #[trigger] pool.labels@[stores@[0]@[b] as int].cost;
        let m = stores@[0]@[b] as int;
        if m != 0 {
            assert(pool.labels@[m].at == 0);
            assert(path_ok(d, pool.labels@, m));
            let rt = path(pool.labels@, m);
            assert(is_route(d, rt));
            assert(limits_ok(d, resourcecapacity as int, maxlen as int, pool.labels@, m));
            assert forall|r: int| 0 <= r < nresources implies #[trigger] uses(rt, r) <= resourcecapacity by {
                assert(pool.labels@[m].q@[r] == uses(rt, r));
            }
            assert(feasible_route(d, rt, nresources as nat, resourcecapacity as int, maxlen as int));
        }
    }
    Ok(best)
}

} // verus!
