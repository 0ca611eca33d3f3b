use espprc::label::Label;
use espprc::oracle::Oracle;
use espprc::pool::LabelPool;

fn label(at: usize, visited: Vec<bool>, cost: i64, length: i64, q: Vec<usize>, pred: Option<usize>) -> Label {
    Label { at, visited, predecessor: pred, cost, length, q }
}

#[test]
fn dominance_order() {
    let a = label(2, vec![false, true, true], -5, 4, vec![1], Some(0));
    let b = label(2, vec![false, true, true], -3, 4, vec![1], Some(0));
    let c = label(2, vec![false, false, true], -6, 5, vec![1], Some(0));
    assert!(a.dominates(&a));
    assert!(a.dominates(&b));
    assert!(!b.dominates(&a));
    // incomparable: c is cheaper and visits less but is longer
    assert!(!a.dominates(&c));
    assert!(!c.dominates(&a));
    let e = label(1, vec![false, true, true], -5, 4, vec![1], None);
    assert!(a.dominates(&e) && e.dominates(&a));
    let f = label(2, vec![false, true, true], -5, 4, vec![2], Some(0));
    assert!(a.dominates(&f));
    assert!(!f.dominates(&a));
}

#[test]
fn extend_adds_arc_and_resources() {
    let dist = vec![vec![0, 2, 7, 1], vec![2, 0, 3, 1], vec![7, 3, 0, 1], vec![1, 1, 1, 0]];
    let cost = vec![vec![0, -1, -9, 0], vec![4, 0, -2, 0], vec![0, 0, 0, 0], vec![0, 0, 0, 0]];
    let d = Oracle::new(dist, cost).unwrap();
    let l0 = Label::empty(4, 2);
    assert_eq!(l0.visited, vec![false; 4]);
    assert_eq!(l0.q, vec![0, 0]);
    let l1 = Label::extend(&d, &l0, 0, 1);
    assert_eq!(l1.at, 1);
    assert_eq!(l1.visited, vec![false, true, false, false]);
    assert_eq!(l1.q, vec![1, 0]);
    assert_eq!(l1.cost, -1);
    assert_eq!(l1.length, 2);
    assert_eq!(l1.predecessor, Some(0));
    let l2 = Label::extend(&d, &l1, 5, 3);
    assert_eq!(l2.visited, vec![false, true, false, true]);
    assert_eq!(l2.q, vec![2, 1]);
    assert_eq!(l2.cost, -1);
    assert_eq!(l2.length, 3);
    assert_eq!(l2.predecessor, Some(5));
}

/// Two paths reach vertex 2 with the same visited set and resources; the
/// cheaper one arrives later and evicts the other, whose extension dies.
#[test]
fn cheaper_label_with_same_state_evicts_dearer() {
    let n = 4;
    let dist = vec![vec![1; n]; n];
    let mut cost = vec![vec![0; n]; n];
    cost[0][1] = -1;
    cost[3][2] = -1;
    cost[3][1] = -6;
    cost[1][2] = -1;
    let d = Oracle::new(dist, cost).unwrap();
    let mut pool = LabelPool::new(Label::empty(n, 0));
    let mut stores: Vec<Vec<usize>> = vec![vec![0], vec![], vec![], vec![]];
    let mut offer = |pool: &mut LabelPool, parent: usize, v: usize| -> (usize, bool) {
        let l = Label::extend(&d, &pool.labels[parent], parent, v);
        let i = pool.add(l);
        let ok = pool.updatedominance(&mut stores[v], i);
        if ok {
            pool.addsuccessor(parent, i);
        }
        (i, ok)
    };
    let (via1, ok1) = offer(&mut pool, 0, 1);
    let (via13, ok13) = offer(&mut pool, via1, 3);
    // 0 -> 1 -> 3 -> 2, cost -2
    let (high, okh) = offer(&mut pool, via13, 2);
    // closing it: 0 -> 1 -> 3 -> 2 -> 0
    let (closed, okc) = offer(&mut pool, high, 0);
    let (via3, ok3) = offer(&mut pool, 0, 3);
    let (via31, ok31) = offer(&mut pool, via3, 1);
    assert!(ok1 && ok13 && okh && okc && ok3 && ok31);
    assert_eq!(pool.labels[high].cost, -2);
    // 0 -> 3 -> 1 -> 2, cost -7, same visited set and length
    let (low, okl) = offer(&mut pool, via31, 2);
    assert!(okl);
    assert_eq!(pool.labels[low].cost, -7);
    assert_eq!(pool.labels[low].visited, pool.labels[high].visited);
    drop(offer);
    assert_eq!(stores[2], vec![low]);
    assert!(pool.ignore[closed]);
    assert!(pool.ignore[high]);
    assert!(!pool.ignore[low]);
    // closing a route leaves the depot unvisited
    assert_eq!(pool.labels[closed].visited, pool.labels[high].visited);
    assert!(!pool.labels[closed].visited[0]);
    assert!(!pool.ignore[via13]);
    let mut depot = stores[0].clone();
    depot.sort();
    assert_eq!(depot, vec![0, closed]);
}

#[test]
fn refused_label_changes_nothing() {
    let mut pool = LabelPool::new(Label::empty(3, 1));
    let mut store: Vec<usize> = Vec::new();
    let a = pool.add(label(2, vec![false, true, true], -5, 2, vec![1], Some(0)));
    assert!(pool.updatedominance(&mut store, a));
    pool.addsuccessor(0, a);
    let b = pool.add(label(2, vec![false, true, true], -5, 2, vec![1], Some(0)));
    assert!(!pool.updatedominance(&mut store, b));
    assert_eq!(store, vec![a]);
    pool.discard_last();
    assert_eq!(pool.labels.len(), 2);
    assert_eq!(pool.ignore, vec![false, false]);
}

#[test]
fn cascade_reaches_every_descendant() {
    let mut pool = LabelPool::new(Label::empty(5, 0));
    let v = |at: usize| {
        let mut s = vec![false; 5];
        s[at] = true;
        s
    };
    let a = pool.add(label(1, v(1), 0, 0, vec![], Some(0)));
    pool.addsuccessor(0, a);
    let b = pool.add(label(2, v(2), 0, 0, vec![], Some(a)));
    pool.addsuccessor(a, b);
    let c = pool.add(label(3, v(3), 0, 0, vec![], Some(b)));
    pool.addsuccessor(b, c);
    let e = pool.add(label(4, v(4), 0, 0, vec![], Some(a)));
    pool.addsuccessor(a, e);
    let other = pool.add(label(4, v(4), 0, 0, vec![], Some(0)));
    pool.addsuccessor(0, other);
    pool.marksuccessors(a);
    assert!(!pool.ignore[a]);
    assert!(pool.ignore[b]);
    assert!(pool.ignore[c]);
    assert!(pool.ignore[e]);
    assert!(!pool.ignore[other]);
    assert!(!pool.ignore[0]);
    assert_eq!(pool.successors[a], vec![b, e]);
}

#[test]
fn store_stays_an_antichain() {
    let mut pool = LabelPool::new(Label::empty(4, 1));
    let mut store: Vec<usize> = Vec::new();
    let offers = vec![
        (vec![false, true, true, false], -3, 5, 1),
        (vec![false, false, true, false], -1, 3, 0),
        (vec![false, true, true, true], -4, 4, 1),
        (vec![false, false, true, false], -2, 3, 0),
        (vec![false, true, true, false], -3, 5, 1),
        (vec![false, false, true, true], -6, 6, 1),
        (vec![false, false, true, false], -6, 2, 0),
    ];
    let mut taken = Vec::new();
    for (visited, cost, length, q) in offers {
        let i = pool.add(label(2, visited, cost, length, vec![q], Some(0)));
        let ok = pool.updatedominance(&mut store, i);
        taken.push(ok);
        if ok {
            pool.addsuccessor(0, i);
        } else {
            pool.discard_last();
        }
        for &a in &store {
            for &b in &store {
                if a != b {
                    assert!(!pool.labels[a].dominates(&pool.labels[b]));
                }
            }
        }
    }
    assert_eq!(taken, vec![true, true, true, true, false, true, true]);
    // the last offer dominates every other label that was stored
    assert_eq!(store.len(), 1);
    assert_eq!(pool.labels[store[0]].cost, -6);
    assert_eq!(pool.labels[store[0]].length, 2);
}
