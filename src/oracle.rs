use vstd::prelude::*;

verus! {

/// Vertex counts at or above this are refused: a dense matrix of that many
/// rows could not be held in memory, and the bound keeps every accumulated
/// cost and length of an elementary path inside `i64`.
pub const MAX_VERTICES: usize = 0x4000_0000;

/// Pairwise travel distances `d(i, j)` and reduced costs `aux(i, j)` over
/// the vertices `0 .. n`, vertex 0 being the depot.
pub struct Oracle {
    pub n: usize,
    pub dist: Vec<Vec<i32>>,
    pub cost: Vec<Vec<i32>>,
}

/// Whether `m` is an `n` by `n` matrix.
pub open spec fn is_square(m: Seq<Vec<i32>>, n: int) -> bool {
    &&& m.len() == n
    &&& forall|i: int| 0 <= i < n ==> (#[trigger] m[i])@.len() == n
}

impl Oracle {
    pub open spec fn wf(&self) -> bool {
        &&& self.n < MAX_VERTICES
        &&& is_square(self.dist@, self.n as int)
        &&& is_square(self.cost@, self.n as int)
    }

    /// Travel distance from `i` to `j`.
    pub open spec fn d_spec(&self, i: int, j: int) -> int {
        self.dist@[i]@[j] as int
    }

    /// Reduced cost of the arc from `i` to `j`.
    pub open spec fn aux_spec(&self, i: int, j: int) -> int {
        self.cost@[i]@[j] as int
    }

    /// Builds an oracle from two square matrices of the same size.
    pub fn new(dist: Vec<Vec<i32>>, cost: Vec<Vec<i32>>) -> (r: Option<Oracle>)
        ensures
            r is Some <==> (dist@.len() < MAX_VERTICES && is_square(dist@, dist@.len() as int)
                && is_square(cost@, dist@.len() as int)),
            r matches Some(o) ==> o.n == dist@.len() && o.dist@ == dist@ && o.cost@ == cost@,
            r matches Some(o) ==> o.wf(),
    {
        let n = dist.len();
        if n >= MAX_VERTICES || cost.len() != n {
            return None;
        }
        let mut i: usize = 0;
        while i < n
            invariant
                n == dist@.len(),
                n == cost@.len(),
                i <= n,
                forall|k: int| 0 <= k < i ==> (#[trigger] dist@[k])@.len() == n,
                forall|k: int| 0 <= k < i ==> (#[trigger] cost@[k])@.len() == n,
            decreases n - i,
        {
            if dist[i].len() != n || cost[i].len() != n {
                return None;
            }
            i += 1;
        }
        Some(Oracle { n, dist, cost })
    }

    /// Number of vertices.
    pub fn n(&self) -> (r: usize)
        ensures
            r == self.n,
    {
        self.n
    }

    /// Travel distance from `i` to `j`.
    pub fn d(&self, i: usize, j: usize) -> (r: i32)
        requires
            self.wf(),
            i < self.n,
            j < self.n,
        ensures
            r as int == self.d_spec(i as int, j as int),
    {
        self.dist[i][j]
    }

    /// Reduced cost of the arc from `i` to `j`.
    pub fn aux(&self, i: usize, j: usize) -> (r: i32)
        requires
            self.wf(),
            i < self.n,
            j < self.n,
        ensures
            r as int == self.aux_spec(i as int, j as int),
    {
        self.cost[i][j]
    }
}

} // verus!
