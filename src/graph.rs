use vstd::prelude::*;
use vstd::slice::{slice_subrange, slice_to_vec};

verus! {

/// The mathematical content of a [`WeightedGraph`]: its vertices in index
/// order and its row-major weight matrix.
pub struct GraphModel {
    pub vertices: Seq<char>,
    pub weights: Seq<u64>,
}

impl GraphModel {
    pub open spec fn n(self) -> nat {
        self.vertices.len()
    }

    /// Non-empty, duplicate-free vertex table and an `n × n` matrix.
    pub open spec fn wf(self) -> bool {
        &&& self.vertices.len() > 0
        &&& self.vertices.no_duplicates()
        &&& self.weights.len() == self.n() * self.n()
    }

    pub open spec fn has(self, c: char) -> bool {
        self.vertices.contains(c)
    }

    /// Dense index of vertex `c`.
    pub open spec fn pos(self, c: char) -> int {
        choose|i: int| 0 <= i < self.vertices.len() && self.vertices[i] == c
    }

    /// Offset of the cell for the edge `from -> to`.
    pub open spec fn cell(self, from: char, to: char) -> int {
        self.pos(from) * self.n() + self.pos(to)
    }

    /// Weight in row `p`, column `q`.
    pub open spec fn at(self, p: int, q: int) -> u64 {
        self.weights[p * self.n() + q]
    }

    pub open spec fn weight(self, from: char, to: char) -> u64 {
        self.weights[self.cell(from, to)]
    }

    /// Outgoing weights of the vertex with index `i`, in vertex order.
    pub open spec fn row(self, i: int) -> Seq<u64> {
        self.weights.subrange(i * self.n(), i * self.n() + self.n())
    }
}

/// Cell offsets of a square matrix stay inside it.
pub proof fn lemma_cell_bounds(n: int, i: int, j: int)
    requires
        0 <= i < n,
        0 <= j < n,
    ensures
        0 <= i * n + j < n * n,
        i * n + n <= n * n,
        n * i == i * n,
{
    assert(0 <= i * n + j < n * n) by (nonlinear_arith)
        requires
            0 <= i < n,
            0 <= j < n,
    ;
    assert(i * n + n <= n * n) by (nonlinear_arith)
        requires
            0 <= i < n,
    ;
}

/// Distinct (row, column) pairs have distinct cell offsets.
pub proof fn lemma_cell_unique(n: int, i: int, j: int, p: int, q: int)
    requires
        0 <= i < n,
        0 <= j < n,
        0 <= p < n,
        0 <= q < n,
        i * n + j == p * n + q,
    ensures
        i == p,
        j == q,
{
    assert(i == p) by (nonlinear_arith)
        requires
            0 <= j < n,
            0 <= q < n,
            i * n + j == p * n + q,
    ;
}

/// In a duplicate-free table, the index of a present vertex is the one found.
pub proof fn lemma_pos(g: GraphModel, i: int)
    requires
        g.vertices.no_duplicates(),
        0 <= i < g.vertices.len(),
    ensures
        g.pos(g.vertices[i]) == i,
        g.has(g.vertices[i]),
{
    let c = g.vertices[i];
    assert(0 <= i < g.vertices.len() && g.vertices[i] == c);
    let p = g.pos(c);
    assert(g.vertices[p] == c);
}

/// A directed graph over a fixed vertex set, with one `u64` weight per
/// ordered pair of vertices, stored as a dense row-major matrix.
pub struct WeightedGraph {
    weights: Vec<u64>,
    vertices: Vec<char>,
}

impl View for WeightedGraph {
    type V = GraphModel;

    closed spec fn view(&self) -> GraphModel {
        GraphModel { vertices: self.vertices@, weights: self.weights@ }
    }
}

impl WeightedGraph {
    /// A graph over `v`, in that order, with every weight zero.
    pub fn from_vertices(v: &[char]) -> (r: Self)
        requires
            v@.len() > 0,
            v@.no_duplicates(),
            v@.len() * v@.len() <= usize::MAX,
        ensures
            r@.wf(),
            r@.vertices == v@,
            r@.weights == Seq::new(v@.len() * v@.len(), |k: int| 0u64),
    {
        let n = v.len();
        let weights = vec![0u64; n * n];
        let r = WeightedGraph { weights, vertices: slice_to_vec(v) };
        assert(r@.weights =~= Seq::new(v@.len() * v@.len(), |k: int| 0u64));
        r
    }

    /// Index of vertex `c` in the table.
    fn index_of(&self, c: char) -> (r: usize)
        requires
            self@.wf(),
            self@.has(c),
        ensures
            r < self@.n(),
            r == self@.pos(c),
    {
        let mut i: usize = 0;
        while i < self.vertices.len()
            invariant
                self@.wf(),
                self@.has(c),
                0 <= i <= self.vertices@.len(),
                forall|k: int| 0 <= k < i ==> self.vertices@[k] != c,
            decreases self.vertices@.len() - i,
        {
            if self.vertices[i] == c {
                proof {
                    lemma_pos(self@, i as int);
                }
                return i;
            }
            i += 1;
        }
        assert(false);
        0
    }

    fn calc_abs_idx(&self, from: char, to: char) -> (r: usize)
        requires
            self@.wf(),
            self@.has(from),
            self@.has(to),
        ensures
            r == self@.cell(from, to),
            r < self@.weights.len(),
    {
        let i = self.index_of(from);
        let j = self.index_of(to);
        let n = self.vertices.len();
        let total = self.weights.len();
        proof {
            lemma_cell_bounds(n as int, i as int, j as int);
        }
        n * i + j
    }

    /// Sets the weight of the edge `from -> to` to `w`.
    pub fn set_weight(&mut self, from: &char, to: &char, w: u64)
        requires
            old(self)@.wf(),
            old(self)@.has(*from),
            old(self)@.has(*to),
        ensures
            final(self)@.vertices == old(self)@.vertices,
            final(self)@.weights == old(self)@.weights.update(old(self)@.cell(*from, *to), w),
    {
        let k = self.calc_abs_idx(*from, *to);
        self.weights[k] = w;
    }

    /// Replaces the whole matrix by `new_weights`, read row-major.
    pub fn set_all_weights(&mut self, new_weights: Vec<u64>)
        requires
            old(self)@.wf(),
            new_weights@.len() == old(self)@.n() * old(self)@.n(),
        ensures
            final(self)@.vertices == old(self)@.vertices,
            final(self)@.weights == new_weights@,
    {
        self.weights = new_weights;
    }

    /// The weight of the edge `from -> to`.
    pub fn get_weight(&self, from: &char, to: &char) -> (r: u64)
        requires
            self@.wf(),
            self@.has(*from),
            self@.has(*to),
        ensures
            r == self@.weight(*from, *to),
    {
        let k = self.calc_abs_idx(*from, *to);
        self.weights[k]
    }

    /// The outgoing weights of `c`, in vertex order.
    pub fn get_weights_for(&self, c: char) -> (r: &[u64])
        requires
            self@.wf(),
            self@.has(c),
        ensures
            r@ == self@.row(self@.pos(c)),
            r@.len() == self@.n(),
    {
        let i = self.index_of(c);
        self.row_at(i)
    }

    /// The outgoing weights of the vertex with index `i`.
    pub fn row_at(&self, i: usize) -> (r: &[u64])
        requires
            self@.wf(),
            i < self@.n(),
        ensures
            r@ == self@.row(i as int),
            r@.len() == self@.n(),
    {
        let n = self.vertices.len();
        let total = self.weights.len();
        proof {
            lemma_cell_bounds(n as int, i as int, 0);
        }
        slice_subrange(self.weights.as_slice(), n * i, n * i + n)
    }

    pub fn n_vertices(&self) -> (r: usize)
        ensures
            r == self@.n(),
    {
        self.vertices.len()
    }

    /// The vertices in index order.
    pub fn get_vertices(&self) -> (r: Vec<char>)
        ensures
            r@ == self@.vertices,
    {
        slice_to_vec(self.vertices.as_slice())
    }

    /// The whole matrix, row-major.
    pub fn get_all_weights(&self) -> (r: &Vec<u64>)
        ensures
            r@ == self@.weights,
    {
        &self.weights
    }

    /// Adds one to the weight of the edge `from -> to`.
    pub fn incr(&mut self, from: &char, to: &char)
        requires
            old(self)@.wf(),
            old(self)@.has(*from),
            old(self)@.has(*to),
            old(self)@.weight(*from, *to) < u64::MAX,
        ensures
            final(self)@.vertices == old(self)@.vertices,
            final(self)@.weights == old(self)@.weights.update(
                old(self)@.cell(*from, *to),
                (old(self)@.weight(*from, *to) + 1) as u64,
            ),
    {
        let k = self.calc_abs_idx(*from, *to);
        self.weights[k] = self.weights[k] + 1;
    }
}

} // verus!
