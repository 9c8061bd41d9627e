use crate::graph::Node;
use vstd::prelude::*;

verus! {

/// A base trait for all graph generators
pub trait GraphGenerator {
    /// What the generator can be run on.
    spec fn can_generate(&self) -> bool;

    /// What holds of the edges that the generator hands out.
    spec fn generated(&self, edges: Seq<(Node, Node)>) -> bool;

    /// Generates the edges of a graph. Generators that do not draw at random leave the RNG
    /// alone.
    fn generate(&mut self, rng: &mut rand_pcg::Lcg128Xsl64) -> (edges: Vec<(Node, Node)>)
        requires
            old(self).can_generate(),
        ensures
            old(self).generated(edges@),
    ;
}

/// Generator for complete graphs with/without self-loops
pub struct Complete {
    /// Number of nodes
    n: usize,
    /// Are self-loops allowed?
    loops: bool,
}

/// The edge from `u` to `v`.
pub open spec fn pair(u: int, v: int) -> (Node, Node) {
    (u as usize, v as usize)
}

/// The position of the pair `(u, v)` in row-major order.
pub open spec fn rank_of(e: (Node, Node), n: int) -> int {
    e.0 * n + e.1
}

/// The edges of the complete graph on `n` nodes, with or without self-loops, in row-major
/// order: every pair of nodes, each once, in ascending order of `u * n + v`.
pub open spec fn is_complete(edges: Seq<(Node, Node)>, n: int, loops: bool) -> bool {
    &&& forall|i: int|
        0 <= i < edges.len() ==> {
            &&& (#[trigger] edges[i]).0 < n
            &&& edges[i].1 < n
            &&& edges[i].0 != edges[i].1 || loops
        }
    &&& forall|i: int, j: int|
        0 <= i < j < edges.len() ==> rank_of(#[trigger] edges[i], n) < rank_of(#[trigger] edges[j], n)
    &&& forall|u: int, v: int|
        0 <= u < n && 0 <= v < n && (u != v || loops) ==> edges.contains(
            #[trigger] pair(u, v),
        )
}

impl Complete {
    /// The number of nodes.
    pub closed spec fn n_spec(&self) -> int {
        self.n as int
    }

    /// Whether self-loops are generated.
    pub closed spec fn loops_spec(&self) -> bool {
        self.loops
    }

    /// Creates the generator with given parameters
    pub fn new(n: usize, loops: bool) -> (r: Self)
        ensures
            r.n_spec() == n,
            r.loops_spec() == loops,
    {
        Self { n, loops }
    }
}

impl GraphGenerator for Complete {
    /// The square of the number of nodes must fit a machine word.
    open spec fn can_generate(&self) -> bool {
        self.n_spec() * self.n_spec() <= usize::MAX
    }

    open spec fn generated(&self, edges: Seq<(Node, Node)>) -> bool {
        is_complete(edges, self.n_spec(), self.loops_spec())
    }

    fn generate(&mut self, rng: &mut rand_pcg::Lcg128Xsl64) -> (edges: Vec<(Node, Node)>) {
        let n = self.n;
        let loops = self.loops;
        let mut edges: Vec<(Node, Node)> = Vec::new();
        let end = n * n;
        let mut x: usize = 0;
        while x < end
            invariant
                x <= end,
                end == n * n,
                n == self.n,
                loops == self.loops,
                *self == *old(self),
                forall|i: int|
                    0 <= i < edges@.len() ==> {
                        &&& (#[trigger] edges@[i]).0 < n
                        &&& edges@[i].1 < n
                        &&& edges@[i].0 != edges@[i].1 || loops
                        &&& rank_of(edges@[i], n as int) < x
                    },
                forall|i: int, j: int|
                    0 <= i < j < edges@.len() ==> rank_of(#[trigger] edges@[i], n as int) < rank_of(
                        #[trigger] edges@[j],
                        n as int,
                    ),
                forall|u: int, v: int|
                    0 <= u < n && 0 <= v < n && (u != v || loops) && u * n + v < x ==> edges@.contains(
                        #[trigger] pair(u, v),
                    ),
            decreases end - x,
        {
            assert(n > 0) by (nonlinear_arith)
                requires
                    x < n * n,
                    x >= 0,
                    n >= 0,
            ;
            let u = x / n;
            let v = x % n;
            proof {
                assert(x == u * n + v && v < n) by (nonlinear_arith)
                    requires
                        u == x / n,
                        v == x % n,
                        n > 0,
                ;
                assert(u < n) by (nonlinear_arith)
                    requires
                        u * n + v < n * n,
                        v >= 0,
                        n > 0,
                ;
            }
            let ghost before = edges@;
            if u != v || loops {
                edges.push((u, v));
            }
            proof {
                assert forall|a: int, b: int|
                    0 <= a < n && 0 <= b < n && (a != b || loops) && a * n + b < x + 1 implies edges@.contains(
                    #[trigger] pair(a, b),
                ) by {
                    if a * n + b < x {
                        let e = pair(a, b);
                        assert(before.contains(e));
                        let i = choose|i: int| 0 <= i < before.len() && before[i] == e;
                        assert(edges@[i] == e);
                    } else {
                        assert(a == u && b == v) by (nonlinear_arith)
                            requires
                                a * n + b == u * n + v,
                                0 <= b < n,
                                0 <= v < n,
                        ;
                        assert(edges@[edges@.len() - 1] == (u, v));
                    }
                }
            }
            x += 1;
        }
        proof {
            assert forall|u: int, v: int|
                0 <= u < n && 0 <= v < n && (u != v || loops) implies edges@.contains(#[trigger] pair(u, v)) by {
                assert(u * n + v < n * n) by (nonlinear_arith)
                    requires
                        0 <= u < n,
                        0 <= v < n,
                ;
            }
        }
        edges
    }
}

/// A generator for a simple cycle
pub struct Cycle {
    /// Number of nodes
    n: usize,
}

impl Cycle {
    /// The number of nodes.
    pub closed spec fn n_spec(&self) -> int {
        self.n as int
    }

    /// Creates the generator with given parameters
    pub fn new(n: usize) -> (r: Self)
        ensures
            r.n_spec() == n,
    {
        Self { n }
    }
}

impl GraphGenerator for Cycle {
    open spec fn can_generate(&self) -> bool {
        true
    }

    /// One edge from every node to the next, and from the last node to the first.
    open spec fn generated(&self, edges: Seq<(Node, Node)>) -> bool {
        &&& edges.len() == self.n_spec()
        &&& forall|u: int|
            0 <= u < edges.len() ==> #[trigger] edges[u] == (u as usize, ((u + 1) % self.n_spec()) as usize)
    }

    fn generate(&mut self, rng: &mut rand_pcg::Lcg128Xsl64) -> (edges: Vec<(Node, Node)>) {
        let n = self.n;
        let mut edges: Vec<(Node, Node)> = Vec::new();
        let mut u: usize = 0;
        while u < n
            invariant
                u <= n,
                n == self.n,
                *self == *old(self),
                edges@.len() == u,
                forall|k: int|
                    0 <= k < u ==> #[trigger] edges@[k] == (k as usize, ((k + 1) % (n as int)) as usize),
            decreases n - u,
        {
            let next = if u + 1 == n {
                0
            } else {
                u + 1
            };
            proof {
                if u + 1 == n {
                    assert((u + 1) % (n as int) == 0) by (nonlinear_arith)
                        requires
                            u + 1 == n,
                            n > 0,
                    ;
                } else {
                    assert((u + 1) % (n as int) == u + 1) by (nonlinear_arith)
                        requires
                            0 <= u + 1 < n,
                    ;
                }
            }
            edges.push((u, next));
            u += 1;
        }
        edges
    }
}

/// Indicates which edges to include
#[derive(Debug, Copy, Clone, PartialEq, Eq, Structural)]
pub enum EdgeResult {
    Forward,
    Backward,
    Both,
}

/// The sum of the first `k` band sizes.
pub open spec fn band_sum(band_sizes: Seq<usize>, k: int) -> int
    decreases k,
{
    if k <= 0 {
        0
    } else {
        band_sum(band_sizes, k - 1) + band_sizes[k - 1]
    }
}

/// The bounds of the bands in the list of all points: band `i` holds the points from
/// `bounds[i]` up to, not including, `bounds[i + 1]`. The bounds are the prefix sums of the
/// band sizes, starting with `0`.
pub fn get_band_bounds(band_sizes: &[usize]) -> (band_bounds: Vec<usize>)
    requires
        band_sum(band_sizes@, band_sizes@.len() as int) <= usize::MAX,
    ensures
        band_bounds@.len() == band_sizes@.len() + 1,
        forall|i: int| 0 <= i <= band_sizes@.len() ==> #[trigger] band_bounds@[i] == band_sum(band_sizes@, i),
{
    let mut band_bounds: Vec<usize> = Vec::new();
    band_bounds.push(0);
    let mut sum: usize = 0;
    let mut i: usize = 0;
    while i < band_sizes.len()
        invariant
            i <= band_sizes@.len(),
            band_sum(band_sizes@, band_sizes@.len() as int) <= usize::MAX,
            sum == band_sum(band_sizes@, i as int),
            band_bounds@.len() == i + 1,
            forall|k: int| 0 <= k <= i ==> #[trigger] band_bounds@[k] == band_sum(band_sizes@, k),
        decreases band_sizes@.len() - i,
    {
        proof {
            lemma_band_sum_monotone(band_sizes@, i as int + 1, band_sizes@.len() as int);
        }
        sum = sum + band_sizes[i];
        band_bounds.push(sum);
        i += 1;
    }
    band_bounds
}

/// Prefix sums of sizes never decrease.
pub proof fn lemma_band_sum_monotone(band_sizes: Seq<usize>, a: int, b: int)
    requires
        0 <= a <= b <= band_sizes.len(),
    ensures
        0 <= band_sum(band_sizes, a) <= band_sum(band_sizes, b),
    decreases b,
{
    if a < b {
        lemma_band_sum_monotone(band_sizes, a, b - 1);
    } else if b > 0 {
        lemma_band_sum_monotone(band_sizes, a - 1, b - 1);
    }
}

} // verus!
