use vstd::prelude::*;

verus! {

/// Coordinates are limited to +/- 2^30 so that a squared distance fits in
/// a `u64` and every edge weight fits in 32 bits.
pub const COORD_LIMIT: i64 = 0x4000_0000;

/// The largest weight a graph may carry; a full tour of at most 2^32 - 1
/// such edges then sums without overflowing a `u64`.
pub const WEIGHT_LIMIT: u64 = 0xFFFF_FFFF;

/// The largest vertex count a graph may have.
pub const VERTEX_LIMIT: usize = 0xFFFF_FFFF;

pub open spec fn coord_ok(p: (i64, i64)) -> bool {
    -COORD_LIMIT <= p.0 <= COORD_LIMIT && -COORD_LIMIT <= p.1 <= COORD_LIMIT
}

/// The squared Euclidean distance between two grid points.
pub open spec fn sq_dist(p1: (i64, i64), p2: (i64, i64)) -> int {
    (p1.0 - p2.0) * (p1.0 - p2.0) + (p1.1 - p2.1) * (p1.1 - p2.1)
}

/// The integer square root: the largest `r` with `r * r <= n`.
pub open spec fn sqrt_floor(n: int) -> int {
    choose|r: int| 0 <= r && #[trigger] (r * r) <= n && n < (r + 1) * (r + 1)
}

/// The bracket property pins the integer square root down uniquely.
pub proof fn lemma_sqrt_floor_unique(n: int, r: int)
    requires
        0 <= r,
        r * r <= n,
        n < (r + 1) * (r + 1),
    ensures
        sqrt_floor(n) == r,
{
    assert(exists|q: int| 0 <= q && #[trigger] (q * q) <= n && n < (q + 1) * (q + 1)) by {
        assert(0 <= r && r * r <= n && n < (r + 1) * (r + 1));
    }
    let q = sqrt_floor(n);
    assert(0 <= q && q * q <= n && n < (q + 1) * (q + 1));
    if q < r {
        assert(n < (q + 1) * (q + 1));
        assert((q + 1) * (q + 1) <= r * r) by (nonlinear_arith)
            requires
                0 <= q,
                q + 1 <= r,
        ;
    }
    if r < q {
        assert((r + 1) * (r + 1) <= q * q) by (nonlinear_arith)
            requires
                0 <= r,
                r + 1 <= q,
        ;
    }
}

/// The Euclidean distance between two grid points, rounded down to an
/// integer.
pub open spec fn euclid(p1: (i64, i64), p2: (i64, i64)) -> int {
    sqrt_floor(sq_dist(p1, p2))
}

/// Distance does not depend on the order of its arguments, and the
/// distance from a point to itself is zero.
pub proof fn lemma_distance_symmetry(p: (i64, i64), q: (i64, i64))
    ensures
        euclid(p, q) == euclid(q, p),
        euclid(p, p) == 0,
{
    assert(sq_dist(p, q) == sq_dist(q, p)) by (nonlinear_arith);
    assert(sq_dist(p, p) == 0);
    lemma_sqrt_floor_unique(0, 0);
}

/// The integer square root of `n`, by binary search.
pub fn isqrt(n: u64) -> (r: u64)
    ensures
        r as int == sqrt_floor(n as int),
        (r as int) * (r as int) <= n as int,
        (n as int) < (r as int + 1) * (r as int + 1),
{
    let mut lo: u64 = 0;
    let mut hi: u64 = 0x1_0000_0000;
    proof {
        assert((hi as int) * (hi as int) > n as int);
    }
    while hi - lo > 1
        invariant
            lo < hi <= 0x1_0000_0000,
            (lo as int) * (lo as int) <= n as int,
            (n as int) < (hi as int) * (hi as int),
        decreases hi - lo,
    {
        let mid = lo + (hi - lo) / 2;
        proof {
            assert((mid as int) * (mid as int) <= 0x1_0000_0000_0000_0000) by (nonlinear_arith)
                requires
                    0 <= mid as int <= 0x1_0000_0000,
            ;
        }
        if (mid as u128) * (mid as u128) <= n as u128 {
            lo = mid;
        } else {
            hi = mid;
        }
    }
    proof {
        lemma_sqrt_floor_unique(n as int, lo as int);
    }
    lo
}

/// Computes the distance between two points of the integer grid, rounded
/// down to a whole number.
pub fn distance(p1: (i64, i64), p2: (i64, i64)) -> (r: u64)
    requires
        coord_ok(p1),
        coord_ok(p2),
    ensures
        r as int == euclid(p1, p2),
        r <= WEIGHT_LIMIT,
{
    let dx = p1.0 - p2.0;
    let dy = p1.1 - p2.1;
    proof {
        assert(0 <= dx * dx <= 0x4000_0000_0000_0000) by (nonlinear_arith)
            requires
                -0x8000_0000 <= dx as int <= 0x8000_0000,
        ;
        assert(0 <= dy * dy <= 0x4000_0000_0000_0000) by (nonlinear_arith)
            requires
                -0x8000_0000 <= dy as int <= 0x8000_0000,
        ;
    }
    let sq = (dx * dx) as u64 + (dy * dy) as u64;
    let r = isqrt(sq);
    proof {
        if r as int > WEIGHT_LIMIT {
            assert((r as int) * (r as int) > 0x8000_0000_0000_0000) by (nonlinear_arith)
                requires
                    r as int > 0xFFFF_FFFF,
            ;
        }
    }
    r
}

proof fn lemma_flat_distinct(n: int, a: int, b: int, c: int, d: int)
    requires
        0 <= a < n,
        0 <= b < n,
        0 <= c < n,
        0 <= d < n,
        a != c || b != d,
    ensures
        a * n + b != c * n + d,
{
    assert(a * n + b != c * n + d) by (nonlinear_arith)
        requires
            0 <= a < n,
            0 <= b < n,
            0 <= c < n,
            0 <= d < n,
            a != c || b != d,
    ;
}

/// A complete weighted graph over the cities: a dense matrix of pairwise
/// edge weights, stored flat in row-major order.
pub struct WeightedGraph {
    matrix: Vec<u64>,
    num_vertices: usize,
}

impl WeightedGraph {
    /// Number of vertices.
    pub closed spec fn vertices(self) -> nat {
        self.num_vertices as nat
    }

    /// The weight of the edge between vertices `i` and `j`.
    pub closed spec fn weight(self, i: int, j: int) -> u64 {
        if 0 <= i < self.num_vertices && 0 <= j < self.num_vertices {
            self.matrix@[i * self.num_vertices + j]
        } else {
            0
        }
    }

    pub closed spec fn well_sized(self) -> bool {
        self.matrix@.len() == self.num_vertices * self.num_vertices
    }

    /// The matrix has one entry per vertex pair, and the counts and weights
    /// are small enough that a tour length always fits in a `u64`.
    pub open spec fn wf(self) -> bool {
        &&& self.well_sized()
        &&& self.vertices() <= VERTEX_LIMIT
        &&& forall|i: int, j: int| #[trigger] self.weight(i, j) <= WEIGHT_LIMIT
    }

    fn flat_index(num_vertices: usize, i: usize, j: usize) -> (r: usize)
        requires
            i < num_vertices,
            j < num_vertices,
            num_vertices * num_vertices <= usize::MAX,
        ensures
            r == i * num_vertices + j,
            r < num_vertices * num_vertices,
    {
        proof {
            assert(i * num_vertices + j < num_vertices * num_vertices) by (nonlinear_arith)
                requires
                    i < num_vertices,
                    j < num_vertices,
            ;
        }
        i * num_vertices + j
    }

    /// Builds the complete graph of the given points: every pair of
    /// vertices is joined by an edge weighted with their distance.
    pub fn from_points(point_vec: Vec<(i64, i64)>) -> (g: WeightedGraph)
        requires
            point_vec@.len() <= VERTEX_LIMIT,
            point_vec@.len() * point_vec@.len() <= usize::MAX,
            forall|k: int| 0 <= k < point_vec@.len() ==> coord_ok(#[trigger] point_vec@[k]),
        ensures
            g.wf(),
            g.vertices() == point_vec@.len(),
            forall|i: int, j: int|
                0 <= i < point_vec@.len() && 0 <= j < point_vec@.len() ==> (
                #[trigger] g.weight(i, j)) as int == euclid(point_vec@[i], point_vec@[j]),
            forall|i: int, j: int| #[trigger] g.weight(i, j) == g.weight(j, i),
            forall|i: int| #[trigger] g.weight(i, i) == 0,
    {
        let num_vertices = point_vec.len();
        let ghost n = num_vertices as int;
        let mut matrix: Vec<u64> = Vec::new();
        let mut k: usize = 0;
        proof {
            assert(n * n <= usize::MAX);
        }
        while k < num_vertices * num_vertices
            invariant
                n == num_vertices as int,
                n * n <= usize::MAX,
                k <= n * n,
                matrix@.len() == k as int,
                forall|m: int| 0 <= m < k ==> matrix@[m] == 0u64,
            decreases n * n - k,
        {
            matrix.push(0);
            k += 1;
        }
        proof {
            assert forall|a: int, b: int| 0 <= a < n && 0 <= b < n implies (#[trigger] matrix@[a
                * n + b]) == 0u64 by {
                assert(0 <= a * n + b < n * n) by (nonlinear_arith)
                    requires
                        0 <= a < n,
                        0 <= b < n,
                ;
            }
        }
        let mut i: usize = 0;
        while i < num_vertices
            invariant
                n == num_vertices as int,
                n * n <= usize::MAX,
                n <= VERTEX_LIMIT,
                point_vec@.len() == n,
                forall|m: int| 0 <= m < n ==> coord_ok(#[trigger] point_vec@[m]),
                i <= n,
                matrix@.len() == n * n,
                forall|m: int| 0 <= m < matrix@.len() ==> #[trigger] matrix@[m] <= WEIGHT_LIMIT,
                forall|a: int, b: int|
                    0 <= a < n && 0 <= b < n && a != b && (a < i || b < i) ==> (
                    #[trigger] matrix@[a * n + b]) as int == euclid(point_vec@[a], point_vec@[b]),
                forall|a: int, b: int|
                    0 <= a < n && 0 <= b < n && (a == b || (i <= a && i <= b)) ==> (
                    #[trigger] matrix@[a * n + b]) == 0u64,
            decreases n - i,
        {
            let mut j: usize = i + 1;
            while j < num_vertices
                invariant
                    n == num_vertices as int,
                    n * n <= usize::MAX,
                    n <= VERTEX_LIMIT,
                    point_vec@.len() == n,
                    forall|m: int| 0 <= m < n ==> coord_ok(#[trigger] point_vec@[m]),
                    i < n,
                    i + 1 <= j <= n,
                    matrix@.len() == n * n,
                    forall|m: int|
                        0 <= m < matrix@.len() ==> #[trigger] matrix@[m] <= WEIGHT_LIMIT,
                    forall|a: int, b: int|
                        0 <= a < n && 0 <= b < n && a != b && (a < i || b < i || (a == i && b < j)
                            || (b == i && a < j)) ==> (#[trigger] matrix@[a * n + b]) as int
                            == euclid(point_vec@[a], point_vec@[b]),
                    forall|a: int, b: int|
                        0 <= a < n && 0 <= b < n && (a == b || (i <= a && i <= b && !(a == i && b
                            < j) && !(b == i && a < j))) ==> (#[trigger] matrix@[a * n + b])
                            == 0u64,
                decreases n - j,
            {
                let d = distance(point_vec[i], point_vec[j]);
                let ghost pre = matrix@;
                let idx1 = Self::flat_index(num_vertices, i, j);
                matrix.set(idx1, d);
                let idx2 = Self::flat_index(num_vertices, j, i);
                matrix.set(idx2, d);
                proof {
                    lemma_distance_symmetry(point_vec@[i as int], point_vec@[j as int]);
                    assert forall|a: int, b: int| 0 <= a < n && 0 <= b < n implies {
                        &&& (a != b && (a < i || b < i || (a == i && b < j + 1) || (b == i && a
                            < j + 1)) ==> (#[trigger] matrix@[a * n + b]) as int == euclid(
                            point_vec@[a],
                            point_vec@[b],
                        ))
                        &&& ((a == b || (i <= a && i <= b && !(a == i && b < j + 1) && !(b == i
                            && a < j + 1))) ==> matrix@[a * n + b] == 0u64)
                    } by {
                        assert(0 <= a * n + b < n * n) by (nonlinear_arith)
                            requires
                                0 <= a < n,
                                0 <= b < n,
                        ;
                        if a == i && b == j {
                            lemma_flat_distinct(n, a, b, j as int, i as int);
                        } else if a == j && b == i {
                        } else {
                            lemma_flat_distinct(n, a, b, i as int, j as int);
                            lemma_flat_distinct(n, a, b, j as int, i as int);
                            assert(matrix@[a * n + b] == pre[a * n + b]);
                        }
                    }
                }
                j += 1;
            }
            i += 1;
        }
        let g = WeightedGraph { matrix, num_vertices };
        proof {
            assert forall|i0: int, j0: int| #[trigger] g.weight(i0, j0) <= WEIGHT_LIMIT by {
                if 0 <= i0 < n && 0 <= j0 < n {
                    assert(0 <= i0 * n + j0 < n * n) by (nonlinear_arith)
                        requires
                            0 <= i0 < n,
                            0 <= j0 < n,
                    ;
                }
            }
            assert forall|i0: int, j0: int|
                0 <= i0 < n && 0 <= j0 < n implies (#[trigger] g.weight(i0, j0)) as int == euclid(
                point_vec@[i0],
                point_vec@[j0],
            ) by {
                assert(0 <= i0 * n + j0 < n * n) by (nonlinear_arith)
                    requires
                        0 <= i0 < n,
                        0 <= j0 < n,
                ;
                if i0 == j0 {
                    lemma_distance_symmetry(point_vec@[i0], point_vec@[j0]);
                }
            }
            assert forall|i0: int, j0: int| #[trigger] g.weight(i0, j0) == g.weight(j0, i0) by {
                if 0 <= i0 < n && 0 <= j0 < n {
                    lemma_distance_symmetry(point_vec@[i0], point_vec@[j0]);
                    assert(g.weight(i0, j0) as int == euclid(point_vec@[i0], point_vec@[j0]));
                    assert(g.weight(j0, i0) as int == euclid(point_vec@[j0], point_vec@[i0]));
                }
            }
            assert forall|i0: int| #[trigger] g.weight(i0, i0) == 0 by {
                if 0 <= i0 < n {
                    lemma_distance_symmetry(point_vec@[i0], point_vec@[i0]);
                    assert(g.weight(i0, i0) as int == euclid(point_vec@[i0], point_vec@[i0]));
                }
            }
        }
        g
    }

    /// Builds a graph directly from a flat weight matrix; `None` when the
    /// matrix does not have one entry per vertex pair or a weight is too
    /// large.
    pub fn from_weights(num_vertices: usize, matrix: Vec<u64>) -> (g: Option<WeightedGraph>)
        ensures
            match g {
                Some(graph) => {
                    &&& graph.wf()
                    &&& graph.vertices() == num_vertices
                    &&& num_vertices <= VERTEX_LIMIT
                    &&& matrix@.len() == num_vertices * num_vertices
                    &&& forall|i: int, j: int|
                        0 <= i < num_vertices && 0 <= j < num_vertices ==> #[trigger] graph.weight(
                            i,
                            j,
                        ) == matrix@[i * num_vertices + j]
                },
                None => num_vertices > VERTEX_LIMIT || matrix@.len() != num_vertices * num_vertices
                    || exists|k: int|
                    0 <= k < matrix@.len() && #[trigger] matrix@[k] > WEIGHT_LIMIT,
            },
    {
        if num_vertices > VERTEX_LIMIT {
            return None;
        }
        proof {
            assert((num_vertices as int) * (num_vertices as int) <= 0xFFFF_FFFF_0000_0000)
                by (nonlinear_arith)
                requires
                    num_vertices as int <= 0xFFFF_FFFF,
            ;
        }
        if (matrix.len() as u128) != (num_vertices as u128) * (num_vertices as u128) {
            return None;
        }
        let mut k: usize = 0;
        while k < matrix.len()
            invariant
                k <= matrix@.len(),
                forall|m: int| 0 <= m < k ==> #[trigger] matrix@[m] <= WEIGHT_LIMIT,
            decreases matrix@.len() - k,
        {
            if matrix[k] > WEIGHT_LIMIT {
                return None;
            }
            k += 1;
        }
        let g = WeightedGraph { matrix, num_vertices };
        proof {
            assert forall|i: int, j: int| #[trigger] g.weight(i, j) <= WEIGHT_LIMIT by {
                if 0 <= i < num_vertices && 0 <= j < num_vertices {
                    assert(0 <= i * num_vertices + j < num_vertices * num_vertices)
                        by (nonlinear_arith)
                        requires
                            0 <= i < num_vertices,
                            0 <= j < num_vertices,
                    ;
                }
            }
            assert forall|i: int, j: int|
                0 <= i < num_vertices && 0 <= j < num_vertices implies #[trigger] g.weight(i, j)
                == g.matrix@[i * num_vertices + j] by {
                assert(0 <= i * num_vertices + j < num_vertices * num_vertices)
                    by (nonlinear_arith)
                    requires
                        0 <= i < num_vertices,
                        0 <= j < num_vertices,
                ;
            }
        }
        Some(g)
    }

    pub fn num_vertices(&self) -> (r: usize)
        ensures
            r == self.vertices(),
    {
        self.num_vertices
    }

    /// Returns the weight of the edge between vertices `v` and `u`.
    pub fn weight_between(&self, v: usize, u: usize) -> (r: u64)
        requires
            self.wf(),
            (v as int) < self.vertices(),
            (u as int) < self.vertices(),
        ensures
            r == self.weight(v as int, u as int),
    {
        let total = self.matrix.len();
        proof {
            assert(self.num_vertices * self.num_vertices == total as int);
        }
        let idx = Self::flat_index(self.num_vertices, v, u);
        self.matrix[idx]
    }
}

} // verus!
