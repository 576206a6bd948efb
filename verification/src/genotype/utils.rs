use vstd::prelude::*;
use crate::genotype::is_permutation;
use crate::rng::{choose_one, rand_below};

verus! {

/// Multiplicities are capped at two: an edge is either in one parent or in
/// both.
pub open spec fn cap2(n: nat) -> nat {
    if n >= 2 {
        2
    } else {
        n
    }
}

/// Total multiplicity recorded for neighbour `u` in one adjacency row.
pub open spec fn row_count(row: Seq<(usize, usize)>, u: int) -> nat
    decreases row.len(),
{
    if row.len() == 0 {
        0
    } else {
        row_count(row.drop_last(), u) + (if row.last().0 == u {
            row.last().1 as nat
        } else {
            0
        })
    }
}

/// No neighbour is recorded twice in one row.
pub open spec fn keys_unique(row: Seq<(usize, usize)>) -> bool {
    forall|i: int, j: int|
        0 <= i < row.len() && 0 <= j < row.len() && i != j ==> (#[trigger] row[i]).0 != (
        #[trigger] row[j]).0
}

/// How often the unordered pair `{v, u}` stands among the first `k`
/// consecutive position pairs of the tour `p`.
pub open spec fn consec_count(p: Seq<usize>, k: int, v: int, u: int) -> nat
    decreases k,
{
    if k <= 0 {
        0
    } else {
        consec_count(p, k - 1, v, u) + (if (p[k - 1] == v && p[k] == u) || (p[k - 1] == u && p[k]
            == v) {
            1nat
        } else {
            0nat
        })
    }
}

/// How often vertices `v` and `u` are adjacent in the cyclic tour `p`: the
/// consecutive pairs plus the wrap-around edge from the last allele back to
/// the first.
pub open spec fn adjacency_count(p: Seq<usize>, v: int, u: int) -> nat {
    consec_count(p, p.len() - 1, v, u) + (if p.len() >= 1 && ((p[0] == v && p[p.len() - 1] == u)
        || (p[0] == u && p[p.len() - 1] == v)) {
        1nat
    } else {
        0nat
    })
}

proof fn lemma_row_count_absent(row: Seq<(usize, usize)>, u: int)
    requires
        forall|k: int| 0 <= k < row.len() ==> (#[trigger] row[k]).0 != u,
    ensures
        row_count(row, u) == 0,
    decreases row.len(),
{
    if row.len() > 0 {
        lemma_row_count_absent(row.drop_last(), u);
    }
}

proof fn lemma_row_count_pos(row: Seq<(usize, usize)>, u: int)
    requires
        row_count(row, u) > 0,
    ensures
        exists|k: int| 0 <= k < row.len() && (#[trigger] row[k]).0 == u,
    decreases row.len(),
{
    if row.len() > 0 {
        if row.last().0 == u {
            assert(row[row.len() - 1].0 == u);
        } else {
            lemma_row_count_pos(row.drop_last(), u);
            let k = choose|k: int|
                0 <= k < row.drop_last().len() && (#[trigger] row.drop_last()[k]).0 == u;
            assert(row[k].0 == u);
        }
    }
}

proof fn lemma_row_count_key(row: Seq<(usize, usize)>, k: int)
    requires
        keys_unique(row),
        0 <= k < row.len(),
    ensures
        row_count(row, row[k].0 as int) == row[k].1,
    decreases row.len(),
{
    if k == row.len() - 1 {
        assert forall|j: int| 0 <= j < row.drop_last().len() implies (#[trigger] row.drop_last(
        )[j]).0 != row[k].0 as int by {
            assert(row[j].0 != row[k].0);
        }
        lemma_row_count_absent(row.drop_last(), row[k].0 as int);
    } else {
        lemma_row_count_key(row.drop_last(), k);
        assert(row.drop_last()[k] == row[k]);
        assert(row.last().0 != row[k].0);
    }
}

proof fn lemma_row_count_push(row: Seq<(usize, usize)>, e: (usize, usize), u: int)
    ensures
        row_count(row.push(e), u) == row_count(row, u) + (if e.0 == u {
            e.1 as nat
        } else {
            0nat
        }),
{
    assert(row.push(e).drop_last() =~= row);
    assert(row.push(e).last() == e);
}

/// Per-vertex adjacency lists derived from two parent tours: row `v` maps
/// each recorded neighbour of `v` to the multiplicity of that edge.
pub struct EdgeTable {
    rows: Vec<Vec<(usize, usize)>>,
}

impl EdgeTable {
    /// Number of vertices the table covers.
    pub closed spec fn size(self) -> nat {
        self.rows@.len()
    }

    /// Recorded multiplicity of the edge from `v` to `u`; zero once the
    /// edge was removed or was never recorded.
    pub closed spec fn count(self, v: int, u: int) -> nat {
        if 0 <= v < self.rows@.len() {
            row_count(self.rows@[v]@, u)
        } else {
            0
        }
    }

    /// Number of distinct neighbours still recorded for `v`.
    pub closed spec fn deg(self, v: int) -> nat {
        if 0 <= v < self.rows@.len() {
            self.rows@[v]@.len()
        } else {
            0
        }
    }

    /// Every row records each neighbour at most once, with multiplicity one
    /// or two, and only neighbours that are vertices of the table.
    pub closed spec fn wf(self) -> bool {
        forall|v: int|
            0 <= v < self.rows@.len() ==> {
                let row = (#[trigger] self.rows@[v])@;
                keys_unique(row) && (forall|k: int|
                    0 <= k < row.len() ==> ((#[trigger] row[k]).0 < self.rows@.len() && 1 <= row[
                        k
                    ].1 <= 2))
            }
    }

    /// A recorded edge connects two vertices of the table.
    pub proof fn lemma_count_range(self, v: int, u: int)
        requires
            self.wf(),
            self.count(v, u) >= 1,
        ensures
            0 <= v < self.size(),
            0 <= u < self.size(),
    {
        lemma_row_count_pos(self.rows@[v]@, u);
    }

    /// The distinct neighbours still recorded for `v`, as a set.
    pub open spec fn neighbour_set(self, v: int) -> Set<usize> {
        Set::new(|u: usize| self.count(v, u as int) >= 1)
    }

    /// The degree of a vertex is exactly the number of distinct neighbours
    /// it records an edge towards: a row records each neighbour at most
    /// once, so the list length is determined by the multiplicities.
    pub proof fn lemma_deg_counts_neighbours(self, v: int)
        requires
            self.wf(),
            0 <= v < self.size(),
        ensures
            self.neighbour_set(v).finite(),
            self.deg(v) == self.neighbour_set(v).len(),
    {
        broadcast use vstd::seq_lib::seq_to_set_is_finite;
        broadcast use vstd::set::group_set_axioms;

        let row = self.rows@[v]@;
        let keys = row.map_values(|e: (usize, usize)| e.0);
        assert(keys.no_duplicates()) by {
            assert forall|i: int, j: int|
                0 <= i < keys.len() && 0 <= j < keys.len() && i != j implies keys[i]
                != keys[j] by {
                assert(keys[i] == row[i].0 && keys[j] == row[j].0);
            }
        }
        keys.unique_seq_to_set();
        assert(keys.to_set() =~= self.neighbour_set(v)) by {
            assert forall|u: usize| #[trigger] keys.to_set().contains(u) implies
                self.neighbour_set(v).contains(u) by {
                let k = choose|k: int| 0 <= k < keys.len() && keys[k] == u;
                assert(row[k].0 == u);
                lemma_row_count_key(row, k);
            }
            assert forall|u: usize| #[trigger] self.neighbour_set(v).contains(u) implies
                keys.to_set().contains(u) by {
                lemma_row_count_pos(row, u as int);
                let k = choose|k: int| 0 <= k < row.len() && (#[trigger] row[k]).0 == u as int;
                assert(keys[k] == u);
                assert(keys.contains(u));
            }
        }
    }

    /// A vertex of positive degree still records some edge.
    pub proof fn lemma_deg_pos(self, v: int)
        requires
            self.wf(),
            0 <= v < self.size(),
            self.deg(v) >= 1,
        ensures
            exists|u: int| self.count(v, u) >= 1,
    {
        let row = self.rows@[v]@;
        lemma_row_count_key(row, 0);
        assert(self.count(v, row[0].0 as int) >= 1);
    }

    pub fn num_rows(&self) -> (r: usize)
        ensures
            r == self.size(),
    {
        self.rows.len()
    }

    /// How many neighbours are still recorded for `v`.
    pub fn row_len(&self, v: usize) -> (r: usize)
        requires
            (v as int) < self.size(),
        ensures
            r == self.deg(v as int),
    {
        self.rows[v].len()
    }

    /// The recorded multiplicity of the edge from `v` to `u`.
    pub fn multiplicity(&self, v: usize, u: usize) -> (r: usize)
        requires
            self.wf(),
            (v as int) < self.size(),
        ensures
            r == self.count(v as int, u as int),
    {
        let row = &self.rows[v];
        let mut k: usize = 0;
        while k < row.len()
            invariant
                k <= row@.len(),
                row@ == self.rows@[v as int]@,
                self.wf(),
                (v as int) < self.size(),
                forall|j: int| 0 <= j < k ==> (#[trigger] row@[j]).0 != u,
            decreases row@.len() - k,
        {
            if row[k].0 == u {
                proof {
                    lemma_row_count_key(row@, k as int);
                }
                return row[k].1;
            }
            k += 1;
        }
        proof {
            lemma_row_count_absent(row@, u as int);
        }
        0
    }
}

/// A copy of `row` with the multiplicity of `u` raised by one, capped at
/// two; a missing neighbour is recorded with multiplicity one.
fn row_bumped(row: &Vec<(usize, usize)>, u: usize) -> (r: Vec<(usize, usize)>)
    requires
        keys_unique(row@),
        forall|k: int| 0 <= k < row@.len() ==> 1 <= (#[trigger] row@[k]).1 <= 2,
    ensures
        keys_unique(r@),
        forall|k: int| 0 <= k < r@.len() ==> 1 <= (#[trigger] r@[k]).1 <= 2,
        forall|k: int|
            0 <= k < r@.len() ==> ((#[trigger] r@[k]).0 == u || exists|j: int|
                0 <= j < row@.len() && (#[trigger] row@[j]).0 == r@[k].0),
        row_count(r@, u as int) == cap2(row_count(row@, u as int) + 1),
        forall|w: int| w != u ==> row_count(r@, w) == row_count(row@, w),
{
    let ghost orig = row@;
    let mut out: Vec<(usize, usize)> = Vec::new();
    let mut found = false;
    let mut i: usize = 0;
    while i < row.len()
        invariant
            i <= orig.len(),
            row@ == orig,
            keys_unique(orig),
            forall|k: int| 0 <= k < orig.len() ==> 1 <= (#[trigger] orig[k]).1 <= 2,
            out@.len() == i as int,
            forall|k: int| 0 <= k < i ==> (#[trigger] out@[k]).0 == orig[k].0,
            forall|k: int| 0 <= k < i ==> 1 <= (#[trigger] out@[k]).1 <= 2,
            !found ==> forall|k: int| 0 <= k < i ==> (#[trigger] orig[k]).0 != u,
            found ==> exists|k: int| 0 <= k < i && (#[trigger] orig[k]).0 == u,
            row_count(out@, u as int) == (if found {
                cap2(row_count(orig.take(i as int), u as int) + 1)
            } else {
                row_count(orig.take(i as int), u as int)
            }),
            forall|w: int|
                w != u ==> row_count(out@, w) == row_count(orig.take(i as int), w),
        decreases orig.len() - i,
    {
        let (key, mult) = row[i];
        let ghost pre_out = out@;
        proof {
            assert(orig.take(i + 1).drop_last() =~= orig.take(i as int));
            assert(orig.take(i + 1).last() == orig[i as int]);
        }
        if key == u {
            proof {
                if found {
                    let k = choose|k: int| 0 <= k < i && (#[trigger] orig[k]).0 == u;
                    assert(orig[k].0 != orig[i as int].0);
                    assert(false);
                }
                lemma_row_count_absent(orig.take(i as int), u as int);
            }
            let bumped = if mult < 2 {
                mult + 1
            } else {
                mult
            };
            out.push((key, bumped));
            found = true;
            proof {
                assert forall|w: int| #[trigger] row_count(out@, w) == row_count(pre_out, w) + (
                if w == u {
                    bumped as nat
                } else {
                    0nat
                }) by {
                    lemma_row_count_push(pre_out, (key, bumped), w);
                }
                assert forall|w: int| #[trigger] row_count(orig.take(i + 1), w) == row_count(
                    orig.take(i as int),
                    w,
                ) + (if w == u {
                    mult as nat
                } else {
                    0nat
                }) by {}
            }
        } else {
            out.push((key, mult));
            proof {
                assert forall|w: int| #[trigger] row_count(out@, w) == row_count(pre_out, w) + (
                if w == key {
                    mult as nat
                } else {
                    0nat
                }) by {
                    lemma_row_count_push(pre_out, (key, mult), w);
                }
            }
        }
        i += 1;
    }
    proof {
        assert(orig.take(orig.len() as int) =~= orig);
    }
    if !found {
        let ghost pre_out = out@;
        out.push((u, 1));
        proof {
            assert forall|w: int| #[trigger] row_count(out@, w) == row_count(pre_out, w) + (
            if w == u {
                1nat
            } else {
                0nat
            }) by {
                lemma_row_count_push(pre_out, (u, 1), w);
            }
            lemma_row_count_absent(orig, u as int);
        }
    }
    out
}

/// A copy of `row` with any entry for neighbour `u` removed.
fn row_without(row: &Vec<(usize, usize)>, u: usize) -> (r: Vec<(usize, usize)>)
    requires
        keys_unique(row@),
        forall|k: int| 0 <= k < row@.len() ==> 1 <= (#[trigger] row@[k]).1 <= 2,
    ensures
        keys_unique(r@),
        forall|k: int| 0 <= k < r@.len() ==> 1 <= (#[trigger] r@[k]).1 <= 2,
        forall|k: int|
            0 <= k < r@.len() ==> exists|j: int|
                0 <= j < row@.len() && (#[trigger] row@[j]).0 == (#[trigger] r@[k]).0,
        row_count(r@, u as int) == 0,
        forall|w: int| w != u ==> row_count(r@, w) == row_count(row@, w),
{
    let ghost orig = row@;
    let mut out: Vec<(usize, usize)> = Vec::new();
    let mut i: usize = 0;
    while i < row.len()
        invariant
            i <= orig.len(),
            row@ == orig,
            keys_unique(orig),
            forall|k: int| 0 <= k < orig.len() ==> 1 <= (#[trigger] orig[k]).1 <= 2,
            forall|k: int| 0 <= k < out@.len() ==> (#[trigger] out@[k]).0 != u,
            forall|k: int|
                0 <= k < out@.len() ==> exists|j: int|
                    0 <= j < i && (#[trigger] orig[j]).0 == (#[trigger] out@[k]).0,
            keys_unique(out@),
            forall|k: int| 0 <= k < out@.len() ==> 1 <= (#[trigger] out@[k]).1 <= 2,
            forall|w: int|
                w != u ==> row_count(out@, w) == row_count(orig.take(i as int), w),
        decreases orig.len() - i,
    {
        let (key, mult) = row[i];
        proof {
            assert(orig.take(i + 1).drop_last() =~= orig.take(i as int));
            assert(orig.take(i + 1).last() == orig[i as int]);
        }
        if key != u {
            let ghost pre = out@;
            out.push((key, mult));
            proof {
                assert forall|k: int| 0 <= k < out@.len() implies exists|j: int|
                    0 <= j < i + 1 && (#[trigger] orig[j]).0 == (#[trigger] out@[k]).0 by {
                    if k < pre.len() {
                        assert(out@[k] == pre[k]);
                    } else {
                        assert(out@[k] == (key, mult));
                        assert(orig[i as int].0 == key);
                    }
                }
                assert forall|w: int| w != u implies row_count(out@, w) == row_count(
                    orig.take(i + 1),
                    w,
                ) by {
                    lemma_row_count_push(pre, (key, mult), w);
                }
                assert forall|a: int, b: int|
                    0 <= a < out@.len() && 0 <= b < out@.len() && a != b implies (
                #[trigger] out@[a]).0 != (#[trigger] out@[b]).0 by {
                    if a < pre.len() && b < pre.len() {
                    } else {
                        let inner = if a < pre.len() {
                            a
                        } else {
                            b
                        };
                        let j = choose|j: int|
                            0 <= j < i && (#[trigger] orig[j]).0 == out@[inner].0;
                        assert(orig[j].0 != orig[i as int].0);
                    }
                }
            }
        } else {
            proof {
                assert forall|w: int| w != u implies row_count(orig.take(i + 1), w) == row_count(
                    orig.take(i as int),
                    w,
                ) by {}
            }
        }
        i += 1;
    }
    proof {
        assert(orig.take(orig.len() as int) =~= orig);
        lemma_row_count_absent(out@, u as int);
    }
    out
}

/// Records the undirected edge `{v, u}` in both directions, raising the
/// multiplicity of an edge that is already present (capped at two).
pub fn add_to_edge_table(edge_table: &mut EdgeTable, v: usize, u: usize)
    requires
        old(edge_table).wf(),
        (v as int) < old(edge_table).size(),
        (u as int) < old(edge_table).size(),
    ensures
        final(edge_table).wf(),
        final(edge_table).size() == old(edge_table).size(),
        forall|x: int, y: int|
            !((x == v && y == u) || (x == u && y == v)) ==> final(edge_table).count(x, y) == old(
                edge_table,
            ).count(x, y),
        v != u ==> final(edge_table).count(v as int, u as int) == cap2(
            old(edge_table).count(v as int, u as int) + 1,
        ) && final(edge_table).count(u as int, v as int) == cap2(
            old(edge_table).count(u as int, v as int) + 1,
        ),
        v == u ==> final(edge_table).count(v as int, v as int) == cap2(
            old(edge_table).count(v as int, v as int) + 2,
        ),
{
    let ghost pre = *edge_table;
    let nr = row_bumped(&edge_table.rows[v], u);
    edge_table.rows.set(v, nr);
    let ghost mid = *edge_table;
    let nr2 = row_bumped(&edge_table.rows[u], v);
    edge_table.rows.set(u, nr2);
    proof {
        assert forall|x: int|
            0 <= x < edge_table.rows@.len() implies keys_unique(
            (#[trigger] edge_table.rows@[x])@,
        ) && (forall|k: int|
            0 <= k < edge_table.rows@[x]@.len() ==> ((#[trigger] edge_table.rows@[x]@[k]).0
                < edge_table.rows@.len() && 1 <= edge_table.rows@[x]@[k].1 <= 2)) by {
            if x == v || x == u {
                assert forall|k: int|
                    0 <= k < edge_table.rows@[x]@.len() implies ((
                #[trigger] edge_table.rows@[x]@[k]).0 < edge_table.rows@.len() && 1
                    <= edge_table.rows@[x]@[k].1 <= 2) by {
                    let e = edge_table.rows@[x]@[k];
                    if x == u {
                        if e.0 != v {
                            let j = choose|j: int|
                                0 <= j < mid.rows@[u as int]@.len() && (
                                #[trigger] mid.rows@[u as int]@[j]).0 == e.0;
                            if v == u {
                                let j2 = choose|j2: int|
                                    0 <= j2 < pre.rows@[v as int]@.len() && (
                                    #[trigger] pre.rows@[v as int]@[j2]).0 == mid.rows@[u as int]@[j].0;
                                assert(pre.rows@[v as int]@[j2].0 < pre.rows@.len());
                            } else {
                                assert(mid.rows@[u as int]@[j].0 < pre.rows@.len());
                            }
                        }
                    } else {
                        if e.0 != u {
                            let j = choose|j: int|
                                0 <= j < pre.rows@[v as int]@.len() && (
                                #[trigger] pre.rows@[v as int]@[j]).0 == e.0;
                            assert(pre.rows@[v as int]@[j].0 < pre.rows@.len());
                        }
                    }
                }
            }
        }
    }
}

/// Builds the edge table of the two parent tours: every cyclically adjacent
/// pair of either parent is recorded with the number of parents it appears
/// in (capped at two by the row representation).
pub fn construct_edge_table(parent1: &Vec<usize>, parent2: &Vec<usize>) -> (t: EdgeTable)
    requires
        parent1@.len() == parent2@.len(),
        parent1@.len() >= 1,
        is_permutation(parent1@),
        is_permutation(parent2@),
    ensures
        t.wf(),
        t.size() == parent1@.len(),
        forall|v: int, u: int|
            #[trigger] t.count(v, u) == cap2(
                adjacency_count(parent1@, v, u) + adjacency_count(parent2@, v, u),
            ),
{
    let num_alleles = parent1.len();
    let mut rows: Vec<Vec<(usize, usize)>> = Vec::new();
    let mut i: usize = 0;
    while i < num_alleles
        invariant
            i <= num_alleles,
            rows@.len() == i as int,
            forall|k: int| 0 <= k < i ==> (#[trigger] rows@[k])@.len() == 0,
        decreases num_alleles - i,
    {
        rows.push(Vec::new());
        i += 1;
    }
    let mut edge_table = EdgeTable { rows };
    proof {
        assert forall|v: int, u: int| #[trigger] edge_table.count(v, u) == 0 by {
            if 0 <= v < edge_table.rows@.len() {
                lemma_row_count_absent(edge_table.rows@[v]@, u);
            }
        }
    }
    let mut k: usize = 0;
    while k + 1 < num_alleles
        invariant
            k <= num_alleles,
            num_alleles >= 1,
            parent1@.len() == num_alleles,
            parent2@.len() == num_alleles,
            is_permutation(parent1@),
            is_permutation(parent2@),
            edge_table.wf(),
            edge_table.size() == num_alleles,
            k + 1 <= num_alleles,
            forall|v: int, u: int|
                #[trigger] edge_table.count(v, u) == cap2(
                    consec_count(parent1@, k as int, v, u) + consec_count(
                        parent2@,
                        k as int,
                        v,
                        u,
                    ),
                ),
        decreases num_alleles - k,
    {
        let ghost before = edge_table;
        add_to_edge_table(&mut edge_table, parent1[k], parent1[k + 1]);
        let ghost middle = edge_table;
        add_to_edge_table(&mut edge_table, parent2[k], parent2[k + 1]);
        proof {
            let p1 = parent1@;
            let p2 = parent2@;
            let ki = k as int;
            assert(p1[ki] != p1[ki + 1]);
            assert(p2[ki] != p2[ki + 1]);
            assert forall|v: int, u: int| #[trigger] edge_table.count(v, u) == cap2(
                consec_count(p1, ki + 1, v, u) + consec_count(p2, ki + 1, v, u),
            ) by {
                let a1 = consec_count(p1, ki, v, u);
                let a2 = consec_count(p2, ki, v, u);
                let b1 = consec_count(p1, ki + 1, v, u);
                let b2 = consec_count(p2, ki + 1, v, u);
                if (p1[ki] == v && p1[ki + 1] == u) || (p1[ki] == u && p1[ki + 1] == v) {
                    assert(b1 == a1 + 1);
                    assert(middle.count(v, u) == cap2(before.count(v, u) + 1));
                } else {
                    assert(b1 == a1);
                    assert(middle.count(v, u) == before.count(v, u));
                }
                if (p2[ki] == v && p2[ki + 1] == u) || (p2[ki] == u && p2[ki + 1] == v) {
                    assert(b2 == a2 + 1);
                    assert(edge_table.count(v, u) == cap2(middle.count(v, u) + 1));
                } else {
                    assert(b2 == a2);
                    assert(edge_table.count(v, u) == middle.count(v, u));
                }
            }
        }
        k += 1;
    }
    // The wrap-around edge: the first allele is adjacent to the last.
    let ghost before = edge_table;
    add_to_edge_table(&mut edge_table, parent1[0], parent1[num_alleles - 1]);
    let ghost middle = edge_table;
    add_to_edge_table(&mut edge_table, parent2[0], parent2[num_alleles - 1]);
    proof {
        let p1 = parent1@;
        let p2 = parent2@;
        let n = num_alleles as int;
        assert(k as int == if n == 1 {
            0int
        } else {
            n - 1
        });
        assert forall|v: int, u: int| #[trigger] edge_table.count(v, u) == cap2(
            adjacency_count(p1, v, u) + adjacency_count(p2, v, u),
        ) by {
            let a1 = consec_count(p1, n - 1, v, u);
            let a2 = consec_count(p2, n - 1, v, u);
            if n == 1 {
                assert(consec_count(p1, 0, v, u) == 0);
                assert(consec_count(p2, 0, v, u) == 0);
                if p1[0] == v && p1[0] == u {
                    assert(middle.count(v, u) == cap2(before.count(v, u) + 2));
                    assert(adjacency_count(p1, v, u) == 1);
                } else {
                    assert(middle.count(v, u) == before.count(v, u));
                    assert(adjacency_count(p1, v, u) == 0);
                }
                if p2[0] == v && p2[0] == u {
                    assert(edge_table.count(v, u) == cap2(middle.count(v, u) + 2));
                    assert(adjacency_count(p2, v, u) == 1);
                } else {
                    assert(edge_table.count(v, u) == middle.count(v, u));
                    assert(adjacency_count(p2, v, u) == 0);
                }
            } else {
                assert(p1[0] != p1[n - 1]);
                assert(p2[0] != p2[n - 1]);
                if (p1[0] == v && p1[n - 1] == u) || (p1[0] == u && p1[n - 1] == v) {
                    assert(middle.count(v, u) == cap2(before.count(v, u) + 1));
                    assert(adjacency_count(p1, v, u) == a1 + 1);
                } else {
                    assert(middle.count(v, u) == before.count(v, u));
                    assert(adjacency_count(p1, v, u) == a1);
                }
                if (p2[0] == v && p2[n - 1] == u) || (p2[0] == u && p2[n - 1] == v) {
                    assert(edge_table.count(v, u) == cap2(middle.count(v, u) + 1));
                    assert(adjacency_count(p2, v, u) == a2 + 1);
                } else {
                    assert(edge_table.count(v, u) == middle.count(v, u));
                    assert(adjacency_count(p2, v, u) == a2);
                }
            }
        }
    }
    edge_table
}

/// Removes `vertex` from the adjacency list of every vertex; its own row is
/// left in place, so its remaining neighbours can still be read.
pub fn remove_edge(edge_table: &mut EdgeTable, vertex: usize)
    requires
        old(edge_table).wf(),
    ensures
        final(edge_table).wf(),
        final(edge_table).size() == old(edge_table).size(),
        forall|x: int, y: int|
            #[trigger] final(edge_table).count(x, y) == (if y == vertex {
                0nat
            } else {
                old(edge_table).count(x, y)
            }),
{
    let ghost pre = *edge_table;
    let n = edge_table.rows.len();
    let mut v: usize = 0;
    while v < n
        invariant
            v <= n,
            edge_table.rows@.len() == n as int,
            pre.rows@.len() == n as int,
            pre.wf(),
            forall|x: int|
                v <= x < n ==> (#[trigger] edge_table.rows@[x])@ == pre.rows@[x]@,
            forall|x: int|
                0 <= x < v ==> {
                    let row = (#[trigger] edge_table.rows@[x])@;
                    keys_unique(row) && (forall|k: int|
                        0 <= k < row.len() ==> (1 <= (#[trigger] row[k]).1 <= 2)) && (forall|
                        k: int,
                    |
                        0 <= k < row.len() ==> (#[trigger] row[k]).0 < n) && row_count(
                        row,
                        vertex as int,
                    ) == 0 && (forall|w: int|
                        w != vertex ==> row_count(row, w) == row_count(pre.rows@[x]@, w))
                },
        decreases n - v,
    {
        let nr = row_without(&edge_table.rows[v], vertex);
        proof {
            assert forall|k: int| 0 <= k < nr@.len() implies (#[trigger] nr@[k]).0 < n by {
                let j = choose|j: int|
                    0 <= j < pre.rows@[v as int]@.len() && (#[trigger] pre.rows@[v as int]@[j]).0
                        == nr@[k].0;
            }
        }
        edge_table.rows.set(v, nr);
        v += 1;
    }
}

/// Picks one of the not yet placed vertices uniformly at random.
pub fn select_random(candidates: &Vec<usize>, rng: &mut rand::rngs::ThreadRng) -> (r: usize)
    requires
        candidates@.len() >= 1,
    ensures
        candidates@.contains(r),
{
    let idx = rand_below(rng, candidates.len());
    candidates[idx]
}

/// Attempts to select a vertex adjacent to the current one from the edge
/// table: first any neighbour common to both parents, then a neighbour
/// whose own remaining adjacency list is shortest but not empty (ties
/// broken at random), and `None` when every neighbour's list is empty.
pub fn try_select_adjacent(
    edge_table: &EdgeTable,
    vertex: usize,
    rng: &mut rand::rngs::ThreadRng,
) -> (r: Option<usize>)
    requires
        edge_table.wf(),
        (vertex as int) < edge_table.size(),
    ensures
        match r {
            Some(u) => edge_table.count(vertex as int, u as int) >= 1 && (u as int)
                < edge_table.size() && (if exists|w: int|
                #[trigger] edge_table.count(vertex as int, w) == 2 {
                edge_table.count(vertex as int, u as int) == 2
            } else {
                edge_table.deg(u as int) >= 1 && forall|w: int|
                    #[trigger] edge_table.count(vertex as int, w) >= 1 && edge_table.deg(w) >= 1
                        ==> edge_table.deg(u as int) <= edge_table.deg(w)
            }),
            None => forall|w: int|
                #[trigger] edge_table.count(vertex as int, w) >= 1 ==> (edge_table.count(
                    vertex as int,
                    w,
                ) < 2 && edge_table.deg(w) == 0),
        },
{
    let row = &edge_table.rows[vertex];
    let ghost rview = row@;
    proof {
        assert(rview == edge_table.rows@[vertex as int]@);
    }
    // First attempt: an edge common to both parents.
    let mut k: usize = 0;
    while k < row.len()
        invariant
            k <= rview.len(),
            row@ == rview,
            edge_table.wf(),
            (vertex as int) < edge_table.size(),
            rview == edge_table.rows@[vertex as int]@,
            forall|j: int| 0 <= j < k ==> (#[trigger] rview[j]).1 != 2,
        decreases rview.len() - k,
    {
        if row[k].1 == 2 {
            proof {
                lemma_row_count_key(rview, k as int);
                assert(edge_table.count(vertex as int, rview[k as int].0 as int) == 2);
            }
            return Some(row[k].0);
        }
        k += 1;
    }
    proof {
        assert forall|w: int| #[trigger] edge_table.count(vertex as int, w) != 2 by {
            if edge_table.count(vertex as int, w) >= 1 {
                lemma_row_count_pos(rview, w);
                let j = choose|j: int| 0 <= j < rview.len() && (#[trigger] rview[j]).0 == w;
                lemma_row_count_key(rview, j);
            }
        }
    }
    // Second attempt: a neighbour with the shortest non-empty list.
    let mut min_len: usize = 0;
    let mut have_min = false;
    let ghost mut min_at: int = 0;
    let mut k: usize = 0;
    while k < row.len()
        invariant
            k <= rview.len(),
            row@ == rview,
            edge_table.wf(),
            (vertex as int) < edge_table.size(),
            rview == edge_table.rows@[vertex as int]@,
            !have_min ==> forall|j: int|
                0 <= j < k ==> edge_table.deg((#[trigger] rview[j]).0 as int) == 0,
            have_min ==> {
                &&& 0 <= min_at < k
                &&& edge_table.deg(rview[min_at].0 as int) == min_len
                &&& min_len >= 1
                &&& forall|j: int|
                    0 <= j < k && edge_table.deg((#[trigger] rview[j]).0 as int) >= 1
                        ==> min_len <= edge_table.deg(rview[j].0 as int)
            },
        decreases rview.len() - k,
    {
        let w = row[k].0;
        let d = edge_table.rows[w].len();
        if d > 0 {
            if !have_min || d < min_len {
                min_len = d;
                have_min = true;
                proof {
                    min_at = k as int;
                }
            }
        }
        k += 1;
    }
    if !have_min {
        proof {
            assert forall|w: int|
                #[trigger] edge_table.count(vertex as int, w) >= 1 implies (edge_table.count(
                vertex as int,
                w,
            ) < 2 && edge_table.deg(w) == 0) by {
                lemma_row_count_pos(rview, w);
                let j = choose|j: int| 0 <= j < rview.len() && (#[trigger] rview[j]).0 == w;
                lemma_row_count_key(rview, j);
                assert(edge_table.deg(rview[j].0 as int) == 0);
            }
        }
        return None;
    }
    // Collect every neighbour sharing the minimum and pick one at random.
    let mut min_list_vertices: Vec<usize> = Vec::new();
    let mut k: usize = 0;
    while k < row.len()
        invariant
            k <= rview.len(),
            row@ == rview,
            edge_table.wf(),
            (vertex as int) < edge_table.size(),
            rview == edge_table.rows@[vertex as int]@,
            0 <= min_at < rview.len(),
            edge_table.deg(rview[min_at].0 as int) == min_len,
            min_len >= 1,
            forall|j: int|
                0 <= j < rview.len() && edge_table.deg((#[trigger] rview[j]).0 as int) >= 1
                    ==> min_len <= edge_table.deg(rview[j].0 as int),
            min_at < k ==> min_list_vertices@.len() >= 1,
            forall|j: int|
                0 <= j < min_list_vertices@.len() ==> exists|m: int|
                    0 <= m < rview.len() && (#[trigger] min_list_vertices@[j]) == (
                    #[trigger] rview[m]).0 && edge_table.deg(rview[m].0 as int) == min_len,
        decreases rview.len() - k,
    {
        let w = row[k].0;
        if edge_table.rows[w].len() == min_len {
            min_list_vertices.push(w);
        }
        proof {
            if k as int == min_at {
                assert(min_list_vertices@.last() == rview[min_at].0);
            }
        }
        k += 1;
    }
    let picked = choose_one(&min_list_vertices, rng);
    proof {
        let j = choose|j: int|
            0 <= j < min_list_vertices@.len() && min_list_vertices@[j] == picked;
        let m = choose|m: int|
            0 <= m < rview.len() && (#[trigger] min_list_vertices@[j]) == (#[trigger] rview[m]).0
                && edge_table.deg(rview[m].0 as int) == min_len;
        lemma_row_count_key(rview, m);
        assert(edge_table.count(vertex as int, picked as int) >= 1);
        assert(edge_table.deg(picked as int) == min_len);
        assert forall|w: int|
            #[trigger] edge_table.count(vertex as int, w) >= 1 && edge_table.deg(w) >= 1 implies
            edge_table.deg(picked as int) <= edge_table.deg(w) by {
            lemma_row_count_pos(rview, w);
            let jw = choose|jw: int| 0 <= jw < rview.len() && (#[trigger] rview[jw]).0 == w;
            assert(edge_table.deg(rview[jw].0 as int) >= 1);
        }
    }
    Some(picked)
}

} // verus!
