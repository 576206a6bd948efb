pub mod utils;

use vstd::prelude::*;
use crate::rng::{rand_below, shuffle};

verus! {

broadcast use vstd::seq_lib::group_to_multiset_ensures;

/// A valid genotype of length `n` holds each vertex of `0..n` exactly once:
/// no entry repeats, every entry is below the length, and every vertex below
/// the length occurs.
pub open spec fn is_permutation(s: Seq<usize>) -> bool {
    &&& s.no_duplicates()
    &&& forall|i: int| 0 <= i < s.len() ==> s[i] < s.len()
    &&& forall|v: int| 0 <= v < s.len() ==> #[trigger] s.contains(v as usize)
}

/// A valid genotype holds each vertex below its length exactly once.
pub proof fn lemma_permutation_counts(s: Seq<usize>)
    requires
        is_permutation(s),
    ensures
        forall|v: int| 0 <= v < s.len() ==> #[trigger] s.to_multiset().count(v as usize) == 1,
{
    s.lemma_multiset_has_no_duplicates();
    assert forall|v: int| 0 <= v < s.len() implies #[trigger] s.to_multiset().count(v as usize)
        == 1 by {
        assert(s.contains(v as usize));
        assert(s.to_multiset().count(v as usize) > 0);
    }
}

/// Two sequences with the same multiset of entries are permutations of each
/// other, so validity carries over from one to the other.
pub proof fn lemma_multiset_permutation(s1: Seq<usize>, s2: Seq<usize>)
    requires
        is_permutation(s1),
        s2.to_multiset() == s1.to_multiset(),
    ensures
        is_permutation(s2),
        s2.len() == s1.len(),
{
    assert(s1.to_multiset().len() == s1.len());
    assert(s2.to_multiset().len() == s2.len());
    assert(s1.len() == s2.len());
    s1.lemma_multiset_has_no_duplicates();
    assert forall|x: usize| s2.to_multiset().contains(x) implies s2.to_multiset().count(x)
        == 1 by {
        assert(s1.to_multiset().contains(x));
    }
    s2.lemma_multiset_has_no_duplicates_conv();
    assert forall|i: int| 0 <= i < s2.len() implies s2[i] < s2.len() by {
        assert(s2.to_multiset().count(s2[i]) > 0) by {
            assert(s2.contains(s2[i]));
        }
        assert(s1.contains(s2[i]));
        let j = choose|j: int| 0 <= j < s1.len() && s1[j] == s2[i];
        assert(s1[j] < s1.len());
    }
    assert forall|v: int| 0 <= v < s2.len() implies #[trigger] s2.contains(v as usize) by {
        assert(s1.contains(v as usize));
        assert(s1.to_multiset().count(v as usize) > 0);
    }
}

/// The sequence `s` with the closed range `lo..=hi` reversed in place.
pub open spec fn reversed_between(s: Seq<usize>, lo: int, hi: int) -> Seq<usize> {
    Seq::new(s.len(), |i: int| if lo <= i <= hi { s[lo + hi - i] } else { s[i] })
}

/// Reversing a closed sub-range rearranges the entries but keeps their
/// multiset.
proof fn lemma_reversed_between_multiset(s: Seq<usize>, lo: int, hi: int)
    requires
        0 <= lo <= hi < s.len(),
    ensures
        reversed_between(s, lo, hi).to_multiset() == s.to_multiset(),
{
    let r = reversed_between(s, lo, hi);
    let a = s.subrange(0, lo);
    let m = s.subrange(lo, hi + 1);
    let z = s.subrange(hi + 1, s.len() as int);
    assert(s =~= a + m + z);
    assert(r =~= a + m.reverse() + z);
    m.lemma_reverse_to_multiset();
    vstd::seq_lib::lemma_multiset_commutative(a, m);
    vstd::seq_lib::lemma_multiset_commutative(a + m, z);
    vstd::seq_lib::lemma_multiset_commutative(a, m.reverse());
    vstd::seq_lib::lemma_multiset_commutative(a + m.reverse(), z);
    assert(r.to_multiset() =~= s.to_multiset());
}

proof fn lemma_push_contains(s: Seq<usize>, v: usize)
    ensures
        forall|w: usize| #[trigger] s.push(v).contains(w) <==> (s.contains(w) || w == v),
{
    assert forall|w: usize| #[trigger] s.push(v).contains(w) <==> (s.contains(w) || w == v) by {
        if s.contains(w) {
            let j = choose|j: int| 0 <= j < s.len() && s[j] == w;
            assert(s.push(v)[j] == w);
        }
        if w == v {
            assert(s.push(v)[s.len() as int] == w);
        }
        if s.push(v).contains(w) {
            let j = choose|j: int| 0 <= j < s.push(v).len() && s.push(v)[j] == w;
            if j < s.len() {
                assert(s[j] == w);
            }
        }
    }
}

proof fn lemma_push_no_duplicates(s: Seq<usize>, v: usize)
    requires
        s.no_duplicates(),
        !s.contains(v),
    ensures
        s.push(v).no_duplicates(),
{
    let t = s.push(v);
    assert forall|i: int, j: int| 0 <= i < t.len() && 0 <= j < t.len() && i != j implies t[i]
        != t[j] by {
        if i < s.len() && j < s.len() {
        } else {
            let inner = if i < s.len() {
                i
            } else {
                j
            };
            if inner < s.len() {
                if s[inner] == v {
                    assert(s.contains(v));
                }
            }
        }
    }
}

/// Removing position `i` from a duplicate-free sequence removes exactly the
/// value there and keeps every other membership.
proof fn lemma_remove_value(s: Seq<usize>, i: int)
    requires
        s.no_duplicates(),
        0 <= i < s.len(),
    ensures
        s.remove(i).no_duplicates(),
        !s.remove(i).contains(s[i]),
        forall|w: usize| w != s[i] ==> (#[trigger] s.remove(i).contains(w) <==> s.contains(w)),
{
    broadcast use vstd::multiset::group_multiset_axioms;

    s.lemma_multiset_has_no_duplicates();
    let t = s.remove(i);
    assert(t.to_multiset() == s.to_multiset().remove(s[i]));
    assert(s.contains(s[i]));
    assert(s.to_multiset().count(s[i]) == 1);
    assert(t.to_multiset().count(s[i]) == 0);
    assert forall|x: usize| t.to_multiset().contains(x) implies t.to_multiset().count(x) == 1 by {
        assert(s.to_multiset().count(x) > 0);
    }
    t.lemma_multiset_has_no_duplicates_conv();
    assert forall|w: usize| w != s[i] implies (#[trigger] t.contains(w) <==> s.contains(w)) by {
        assert(t.to_multiset().count(w) == s.to_multiset().count(w));
    }
}

/// Removes one occurrence of `x` from the vector.
fn remove_value(values: &mut Vec<usize>, x: usize)
    requires
        old(values)@.contains(x),
    ensures
        exists|i: int|
            0 <= i < old(values)@.len() && old(values)@[i] == x && final(values)@ == old(
                values,
            )@.remove(i),
{
    let mut i: usize = 0;
    while i < values.len()
        invariant
            values@ == old(values)@,
            i <= values@.len(),
            forall|j: int| 0 <= j < i ==> values@[j] != x,
            values@.contains(x),
        decreases values@.len() - i,
    {
        if values[i] == x {
            values.remove(i);
            return ;
        }
        i += 1;
    }
    proof {
        let j = choose|j: int| 0 <= j < values@.len() && values@[j] == x;
        assert(false);
    }
}

/// The joint state of an edge crossover in progress: the partial child, the
/// edge table, and the vertices not yet placed.  The placed and unplaced
/// vertices partition `0..n`, and the table only records edges towards
/// unplaced vertices.
spec fn crossover_state(
    child: Seq<usize>,
    table: utils::EdgeTable,
    not_removed: Seq<usize>,
    n: int,
) -> bool {
    &&& 0 <= n <= usize::MAX
    &&& table.wf()
    &&& table.size() == n
    &&& child.len() + not_removed.len() == n
    &&& forall|k: int| 0 <= k < child.len() ==> child[k] < n
    &&& forall|k: int| 0 <= k < not_removed.len() ==> not_removed[k] < n
    &&& child.no_duplicates()
    &&& not_removed.no_duplicates()
    &&& forall|v: int|
        0 <= v < n ==> (#[trigger] child.contains(v as usize) || not_removed.contains(v as usize))
    &&& forall|w: usize| !(child.contains(w) && #[trigger] not_removed.contains(w))
    &&& forall|x: int, y: int|
        #[trigger] table.count(x, y) >= 1 ==> 0 <= y < n && not_removed.contains(y as usize)
}

/// Appends `v` to the child and retires it: its edges leave the table and
/// it leaves the unplaced set.
fn place_vertex(
    child: &mut Vec<usize>,
    edge_table: &mut utils::EdgeTable,
    not_removed: &mut Vec<usize>,
    v: usize,
    Ghost(n): Ghost<int>,
)
    requires
        crossover_state(old(child)@, *old(edge_table), old(not_removed)@, n),
        old(not_removed)@.contains(v),
    ensures
        crossover_state(final(child)@, *final(edge_table), final(not_removed)@, n),
        final(child)@ == old(child)@.push(v),
        final(not_removed)@.len() == old(not_removed)@.len() - 1,
{
    let ghost oc = child@;
    let ghost onr = not_removed@;
    let ghost otab = *edge_table;
    child.push(v);
    utils::remove_edge(edge_table, v);
    remove_value(not_removed, v);
    proof {
        let i = choose|i: int|
            0 <= i < onr.len() && onr[i] == v && not_removed@ == onr.remove(i);
        lemma_push_contains(oc, v);
        assert(!oc.contains(v));
        lemma_push_no_duplicates(oc, v);
        lemma_remove_value(onr, i);
        assert((v as int) < n) by {
            assert(onr[i] < n);
        }
        assert forall|x: int, y: int| #[trigger] edge_table.count(x, y) >= 1 implies 0 <= y < n
            && not_removed@.contains(y as usize) by {
            if y == v as int {
                assert(edge_table.count(x, y) == 0);
            }
            assert(otab.count(x, y) >= 1);
            assert(0 <= y < n);
            assert(onr.contains(y as usize));
            assert(y as usize != v);
            assert(not_removed@.contains(y as usize));
        }
        assert forall|w: usize| !(child@.contains(w) && #[trigger] not_removed@.contains(w)) by {
            if w == v {
                assert(!not_removed@.contains(v));
            } else {
                if not_removed@.contains(w) {
                    assert(onr.contains(w));
                    assert(!oc.contains(w));
                }
            }
        }
        assert forall|u: int|
            0 <= u < n implies (#[trigger] child@.contains(u as usize) || not_removed@.contains(
            u as usize,
        )) by {
            if u as usize == v {
                assert(child@.contains(v));
            } else {
                assert(oc.contains(u as usize) || onr.contains(u as usize));
            }
        }
    }
}

/// A tour: a permutation of the vertices `0..num_alleles`.
pub struct Genotype {
    data: Vec<usize>,
}

impl View for Genotype {
    type V = Seq<usize>;

    closed spec fn view(&self) -> Seq<usize> {
        self.data@
    }
}

impl Genotype {
    /// Holds of every genotype that can be built: a genotype is always a
    /// valid permutation.
    #[verifier::type_invariant]
    pub open spec fn well_formed(self) -> bool {
        is_permutation(self@)
    }

    /// A uniformly random permutation of `0..num_alleles`, drawn by
    /// shuffling the identity tour.
    pub fn random(num_alleles: usize, rng: &mut rand::rngs::ThreadRng) -> (r: Genotype)
        requires
            num_alleles >= 1,
        ensures
            r@.len() == num_alleles,
            is_permutation(r@),
    {
        let mut data: Vec<usize> = Vec::new();
        let mut i: usize = 0;
        while i < num_alleles
            invariant
                i <= num_alleles,
                data@.len() == i as int,
                forall|k: int| 0 <= k < i ==> data@[k] == k,
            decreases num_alleles - i,
        {
            data.push(i);
            i += 1;
        }
        proof {
            assert forall|v: int| 0 <= v < data@.len() implies #[trigger] data@.contains(
                v as usize,
            ) by {
                assert(data@[v] == v as usize);
            }
            assert(is_permutation(data@));
        }
        let ghost pre = data@;
        shuffle(&mut data, rng);
        proof {
            lemma_multiset_permutation(pre, data@);
        }
        Genotype { data }
    }

    /// The tour as a plain vector of vertex indices.
    pub fn data(&self) -> (r: &Vec<usize>)
        ensures
            r@ == self@,
    {
        &self.data
    }

    pub fn num_alleles(&self) -> (r: usize)
        ensures
            r == self@.len(),
    {
        self.data.len()
    }

    /// The allele at the given position.
    pub fn allele(&self, pos: usize) -> (r: usize)
        requires
            pos < self@.len(),
        ensures
            r == self@[pos as int],
    {
        self.data[pos]
    }

    /// Reverses the closed range `pos1..=pos2`, returning a new genotype.
    /// Equal bounds reverse a single allele, which changes nothing.
    pub fn inversion_at(self, pos1: usize, pos2: usize) -> (r: Genotype)
        requires
            pos1 <= pos2 < self@.len(),
        ensures
            r@ == reversed_between(self@, pos1 as int, pos2 as int),
            r@.len() == self@.len(),
            pos1 == pos2 ==> r@ == self@,
            is_permutation(r@),
    {
        proof {
            use_type_invariant(&self);
        }
        let ghost orig = self.data@;
        let mut data = self.data;
        let mut lo = pos1;
        let mut hi = pos2;
        while lo < hi
            invariant
                pos1 <= lo,
                hi <= pos2,
                pos2 < orig.len(),
                lo - pos1 == pos2 - hi,
                lo <= hi + 1,
                data@.len() == orig.len(),
                forall|k: int| lo <= k <= hi ==> data@[k] == orig[k],
                forall|k: int|
                    (0 <= k < lo || hi < k < orig.len()) ==> data@[k] == reversed_between(
                        orig,
                        pos1 as int,
                        pos2 as int,
                    )[k],
            decreases hi + 1 - lo,
        {
            let a = data[lo];
            let b = data[hi];
            data.set(lo, b);
            data.set(hi, a);
            lo += 1;
            hi -= 1;
        }
        proof {
            assert(data@ =~= reversed_between(orig, pos1 as int, pos2 as int));
            lemma_reversed_between_multiset(orig, pos1 as int, pos2 as int);
            lemma_multiset_permutation(orig, data@);
            if pos1 == pos2 {
                assert(data@ =~= orig);
            }
        }
        Genotype { data }
    }

    /// Inversion mutation: picks two positions at random, orders them, and
    /// reverses the closed range between them.  The result is a new genotype
    /// of the same length.
    pub fn inversion_mutation(self, rng: &mut rand::rngs::ThreadRng) -> (r: Genotype)
        requires
            self@.len() >= 1,
        ensures
            r@.len() == self@.len(),
            is_permutation(r@),
            exists|p1: int, p2: int|
                0 <= p1 <= p2 < self@.len() && r@ == reversed_between(self@, p1, p2),
    {
        let ghost orig = self@;
        let n = self.data.len();
        let d1 = rand_below(rng, n);
        let d2 = rand_below(rng, n);
        let pos1 = if d1 <= d2 {
            d1
        } else {
            d2
        };
        let pos2 = if d1 <= d2 {
            d2
        } else {
            d1
        };
        let r = self.inversion_at(pos1, pos2);
        proof {
            assert(pos1 as int <= pos2 as int && (pos2 as int) < orig.len() && r@
                == reversed_between(orig, pos1 as int, pos2 as int));
        }
        r
    }

    /// Swaps the alleles at the two given positions, returning a new
    /// genotype.  Equal positions change nothing.
    pub fn swap_at(self, pos1: usize, pos2: usize) -> (r: Genotype)
        requires
            pos1 < self@.len(),
            pos2 < self@.len(),
        ensures
            r@ == self@.update(pos1 as int, self@[pos2 as int]).update(
                pos2 as int,
                self@[pos1 as int],
            ),
            r@.len() == self@.len(),
            pos1 == pos2 ==> r@ == self@,
            is_permutation(r@),
    {
        proof {
            use_type_invariant(&self);
        }
        let ghost orig = self.data@;
        let mut data = self.data;
        let a = data[pos1];
        let b = data[pos2];
        data.set(pos1, b);
        data.set(pos2, a);
        proof {
            broadcast use vstd::multiset::group_multiset_axioms;

            if pos1 == pos2 {
                assert(data@ =~= orig);
                assert(data@ =~= orig.update(pos1 as int, orig[pos2 as int]).update(
                    pos2 as int,
                    orig[pos1 as int],
                ));
            } else {
                let s1 = orig.update(pos1 as int, orig[pos2 as int]);
                assert(data@ =~= s1.update(pos2 as int, orig[pos1 as int]));
                assert(orig.contains(orig[pos1 as int]));
                assert(orig.contains(orig[pos2 as int]));
                assert(s1[pos2 as int] == orig[pos2 as int]);
                assert(data@.to_multiset() =~= orig.to_multiset());
            }
            lemma_multiset_permutation(orig, data@);
        }
        Genotype { data }
    }

    /// Edge-recombination crossover.  The child inherits city-to-city
    /// transitions of the parents where it can: it starts at a random
    /// vertex and repeatedly follows the edge table, preferring edges
    /// common to both parents, then neighbours with the fewest remaining
    /// choices; on a dead end it scans the child built so far, and as a
    /// last resort takes a random unplaced vertex.  Whatever tiers fire,
    /// the result is a permutation of the parents' length.
    pub fn edge_crossover(parent1: &Genotype, parent2: &Genotype, rng: &mut rand::rngs::ThreadRng) -> (r:
        Genotype)
        requires
            parent1@.len() == parent2@.len(),
            parent1@.len() >= 1,
        ensures
            r@.len() == parent1@.len(),
            is_permutation(r@),
    {
        proof {
            use_type_invariant(parent1);
            use_type_invariant(parent2);
        }
        let num_alleles = parent1.data.len();
        let ghost n = num_alleles as int;
        let mut edge_table = utils::construct_edge_table(&parent1.data, &parent2.data);
        let mut child: Vec<usize> = Vec::with_capacity(num_alleles);
        // The vertices not yet placed in the child, for the final fallback.
        let mut not_removed: Vec<usize> = Vec::new();
        let mut i: usize = 0;
        while i < num_alleles
            invariant
                i <= num_alleles,
                not_removed@.len() == i as int,
                forall|k: int| 0 <= k < i ==> not_removed@[k] == k,
            decreases num_alleles - i,
        {
            not_removed.push(i);
            i += 1;
        }
        proof {
            assert forall|v: int| 0 <= v < n implies (#[trigger] child@.contains(v as usize)
                || not_removed@.contains(v as usize)) by {
                assert(not_removed@[v] == v as usize);
            }
            assert forall|x: int, y: int| #[trigger] edge_table.count(x, y) >= 1 implies 0 <= y
                < n && not_removed@.contains(y as usize) by {
                edge_table.lemma_count_range(x, y);
                assert(not_removed@[y] == y as usize);
            }
            assert(crossover_state(child@, edge_table, not_removed@, n));
        }
        let first = rand_below(rng, num_alleles);
        proof {
            assert(not_removed@[first as int] == first);
        }
        let mut allele = first;
        place_vertex(&mut child, &mut edge_table, &mut not_removed, allele, Ghost(n));
        while child.len() != num_alleles
            invariant
                crossover_state(child@, edge_table, not_removed@, n),
                num_alleles as int == n,
                1 <= child@.len() <= n,
                (allele as int) < n,
            decreases n - child@.len(),
        {
            let mut vertex_opt: Option<usize> = utils::try_select_adjacent(
                &edge_table,
                allele,
                rng,
            );
            proof {
                if let Some(u) = vertex_opt {
                    assert(edge_table.count(allele as int, u as int) >= 1);
                }
            }
            // On a dead end, comb through the child so far for remaining
            // edges, and failing that take a random unplaced vertex.
            let mut try_idx: usize = 0;
            while vertex_opt.is_none()
                invariant
                    crossover_state(child@, edge_table, not_removed@, n),
                    num_alleles as int == n,
                    1 <= child@.len() <= n,
                    child@.len() < n,
                    try_idx <= child@.len(),
                    match vertex_opt {
                        Some(u) => not_removed@.contains(u),
                        None => true,
                    },
                decreases (if vertex_opt.is_some() {
                    0int
                } else {
                    1int
                }), child@.len() - try_idx,
            {
                if try_idx < child.len() {
                    let probe = child[try_idx];
                    vertex_opt = utils::try_select_adjacent(&edge_table, probe, rng);
                    try_idx += 1;
                    proof {
                        if let Some(u) = vertex_opt {
                            assert(edge_table.count(probe as int, u as int) >= 1);
                        }
                    }
                } else {
                    let pick = utils::select_random(&not_removed, rng);
                    vertex_opt = Some(pick);
                }
            }
            let v = vertex_opt.unwrap();
            allele = v;
            proof {
                let j = choose|j: int| 0 <= j < not_removed@.len() && not_removed@[j] == v;
                assert(not_removed@[j] < n);
            }
            place_vertex(&mut child, &mut edge_table, &mut not_removed, v, Ghost(n));
        }
        proof {
            assert forall|v: int| 0 <= v < child@.len() implies #[trigger] child@.contains(
                v as usize,
            ) by {
                assert(!not_removed@.contains(v as usize));
            }
            assert(is_permutation(child@));
        }
        Genotype { data: child }
    }

    /// Swap mutation: swaps the alleles at two independently drawn
    /// positions (which may coincide, a no-op).
    pub fn swap_mutation(self, rng: &mut rand::rngs::ThreadRng) -> (r: Genotype)
        requires
            self@.len() >= 1,
        ensures
            r@.len() == self@.len(),
            is_permutation(r@),
            exists|p1: int, p2: int|
                0 <= p1 < self@.len() && 0 <= p2 < self@.len() && r@ == self@.update(
                    p1,
                    self@[p2],
                ).update(p2, self@[p1]),
    {
        let ghost orig = self@;
        let n = self.data.len();
        let pos1 = rand_below(rng, n);
        let pos2 = rand_below(rng, n);
        let r = self.swap_at(pos1, pos2);
        proof {
            assert((pos1 as int) < orig.len() && (pos2 as int) < orig.len() && r@ == orig.update(
                pos1 as int,
                orig[pos2 as int],
            ).update(pos2 as int, orig[pos1 as int]));
        }
        r
    }
}

} // verus!
