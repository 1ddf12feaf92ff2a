//! The genetic algorithm.
//!
//! [`Pool`] holds a fixed-size population of genes, each paired with the
//! fitness score its fitness function gave it, and advances it one generation
//! at a time: fitness-proportionate selection without replacement, crossover
//! and mutation seeded from the selected quarter, and replenishment with
//! freshly generated genes. The pool is generic over any [`Gene`]
//! implementation and over the fitness closure it was constructed with.

use vstd::prelude::*;
use vstd::std_specs::cmp::PartialEqSpec;
use crate::rng::RandSource;

verus! {

broadcast use vstd::multiset::group_multiset_axioms, vstd::seq_lib::group_to_multiset_ensures;

/// A type that can be used as a gene: it supports random generation,
/// mutation, and crossover, each drawing from a caller-supplied random
/// source.
pub trait Gene: Sized {
    /// Generate a new random gene. This is initially used to fill the pool.
    fn generate<R: RandSource>(rng: &mut R) -> Self;

    /// Generate a new gene that is a mutation of this gene.
    fn mutate<R: RandSource>(&self, rng: &mut R) -> Self;

    /// Cross this gene with another gene to produce a child.
    fn cross<R: RandSource>(&self, other: &Self, rng: &mut R) -> Self;
}

/// A pairing of a gene and its fitness, plus an internal flag marking a gene
/// selected into the next generation. Two pairs stand for the same gene
/// exactly when the genes match: the score and the flag carry no identity.
#[derive(Clone, Copy, Debug)]
pub struct GenePair<G> {
    /// The gene itself.
    pub gene: G,
    /// The fitness its pool's fitness function returned for it.
    pub fitness: u64,
    /// Whether the gene has been selected during the current generation step.
    pub selected: bool,
}

impl<G: PartialEq> GenePair<G> {
    /// Whether the two pairs wrap equal genes; the fitness and the selection
    /// flag are ignored, so pairs of equal genes match whatever their scores.
    pub fn same_gene(&self, other: &GenePair<G>) -> (r: bool)
        ensures
            G::obeys_eq_spec() ==> r == self.gene.eq_spec(&other.gene),
    {
        self.gene == other.gene
    }
}

/// The sum of the fitness values in a gene-fitness sequence.
pub open spec fn sum_fits<T>(s: Seq<(T, u64)>) -> int
    decreases s.len(),
{
    if s.len() == 0 {
        0
    } else {
        sum_fits(s.drop_last()) + s.last().1
    }
}

/// Every fitness is a `u64`, so the sum is never negative.
pub proof fn lemma_sum_fits_nonneg<T>(s: Seq<(T, u64)>)
    ensures
        0 <= sum_fits(s),
    decreases s.len(),
{
    if s.len() > 0 {
        lemma_sum_fits_nonneg(s.drop_last());
    }
}

/// Summing a concatenation sums both halves.
pub proof fn lemma_sum_fits_concat<T>(a: Seq<(T, u64)>, b: Seq<(T, u64)>)
    ensures
        sum_fits(a + b) == sum_fits(a) + sum_fits(b),
    decreases b.len(),
{
    if b.len() == 0 {
        assert(a + b =~= a);
    } else {
        lemma_sum_fits_concat(a, b.drop_last());
        assert((a + b).drop_last() =~= a + b.drop_last());
        assert((a + b).last() == b.last());
    }
}

/// Extending a prefix by one element adds that element's fitness.
pub proof fn lemma_sum_fits_take_snoc<T>(s: Seq<(T, u64)>, k: int)
    requires
        0 <= k < s.len(),
    ensures
        sum_fits(s.take(k + 1)) == sum_fits(s.take(k)) + s[k].1,
{
    assert(s.take(k + 1).drop_last() =~= s.take(k));
    assert(s.take(k + 1).last() == s[k]);
}

/// A one-element sequence sums to that element's fitness.
pub proof fn lemma_sum_fits_singleton<T>(p: (T, u64))
    ensures
        sum_fits(seq![p]) == p.1,
{
    assert(seq![p].drop_last() =~= Seq::<(T, u64)>::empty());
    assert(sum_fits(Seq::<(T, u64)>::empty()) == 0);
}

/// Peeling the first element off a suffix takes its fitness off the sum.
pub proof fn lemma_sum_fits_skip_step<T>(s: Seq<(T, u64)>, i: int)
    requires
        0 <= i < s.len(),
    ensures
        sum_fits(s.skip(i)) == s[i].1 + sum_fits(s.skip(i + 1)),
{
    assert(s.skip(i) =~= seq![s[i]] + s.skip(i + 1));
    lemma_sum_fits_concat(seq![s[i]], s.skip(i + 1));
    lemma_sum_fits_singleton(s[i]);
}

/// Removing an element takes exactly its fitness out of the sum.
pub proof fn lemma_sum_fits_remove<T>(s: Seq<(T, u64)>, i: int)
    requires
        0 <= i < s.len(),
    ensures
        sum_fits(s.remove(i)) == sum_fits(s) - s[i].1,
{
    assert(s =~= s.take(i) + seq![s[i]] + s.skip(i + 1));
    assert(s.remove(i) =~= s.take(i) + s.skip(i + 1));
    lemma_sum_fits_concat(s.take(i) + seq![s[i]], s.skip(i + 1));
    lemma_sum_fits_concat(s.take(i), seq![s[i]]);
    lemma_sum_fits_concat(s.take(i), s.skip(i + 1));
    assert(sum_fits(seq![s[i]]) == s[i].1) by {
        assert(seq![s[i]].drop_last() =~= Seq::<(T, u64)>::empty());
        assert(sum_fits(Seq::<(T, u64)>::empty()) == 0);
    }
}

/// A pool of genes.
pub struct Pool<T, F> {
    /// The genes in the pool paired with their fitness, in no particular
    /// order.
    pub genes: Vec<(T, u64)>,
    /// The back-buffer of genes, used when stirring and mutating the pool.
    back_genes: Vec<(T, u64)>,
    /// The fitness function.
    fitness: F,
}

impl<T, F> Pool<T, F> where T: Gene + Clone, F: Fn(&T) -> u64 {
    /// The fitness function the pool was constructed with.
    pub closed spec fn fitness_fn(self) -> F {
        self.fitness
    }

    /// The population, as a sequence of gene-fitness pairs.
    pub closed spec fn genes_view(self) -> Seq<(T, u64)> {
        self.genes@
    }

    /// The fitness function accepts every gene.
    pub open spec fn fit_callable(f: F) -> bool {
        forall|g: T| call_requires(f, (&g,))
    }

    /// Every score in the sequence is one the fitness function can return
    /// for the gene it is paired with.
    pub open spec fn seq_fresh(f: F, s: Seq<(T, u64)>) -> bool {
        forall|i: int|
            0 <= i < s.len() ==> call_ensures(f, (&s[i].0,), #[trigger] s[i].1)
    }

    /// Every stored score is one the fitness function can return for the gene
    /// it is paired with: no individual carries a stale or invented score.
    pub open spec fn all_fresh(self) -> bool {
        Self::seq_fresh(self.fitness_fn(), self.genes_view())
    }

    /// The gene is a possible output of the generator, drawing from some
    /// state of the random source.
    pub open spec fn generated_gene<R: RandSource>(g: T) -> bool {
        exists|r0: &mut R| call_ensures(T::generate::<R>, (r0,), g)
    }

    /// The gene is a possible crossing of the two parents.
    pub open spec fn crossed_gene<R: RandSource>(a: T, b: T, g: T) -> bool {
        exists|r0: &mut R| call_ensures(T::cross::<R>, (&a, &b, r0), g)
    }

    /// The gene is a possible mutation of the parent.
    pub open spec fn mutated_gene<R: RandSource>(a: T, g: T) -> bool {
        exists|r0: &mut R| call_ensures(T::mutate::<R>, (&a, r0), g)
    }

    /// Every gene in the sequence is a possible output of the generator.
    pub open spec fn seq_generated<R: RandSource>(s: Seq<(T, u64)>) -> bool {
        forall|j: int| 0 <= j < s.len() ==> Self::generated_gene::<R>(#[trigger] s[j].0)
    }

    /// Create and fill a pool of the given size: every individual comes from
    /// the gene generator and is scored as it is added.
    pub fn new<R: RandSource>(size: usize, fitness: F, rng: &mut R) -> (pool: Pool<T, F>)
        requires
            size >= 1,
            Self::fit_callable(fitness),
        ensures
            pool.genes_view().len() == size,
            pool.all_fresh(),
            pool.fitness_fn() == fitness,
            Self::seq_generated::<R>(pool.genes_view()),
    {
        let mut pool = Pool {
            genes: Vec::with_capacity(size),
            back_genes: Vec::with_capacity(size),
            fitness: fitness,
        };
        while pool.genes.len() < size
            invariant
                Self::fit_callable(pool.fitness),
                pool.fitness == fitness,
                pool.genes@.len() <= size,
                Self::seq_fresh(pool.fitness, pool.genes@),
                Self::seq_generated::<R>(pool.genes@),
            decreases size - pool.genes@.len(),
        {
            let gene = T::generate(rng);
            proof {
                assert(Self::generated_gene::<R>(gene));
            }
            let fit = (pool.fitness)(&gene);
            let ghost prev = pool.genes@;
            let ghost gg = gene;
            pool.genes.push((gene, fit));
            proof {
                assert forall|i: int|
                    0 <= i < pool.genes@.len() implies call_ensures(
                    pool.fitness,
                    (&pool.genes@[i].0,),
                    #[trigger] pool.genes@[i].1,
                ) by {
                    if i < prev.len() {
                        assert(call_ensures(pool.fitness, (&prev[i].0,), prev[i].1));
                        assert(pool.genes@[i] == prev[i]);
                    } else {
                        assert(pool.genes@[i] == (gg, fit));
                    }
                }
                assert forall|i: int|
                    0 <= i < pool.genes@.len() implies Self::generated_gene::<R>(
                    #[trigger] pool.genes@[i].0,
                ) by {
                    if i < prev.len() {
                        assert(Self::generated_gene::<R>(prev[i].0));
                        assert(pool.genes@[i] == prev[i]);
                    } else {
                        assert(pool.genes@[i] == (gg, fit));
                        assert(pool.genes@[i].0 == gg);
                    }
                }
            }
        }
        pool
    }

    /// The first `k` individuals of `now` were taken, pair and score
    /// together, from the population `orig`, and `k` stays within a quarter
    /// of that population's size.
    pub open spec fn selected_prefix(orig: Seq<(T, u64)>, now: Seq<(T, u64)>, k: int) -> bool {
        0 <= k <= orig.len() / 4 && k <= now.len() && (forall|i: int|
            0 <= i < k ==> orig.contains(#[trigger] now[i]))
    }

    /// The gene is a crossing of `a` with some gene of the selected
    /// population `sel`.
    pub open spec fn cross_of_selected<R: RandSource>(sel: Seq<(T, u64)>, a: T, g: T) -> bool {
        exists|w: int| 0 <= w < sel.len() && #[trigger] Self::crossed_gene::<R>(a, sel[w].0, g)
    }

    /// Position `j` of `now` holds a crossing of the selected gene at
    /// position `j - k` with a selected partner.
    pub open spec fn cross_slot<R: RandSource>(now: Seq<(T, u64)>, k: int, j: int) -> bool {
        exists|w: int| 0 <= w < k && #[trigger] Self::crossed_gene::<R>(
            now[j - k].0,
            now[w].0,
            now[j].0,
        )
    }

    /// How one generation relates to the population it replaced, for a
    /// selection count `k`: the first `k` pairs were moved verbatim — score
    /// included — from the old population, without replacement (as a
    /// multiset they are contained in it), and selection stops short of the
    /// quarter only by draining the old population's whole fitness mass; the
    /// next `k` genes each cross a selected gene, in order, with a selected
    /// partner; the next `k` are mutations of the selected genes in order;
    /// and every gene after those comes from the generator.
    pub open spec fn generation_of<R: RandSource>(
        orig: Seq<(T, u64)>,
        now: Seq<(T, u64)>,
        k: int,
    ) -> bool {
        &&& Self::selected_prefix(orig, now, k)
        &&& 3 * k <= now.len()
        &&& now.take(k).to_multiset().subset_of(orig.to_multiset())
        &&& (k == orig.len() / 4 || sum_fits(now.take(k)) == sum_fits(orig))
        &&& (forall|j: int| k <= j < 2 * k ==> #[trigger] Self::cross_slot::<R>(now, k, j))
        &&& (forall|j: int|
            2 * k <= j < 3 * k ==> #[trigger] Self::mutated_gene::<R>(
                now[j - 2 * k].0,
                now[j].0,
            ))
        &&& (forall|j: int|
            3 * k <= j < now.len() ==> #[trigger] Self::generated_gene::<R>(now[j].0))
    }

    /// Evolve one generation, preserving the population size. The current
    /// population moves into the back-buffer; up to a quarter of the new
    /// population is selected from it by fitness-proportionate sampling
    /// without replacement (stopping early only if the buffer or the
    /// remaining total fitness is exhausted); each selected gene then seeds
    /// one crossover child and one mutation; and freshly generated genes
    /// fill the remainder. Every new individual is scored as it is added, so
    /// the whole population leaves with fresh fitness values, and the new
    /// population stands to the old one as [`Pool::generation_of`] states.
    pub fn evolve<R: RandSource>(&mut self, rng: &mut R)
        requires
            Self::fit_callable(old(self).fitness_fn()),
            old(self).all_fresh(),
        ensures
            final(self).genes_view().len() == old(self).genes_view().len(),
            final(self).all_fresh(),
            final(self).fitness_fn() == old(self).fitness_fn(),
            exists|k: int|
                Self::generation_of::<R>(old(self).genes_view(), final(self).genes_view(), k),
    {
        // The pool size to maintain.
        let len = self.genes.len();
        let ghost fitness0 = self.fitness;

        // Swap into the back buffer so we can assemble a new pool of genes.
        core::mem::swap(&mut self.genes, &mut self.back_genes);
        let ghost back0 = self.back_genes@;

        // Sum up the total fitness.
        let mut total: u128 = 0;
        let mut i: usize = 0;
        while i < self.back_genes.len()
            invariant
                self.fitness == fitness0,
                i <= self.back_genes@.len(),
                total == sum_fits(self.back_genes@.take(i as int)),
                total <= (i as int) * (u64::MAX as int),
                self.back_genes@.len() == len,
                Self::seq_fresh(self.fitness, self.back_genes@),
            decreases self.back_genes@.len() - i,
        {
            proof {
                lemma_sum_fits_take_snoc(self.back_genes@, i as int);
            }
            total = total + (self.back_genes[i].1 as u128);
            i = i + 1;
        }
        proof {
            assert(self.back_genes@.take(len as int) =~= self.back_genes@);
        }

        // Fill the first fourth of the pool by stochastic selection (higher
        // fitness = more likely to be selected).
        let quarter = len / 4;
        self.genes.clear();
        proof {
            assert(self.genes@ =~= Seq::<(T, u64)>::empty());
            assert(sum_fits(self.genes@) == 0);
            assert forall|x: (T, u64)|
                self.genes@.to_multiset().add(self.back_genes@.to_multiset()).count(x)
                    == back0.to_multiset().count(x) by {
                self.genes@.to_multiset_ensures();
                assert(!self.genes@.contains(x));
                assert(self.genes@.to_multiset().count(x) == 0);
            }
            assert(self.genes@.to_multiset().add(self.back_genes@.to_multiset())
                =~= back0.to_multiset());
        }
        while self.genes.len() < quarter && self.back_genes.len() > 0 && total > 0
            invariant
                Self::fit_callable(self.fitness),
                self.fitness == fitness0,
                quarter == len / 4,
                total == sum_fits(self.back_genes@),
                sum_fits(self.genes@) + total as int == sum_fits(back0),
                self.genes@.to_multiset().add(self.back_genes@.to_multiset())
                    == back0.to_multiset(),
                self.genes@.len() <= quarter,
                Self::seq_fresh(self.fitness, self.genes@),
                Self::seq_fresh(self.fitness, self.back_genes@),
                forall|j: int|
                    0 <= j < self.back_genes@.len() ==> back0.contains(
                        #[trigger] self.back_genes@[j],
                    ),
                forall|j: int| 0 <= j < self.genes@.len() ==> back0.contains(
                    #[trigger] self.genes@[j],
                ),
            decreases quarter - self.genes@.len(),
        {
            // Pick a fitness offset within the remaining total.
            let r = rng.below(total);
            // Walk the back-buffer to find the gene under that offset.
            let mut i: usize = 0;
            let mut rem: u128 = r;
            let m = self.back_genes.len();
            proof {
                assert(self.back_genes@.take(0) =~= Seq::<(T, u64)>::empty());
                assert(sum_fits(Seq::<(T, u64)>::empty()) == 0);
                assert(self.back_genes@.skip(0) =~= self.back_genes@);
            }
            while (self.back_genes[i].1 as u128) <= rem
                invariant
                    m == self.back_genes@.len(),
                    i < m,
                    (rem as int) == (r as int) - sum_fits(self.back_genes@.take(i as int)),
                    (rem as int) < sum_fits(self.back_genes@.skip(i as int)),
                decreases self.back_genes@.len() - i,
            {
                proof {
                    lemma_sum_fits_take_snoc(self.back_genes@, i as int);
                    lemma_sum_fits_skip_step(self.back_genes@, i as int);
                }
                rem = rem - (self.back_genes[i].1 as u128);
                i = i + 1;
                proof {
                    if i == self.back_genes@.len() {
                        assert(self.back_genes@.skip(i as int) =~= Seq::<(T, u64)>::empty());
                        assert(sum_fits(Seq::<(T, u64)>::empty()) == 0);
                    }
                }
            }
            // Subtract its fitness from the total and move the gene from
            // back_genes to genes.
            proof {
                lemma_sum_fits_remove(self.back_genes@, i as int);
                lemma_sum_fits_nonneg(self.back_genes@.remove(i as int));
            }
            let picked_fit = self.back_genes[i].1;
            total = total - (picked_fit as u128);
            let ghost prev_back = self.back_genes@;
            let pair = self.back_genes.remove(i);
            let ghost pg = pair;
            let ghost prev = self.genes@;
            self.genes.push(pair);
            proof {
                assert forall|j: int|
                    0 <= j < self.back_genes@.len() implies call_ensures(
                    self.fitness,
                    (&self.back_genes@[j].0,),
                    #[trigger] self.back_genes@[j].1,
                ) by {
                    if j < i {
                        assert(call_ensures(self.fitness, (&prev_back[j].0,), prev_back[j].1));
                        assert(self.back_genes@[j] == prev_back[j]);
                    } else {
                        assert(call_ensures(
                            self.fitness,
                            (&prev_back[j + 1].0,),
                            prev_back[j + 1].1,
                        ));
                        assert(self.back_genes@[j] == prev_back[j + 1]);
                    }
                }
                assert forall|j: int|
                    0 <= j < self.genes@.len() implies call_ensures(
                    self.fitness,
                    (&self.genes@[j].0,),
                    #[trigger] self.genes@[j].1,
                ) by {
                    if j < prev.len() {
                        assert(call_ensures(self.fitness, (&prev[j].0,), prev[j].1));
                        assert(self.genes@[j] == prev[j]);
                    } else {
                        assert(call_ensures(self.fitness, (&prev_back[i as int].0,), prev_back[i as int].1));
                        assert(self.genes@[j] == pg);
                        assert(pg == prev_back[i as int]);
                    }
                }
                assert forall|j: int|
                    0 <= j < self.back_genes@.len() implies back0.contains(
                    #[trigger] self.back_genes@[j],
                ) by {
                    if j < i {
                        assert(self.back_genes@[j] == prev_back[j]);
                        assert(back0.contains(prev_back[j]));
                    } else {
                        assert(self.back_genes@[j] == prev_back[j + 1]);
                        assert(back0.contains(prev_back[j + 1]));
                    }
                }
                assert forall|j: int|
                    0 <= j < self.genes@.len() implies back0.contains(
                    #[trigger] self.genes@[j],
                ) by {
                    if j < prev.len() {
                        assert(self.genes@[j] == prev[j]);
                        assert(back0.contains(prev[j]));
                    } else {
                        assert(self.genes@[j] == pg);
                        assert(pg == prev_back[i as int]);
                        assert(back0.contains(prev_back[i as int]));
                    }
                }
                // The moved pair keeps the sums and the multisets in balance.
                assert(self.genes@.drop_last() =~= prev);
                assert(self.genes@.last() == pg);
                assert(sum_fits(self.genes@) == sum_fits(prev) + pg.1);
                prev_back.to_multiset_ensures();
                prev.to_multiset_ensures();
                assert(prev_back.contains(prev_back[i as int]));
                assert(prev_back.to_multiset().count(pg) > 0);
                assert(self.back_genes@.to_multiset() =~= prev_back.to_multiset().remove(pg));
                assert(self.genes@.to_multiset() =~= prev.to_multiset().insert(pg));
                assert forall|x: (T, u64)|
                    self.genes@.to_multiset().add(self.back_genes@.to_multiset()).count(x)
                        == back0.to_multiset().count(x) by {
                    assert(prev.to_multiset().add(prev_back.to_multiset()).count(x)
                        == back0.to_multiset().count(x));
                }
                assert(self.genes@.to_multiset().add(self.back_genes@.to_multiset())
                    =~= back0.to_multiset());
            }
        }
        // The number of genes that actually got selected.
        let num_selected = self.genes.len();
        let ghost sel0 = self.genes@;
        proof {
            assert(4 * ((len as int) / 4) <= len as int) by (nonlinear_arith);
            // The selected pairs are a sub-multiset of the old population:
            // selection moved them out one by one, without replacement.
            assert forall|x: (T, u64)|
                sel0.to_multiset().count(x) <= back0.to_multiset().count(x) by {
                assert(sel0.to_multiset().add(self.back_genes@.to_multiset()).count(x)
                    == back0.to_multiset().count(x));
            }
            assert(sel0.to_multiset().subset_of(back0.to_multiset()));
            // Selection stops short of the quarter only with the whole
            // fitness mass drained into the selected prefix.
            if self.genes.len() != quarter {
                if self.back_genes.len() == 0 {
                    assert(self.back_genes@ =~= Seq::<(T, u64)>::empty());
                    assert(sum_fits(self.back_genes@) == 0);
                }
                assert(total == 0);
                assert(sum_fits(sel0) == sum_fits(back0));
            }
            assert(num_selected as int == back0.len() / 4 || sum_fits(sel0) == sum_fits(back0));
        }

        // Fill the next fourth with crosses of the selected genes.
        let mut i: usize = 0;
        while i < num_selected
            invariant
                Self::fit_callable(self.fitness),
                self.fitness == fitness0,
                num_selected <= quarter,
                quarter == len / 4,
                4 * ((len as int) / 4) <= len as int,
                self.genes@.len() == num_selected + i,
                i <= num_selected,
                Self::seq_fresh(self.fitness, self.genes@),
                forall|j: int| 0 <= j < num_selected ==> back0.contains(
                    #[trigger] self.genes@[j],
                ),
                num_selected as int == sel0.len(),
                self.genes@.take(num_selected as int) == sel0,
                forall|j: int|
                    num_selected <= j < self.genes@.len() ==> Self::cross_of_selected::<R>(
                        sel0,
                        sel0[j - num_selected].0,
                        #[trigger] self.genes@[j].0,
                    ),
            decreases num_selected - i,
        {
            // Pick a random cross partner among the selected genes.
            let w = rng.below(num_selected as u128) as usize;
            let crossed_gene = self.genes[i].0.cross(&self.genes[w].0, rng);
            proof {
                assert(self.genes@.take(num_selected as int)[i as int] == self.genes@[i as int]);
                assert(self.genes@.take(num_selected as int)[w as int] == self.genes@[w as int]);
                assert(sel0[i as int] == self.genes@[i as int]);
                assert(sel0[w as int] == self.genes@[w as int]);
                assert(Self::crossed_gene::<R>(sel0[i as int].0, sel0[w as int].0, crossed_gene));
                assert(Self::cross_of_selected::<R>(sel0, sel0[i as int].0, crossed_gene));
            }
            let crossed_fit = (self.fitness)(&crossed_gene);
            let ghost prev = self.genes@;
            let ghost cg = crossed_gene;
            self.genes.push((crossed_gene, crossed_fit));
            proof {
                assert forall|j: int|
                    0 <= j < self.genes@.len() implies call_ensures(
                    self.fitness,
                    (&self.genes@[j].0,),
                    #[trigger] self.genes@[j].1,
                ) by {
                    if j < prev.len() {
                        assert(call_ensures(self.fitness, (&prev[j].0,), prev[j].1));
                        assert(self.genes@[j] == prev[j]);
                    } else {
                        assert(self.genes@[j] == (cg, crossed_fit));
                    }
                }
                assert forall|j: int|
                    0 <= j < num_selected implies back0.contains(#[trigger] self.genes@[j]) by {
                    assert(self.genes@[j] == prev[j]);
                    assert(back0.contains(prev[j]));
                }
                assert(self.genes@.take(num_selected as int) =~= prev.take(num_selected as int));
                assert forall|j: int|
                    num_selected <= j < self.genes@.len() implies Self::cross_of_selected::<R>(
                    sel0,
                    sel0[j - num_selected].0,
                    #[trigger] self.genes@[j].0,
                ) by {
                    if j < prev.len() {
                        assert(Self::cross_of_selected::<R>(
                            sel0,
                            sel0[j - num_selected].0,
                            prev[j].0,
                        ));
                        assert(self.genes@[j] == prev[j]);
                    } else {
                        assert(self.genes@[j] == (cg, crossed_fit));
                        assert(self.genes@[j].0 == cg);
                    }
                }
            }
            i = i + 1;
        }

        // Fill the next fourth with mutations of the selected genes.
        let mut i: usize = 0;
        while i < num_selected
            invariant
                Self::fit_callable(self.fitness),
                self.fitness == fitness0,
                num_selected <= quarter,
                quarter == len / 4,
                4 * ((len as int) / 4) <= len as int,
                self.genes@.len() == 2 * num_selected + i,
                i <= num_selected,
                Self::seq_fresh(self.fitness, self.genes@),
                forall|j: int| 0 <= j < num_selected ==> back0.contains(
                    #[trigger] self.genes@[j],
                ),
                num_selected as int == sel0.len(),
                self.genes@.take(num_selected as int) == sel0,
                forall|j: int|
                    num_selected <= j < 2 * num_selected ==> Self::cross_of_selected::<R>(
                        sel0,
                        sel0[j - num_selected].0,
                        #[trigger] self.genes@[j].0,
                    ),
                forall|j: int|
                    2 * num_selected <= j < self.genes@.len() ==> Self::mutated_gene::<R>(
                        sel0[j - 2 * num_selected].0,
                        #[trigger] self.genes@[j].0,
                    ),
            decreases num_selected - i,
        {
            let mutated_gene = self.genes[i].0.mutate(rng);
            proof {
                assert(self.genes@.take(num_selected as int)[i as int] == self.genes@[i as int]);
                assert(sel0[i as int] == self.genes@[i as int]);
                assert(Self::mutated_gene::<R>(sel0[i as int].0, mutated_gene));
            }
            let mutated_fit = (self.fitness)(&mutated_gene);
            let ghost prev = self.genes@;
            let ghost mg = mutated_gene;
            self.genes.push((mutated_gene, mutated_fit));
            proof {
                assert forall|j: int|
                    0 <= j < self.genes@.len() implies call_ensures(
                    self.fitness,
                    (&self.genes@[j].0,),
                    #[trigger] self.genes@[j].1,
                ) by {
                    if j < prev.len() {
                        assert(call_ensures(self.fitness, (&prev[j].0,), prev[j].1));
                        assert(self.genes@[j] == prev[j]);
                    } else {
                        assert(self.genes@[j] == (mg, mutated_fit));
                    }
                }
                assert forall|j: int|
                    0 <= j < num_selected implies back0.contains(#[trigger] self.genes@[j]) by {
                    assert(self.genes@[j] == prev[j]);
                    assert(back0.contains(prev[j]));
                }
                assert(self.genes@.take(num_selected as int) =~= prev.take(num_selected as int));
                assert forall|j: int|
                    num_selected <= j < 2 * num_selected implies Self::cross_of_selected::<R>(
                    sel0,
                    sel0[j - num_selected].0,
                    #[trigger] self.genes@[j].0,
                ) by {
                    assert(Self::cross_of_selected::<R>(sel0, sel0[j - num_selected].0, prev[j].0));
                    assert(self.genes@[j] == prev[j]);
                }
                assert forall|j: int|
                    2 * num_selected <= j < self.genes@.len() implies Self::mutated_gene::<R>(
                    sel0[j - 2 * num_selected].0,
                    #[trigger] self.genes@[j].0,
                ) by {
                    if j < prev.len() {
                        assert(Self::mutated_gene::<R>(sel0[j - 2 * num_selected].0, prev[j].0));
                        assert(self.genes@[j] == prev[j]);
                    } else {
                        assert(self.genes@[j] == (mg, mutated_fit));
                        assert(self.genes@[j].0 == mg);
                    }
                }
            }
            i = i + 1;
        }

        // Fill the last fourth by generating new genes.
        while self.genes.len() < len
            invariant
                Self::fit_callable(self.fitness),
                self.fitness == fitness0,
                self.genes@.len() <= len,
                3 * num_selected <= self.genes@.len(),
                num_selected <= quarter,
                quarter == len / 4,
                Self::seq_fresh(self.fitness, self.genes@),
                forall|j: int| 0 <= j < num_selected ==> back0.contains(
                    #[trigger] self.genes@[j],
                ),
                num_selected as int == sel0.len(),
                self.genes@.take(num_selected as int) == sel0,
                forall|j: int|
                    num_selected <= j < 2 * num_selected ==> Self::cross_of_selected::<R>(
                        sel0,
                        sel0[j - num_selected].0,
                        #[trigger] self.genes@[j].0,
                    ),
                forall|j: int|
                    2 * num_selected <= j < 3 * num_selected ==> Self::mutated_gene::<R>(
                        sel0[j - 2 * num_selected].0,
                        #[trigger] self.genes@[j].0,
                    ),
                forall|j: int|
                    3 * num_selected <= j < self.genes@.len() ==> Self::generated_gene::<R>(
                        #[trigger] self.genes@[j].0,
                    ),
            decreases len - self.genes@.len(),
        {
            let generated_gene = T::generate(rng);
            proof {
                assert(Self::generated_gene::<R>(generated_gene));
            }
            let generated_fit = (self.fitness)(&generated_gene);
            let ghost prev = self.genes@;
            let ghost gg = generated_gene;
            self.genes.push((generated_gene, generated_fit));
            proof {
                assert forall|j: int|
                    0 <= j < self.genes@.len() implies call_ensures(
                    self.fitness,
                    (&self.genes@[j].0,),
                    #[trigger] self.genes@[j].1,
                ) by {
                    if j < prev.len() {
                        assert(call_ensures(self.fitness, (&prev[j].0,), prev[j].1));
                        assert(self.genes@[j] == prev[j]);
                    } else {
                        assert(self.genes@[j] == (gg, generated_fit));
                    }
                }
                assert forall|j: int|
                    0 <= j < num_selected implies back0.contains(#[trigger] self.genes@[j]) by {
                    assert(self.genes@[j] == prev[j]);
                    assert(back0.contains(prev[j]));
                }
                assert(self.genes@.take(num_selected as int) =~= prev.take(num_selected as int));
                assert forall|j: int|
                    num_selected <= j < 2 * num_selected implies Self::cross_of_selected::<R>(
                    sel0,
                    sel0[j - num_selected].0,
                    #[trigger] self.genes@[j].0,
                ) by {
                    assert(Self::cross_of_selected::<R>(sel0, sel0[j - num_selected].0, prev[j].0));
                    assert(self.genes@[j] == prev[j]);
                }
                assert forall|j: int|
                    2 * num_selected <= j < 3 * num_selected implies Self::mutated_gene::<R>(
                    sel0[j - 2 * num_selected].0,
                    #[trigger] self.genes@[j].0,
                ) by {
                    assert(Self::mutated_gene::<R>(sel0[j - 2 * num_selected].0, prev[j].0));
                    assert(self.genes@[j] == prev[j]);
                }
                assert forall|j: int|
                    3 * num_selected <= j < self.genes@.len() implies Self::generated_gene::<R>(
                    #[trigger] self.genes@[j].0,
                ) by {
                    if j < prev.len() {
                        assert(Self::generated_gene::<R>(prev[j].0));
                        assert(self.genes@[j] == prev[j]);
                    } else {
                        assert(self.genes@[j] == (gg, generated_fit));
                        assert(self.genes@[j].0 == gg);
                    }
                }
            }
        }
        proof {
            assert(back0 == old(self).genes_view());
            let ns = num_selected as int;
            assert(Self::selected_prefix(old(self).genes_view(), self.genes@, ns));
            assert forall|x: int| 0 <= x < ns implies #[trigger] sel0[x] == self.genes@[x] by {
                assert(self.genes@.take(ns)[x] == self.genes@[x]);
            }
            // The verbatim prefix carries the recorded multiset and fitness
            // mass facts over to the final population.
            assert(self.genes@.take(ns) =~= sel0);
            assert(self.genes@.take(ns).to_multiset().subset_of(back0.to_multiset()));
            assert(ns == back0.len() / 4 || sum_fits(self.genes@.take(ns)) == sum_fits(back0));
            assert forall|j: int| ns <= j < 2 * ns implies #[trigger] Self::cross_slot::<R>(
                self.genes@,
                ns,
                j,
            ) by {
                assert(Self::cross_of_selected::<R>(sel0, sel0[j - ns].0, self.genes@[j].0));
                assert(sel0[j - ns] == self.genes@[j - ns]);
            }
            assert forall|j: int| 2 * ns <= j < 3 * ns implies #[trigger] Self::mutated_gene::<R>(
                self.genes@[j - 2 * ns].0,
                self.genes@[j].0,
            ) by {
                assert(Self::mutated_gene::<R>(sel0[j - 2 * ns].0, self.genes@[j].0));
                assert(sel0[j - 2 * ns] == self.genes@[j - 2 * ns]);
            }
            assert(3 * ns <= self.genes@.len());
            assert(Self::generation_of::<R>(back0, self.genes@, ns));
            assert(self.genes_view() == self.genes@);
            assert(Self::generation_of::<R>(old(self).genes_view(), self.genes_view(), ns));
            assert(exists|k: int|
                Self::generation_of::<R>(old(self).genes_view(), self.genes_view(), k));
        }
    }

    /// Get the current best gene: the first individual whose fitness no other
    /// individual exceeds. Valid whenever the pool is non-empty, which `new`
    /// and `evolve` both guarantee.
    pub fn get_best(&self) -> (best: &T)
        requires
            self.genes_view().len() >= 1,
        ensures
            exists|i: int|
                0 <= i < self.genes_view().len() && *best == self.genes_view()[i].0 && (
                forall|j: int|
                    0 <= j < self.genes_view().len() ==> self.genes_view()[j].1
                        <= self.genes_view()[i].1) && (forall|j: int|
                    0 <= j < i ==> self.genes_view()[j].1 < self.genes_view()[i].1),
    {
        let mut bi: usize = 0;
        let mut i: usize = 1;
        while i < self.genes.len()
            invariant
                bi < i <= self.genes@.len(),
                forall|j: int| 0 <= j < i ==> self.genes@[j].1 <= self.genes@[bi as int].1,
                forall|j: int| 0 <= j < bi ==> self.genes@[j].1 < self.genes@[bi as int].1,
            decreases self.genes@.len() - i,
        {
            if self.genes[i].1 > self.genes[bi].1 {
                bi = i;
            }
            i = i + 1;
        }
        &self.genes[bi].0
    }
}

} // verus!
