use stackgp::gene::{Gene, Pool};
use stackgp::prog_gene::{fitness, AddTarget, ProgramGene};
use stackgp::rng::{RandSource, StdRand};

// A scripted random source: hands out the scripted values in order (reduced
// into range), then zeros. Deterministic by construction.
struct ScriptRand {
    vals: Vec<u128>,
    pos: usize,
}

impl ScriptRand {
    fn new(vals: Vec<u128>) -> ScriptRand {
        ScriptRand { vals, pos: 0 }
    }
}

impl RandSource for ScriptRand {
    fn below(&mut self, n: u128) -> u128 {
        let v = if self.pos < self.vals.len() {
            self.vals[self.pos]
        } else {
            0
        };
        self.pos += 1;
        v % n
    }
}

// A transparent gene for exercising the pool: generation reads its id from
// the random source, mutation negates it, crossing combines the digits.
#[derive(Clone, Debug, PartialEq)]
struct TestGene {
    id: i32,
}

impl Gene for TestGene {
    fn generate<R: RandSource>(rng: &mut R) -> Self {
        TestGene {
            id: rng.below(1000000) as i32,
        }
    }

    fn mutate<R: RandSource>(&self, _rng: &mut R) -> Self {
        TestGene { id: -self.id }
    }

    fn cross<R: RandSource>(&self, other: &Self, _rng: &mut R) -> Self {
        TestGene {
            id: self.id * 100 + other.id,
        }
    }
}

fn test_fit(g: &TestGene) -> u64 {
    if g.id >= 0 {
        g.id as u64
    } else {
        0
    }
}

#[test]
fn gen_pool() {
    // A deterministic source scripted draw by draw:
    // 10 generation draws (ids 1..=10), then the two selection offsets,
    // the two crossover partner picks, and the four replenishment ids.
    let rng = &mut ScriptRand::new(vec![
        1, 2, 3, 4, 5, 6, 7, 8, 9, 10, // generate the initial pool
        20, 35, // selection offsets: land on ids 6 and 9
        0, 0, // both crossings pick the first selected gene as partner
        11, 12, 13, 14, // replenishment ids
    ]);

    // Generate the pool by calling generate() n times.
    let fitness = |g: &TestGene| test_fit(g);
    let mut pool = Pool::new(10, fitness, rng);
    assert_eq!(pool.genes[0].0.id, 1);
    assert_eq!(pool.genes[9].0.id, 10);

    // Evolve the pool
    pool.evolve(rng);

    // Make sure the same genes were selected (because we know the scripted
    // draws): total fitness is 55; offset 20 walks onto id 6, and offset 35
    // onto id 9 after 6 left the buffer.
    assert_eq!(pool.genes[0].0.id, 6);
    assert_eq!(pool.genes[1].0.id, 9);
    assert_eq!(pool.genes[2].0.id, 606);
    assert_eq!(pool.genes[3].0.id, 906);
    assert_eq!(pool.genes[4].0.id, -6);
    assert_eq!(pool.genes[5].0.id, -9);
    assert_eq!(pool.genes[6].0.id, 11);
    assert_eq!(pool.genes[7].0.id, 12);
    assert_eq!(pool.genes[8].0.id, 13);
    assert_eq!(pool.genes[9].0.id, 14);
    // Also ensure the genes all have up-to-date fitness values
    for g in &pool.genes {
        assert_eq!(test_fit(&g.0), g.1);
    }
}

#[test]
fn pool_keeps_its_size() {
    // Whatever the size and however many generations, the population count
    // never drifts.
    for size in [1usize, 2, 3, 4, 5, 7, 10, 33] {
        let rng = &mut StdRand::from_seed(size as u64);
        let fit = |g: &ProgramGene| {
            let s = fitness(&AddTarget, g);
            if s < 0 {
                0
            } else {
                s as u64
            }
        };
        let mut pool = Pool::new(size, fit, rng);
        assert_eq!(pool.genes.len(), size);
        for _ in 0..5 {
            pool.evolve(rng);
            assert_eq!(pool.genes.len(), size);
        }
    }
}

#[test]
fn stored_fitness_is_fresh() {
    // After construction and after every generation, each stored score equals
    // the fitness function recomputed on the stored gene.
    let rng = &mut StdRand::from_seed(1234);
    let fit = |g: &ProgramGene| {
        let s = fitness(&AddTarget, g);
        if s < 0 {
            0
        } else {
            s as u64
        }
    };
    let mut pool = Pool::new(12, fit, rng);
    for g in &pool.genes {
        assert_eq!(fit(&g.0), g.1);
    }
    for _ in 0..3 {
        pool.evolve(rng);
        for g in &pool.genes {
            assert_eq!(fit(&g.0), g.1);
        }
    }
}

#[test]
fn get_best_returns_a_maximum() {
    let rng = &mut StdRand::from_seed(77);
    let fit = |g: &ProgramGene| {
        let s = fitness(&AddTarget, g);
        if s < 0 {
            0
        } else {
            s as u64
        }
    };
    let mut pool = Pool::new(20, fit, rng);
    pool.evolve(rng);
    let best_score = fit(pool.get_best());
    for g in &pool.genes {
        assert!(g.1 <= best_score);
    }
}

#[test]
fn get_best_breaks_ties_by_first_occurrence() {
    // All-equal fitness: the first individual wins.
    let rng = &mut ScriptRand::new(vec![31, 41, 59]);
    let fitness = |_g: &TestGene| 7u64;
    let pool: Pool<TestGene, _> = Pool::new(3, fitness, rng);
    assert_eq!(pool.get_best().id, 31);
}

#[test]
fn tiny_pools_evolve_without_fault() {
    // Sizes too small for a full quarter split: selection may pick nobody,
    // and replenishment fills the whole next generation.
    for size in [1usize, 2, 3] {
        let rng = &mut StdRand::from_seed(9000 + size as u64);
        let fit = |g: &ProgramGene| {
            let s = fitness(&AddTarget, g);
            if s < 0 {
                0
            } else {
                s as u64
            }
        };
        let mut pool = Pool::new(size, fit, rng);
        for _ in 0..10 {
            pool.evolve(rng);
            assert_eq!(pool.genes.len(), size);
        }
        let _ = pool.get_best();
    }
}

#[test]
fn all_zero_fitness_still_fills_the_pool() {
    // With a zero total, selection stops at once and the next generation is
    // made entirely of fresh genes.
    let rng = &mut ScriptRand::new(vec![5, 6, 7, 8, 50, 60, 70, 80]);
    let fitness = |_g: &TestGene| 0u64;
    let mut pool = Pool::new(4, fitness, rng);
    pool.evolve(rng);
    assert_eq!(pool.genes.len(), 4);
    assert_eq!(pool.genes[0].0.id, 50);
    assert_eq!(pool.genes[1].0.id, 60);
    assert_eq!(pool.genes[2].0.id, 70);
    assert_eq!(pool.genes[3].0.id, 80);
}

#[test]
fn gene_pairs_match_on_the_gene_alone() {
    let a = stackgp::gene::GenePair {
        gene: TestGene { id: 4 },
        fitness: 10,
        selected: false,
    };
    let b = stackgp::gene::GenePair {
        gene: TestGene { id: 4 },
        fitness: 99,
        selected: true,
    };
    let c = stackgp::gene::GenePair {
        gene: TestGene { id: 5 },
        fitness: 10,
        selected: false,
    };
    // The score and the bookkeeping flag carry no identity.
    assert!(a.same_gene(&b));
    assert!(!a.same_gene(&c));
}
