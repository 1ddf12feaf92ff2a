use stackgp::lang::Command::{Add, Div, Dup, Sub};
use stackgp::lang::Prog::{C, D};
use stackgp::lang::Stack;
use stackgp::prog_gene::{fitness, AddTarget, ProgramGene};
use stackgp::rng::StdRand;

#[test]
fn display_gene() {
    // Display a concise representation of a program gene
    let prog = ProgramGene(vec![D(1), C(Sub), D(-30), C(Dup)]);
    assert_eq!(prog.render(), "1 - -30 dup");
}

#[test]
fn render_single_tokens() {
    assert_eq!(ProgramGene(vec![]).render(), "");
    assert_eq!(ProgramGene(vec![D(0)]).render(), "0");
    assert_eq!(ProgramGene(vec![D(-2147483648)]).render(), "-2147483648");
    assert_eq!(ProgramGene(vec![D(2147483647)]).render(), "2147483647");
    let all = ProgramGene(vec![
        C(Add),
        C(Sub),
        C(stackgp::lang::Command::Mult),
        C(Div),
        C(Dup),
        C(stackgp::lang::Command::Swap),
    ]);
    assert_eq!(all.render(), "+ - * / dup swap");
}

#[test]
fn generate_and_mutate() {
    let rng = &mut StdRand::from_seed(123);
    // Generate some random genes
    let mut genes: Vec<ProgramGene> = Vec::new();
    for _ in 0..1000 {
        genes.push(ProgramGene::generate(rng));
    }

    // Mutate them
    for g in genes {
        g.mutate(rng).mutate(rng).mutate(rng);
    }
}

#[test]
fn generated_programs_stay_in_range() {
    // The generator's contract: between 1 and 10 items, literals in -10..=10.
    // This would fail if the random draw could reach or exceed its bound.
    let rng = &mut StdRand::from_seed(7);
    for _ in 0..500 {
        let g = ProgramGene::generate(rng);
        assert!(1 <= g.0.len() && g.0.len() <= 10);
        for p in &g.0 {
            if let D(d) = p {
                assert!(-10 <= *d && *d <= 10);
            }
        }
    }
}

#[test]
fn seeded_generation_is_reproducible() {
    let mut a = StdRand::from_seed(99);
    let mut b = StdRand::from_seed(99);
    for _ in 0..50 {
        let ga = ProgramGene::generate(&mut a);
        let gb = ProgramGene::generate(&mut b);
        assert_eq!(ga.render(), gb.render());
    }
}

#[test]
fn test_fitness() {
    let eps = 0.000001;
    // Test that the program returns a + b
    let good_prog = ProgramGene(vec![C(Add)]);
    let good = fitness(&AddTarget, &good_prog);
    assert_eq!(good, 9999);
    assert!((good as f64 / 10000.0 - 0.9999).abs() < eps);

    // Test that the program returns a + b, with a longer program (less fit)
    let okay_prog = ProgramGene(vec![C(Add), C(Dup), C(Dup), C(Dup), C(Dup)]);
    let okay = fitness(&AddTarget, &okay_prog);
    assert_eq!(okay, 9995);
    assert!((okay as f64 / 10000.0 - 0.9995).abs() < eps);

    // Test program that always returns -1
    let bad_prog = ProgramGene(vec![D(-1)]);
    let bad = fitness(&AddTarget, &bad_prog);
    assert_eq!(bad, 99);
    assert!((bad as f64 / 10000.0 - 0.0099).abs() < eps);
}

#[test]
fn end_to_end_div_dup() {
    // The program [10, 2, Div, Dup] on an empty stack leaves [5, 5].
    let prog = ProgramGene(vec![D(10), D(2), C(Div), C(Dup)]);
    let mut s = Stack::new();
    s.queue_program(prog.0.as_slice());
    assert_eq!(s.run_all(), 4);
    assert_eq!(s.pop(), 5);
    assert_eq!(s.pop(), 5);
    assert_eq!(s.depth(), 0);
}

#[test]
fn cross_with_empty_keeps_a_suffix_of_the_other() {
    let rng = &mut StdRand::from_seed(5);
    let empty = ProgramGene(vec![]);
    let other = ProgramGene(vec![D(1), D(2), D(3), D(4), D(5)]);
    for _ in 0..100 {
        let child = empty.cross(&other, rng);
        // The child is exactly a suffix of the other program.
        let start = other.0.len() - child.0.len();
        assert_eq!(&child.0[..], &other.0[start..]);
        // The degenerate crossing of two empty programs stays empty.
        let none = empty.cross(&empty, rng);
        assert_eq!(none.0.len(), 0);
    }
}

#[test]
fn mutation_usually_changes_the_rendering() {
    // Mutation must always yield a runnable program, and over many trials it
    // changes the rendered form with high probability.
    let rng = &mut StdRand::from_seed(42);
    let base = ProgramGene(vec![D(1), C(Add), D(3), C(Dup), D(-5), C(Sub)]);
    let base_text = base.render();
    let mut changed = 0;
    let trials = 200;
    for _ in 0..trials {
        let m = base.mutate(rng);
        if m.render() != base_text {
            changed += 1;
        }
        // Whatever came out still runs to completion without faulting.
        let mut s = Stack::new();
        s.queue_program(m.0.as_slice());
        assert_eq!(s.run_all(), m.0.len());
    }
    assert!(changed > trials / 2);
}
