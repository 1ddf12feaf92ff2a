//! Stack-machine programs as genes.
//!
//! [`ProgramGene`] wraps a program — a sequence of [`Prog`] items — so the
//! evolution engine can generate, mutate and cross it. The module also
//! scores a program against a reference function on a fixed input grid
//! ([`fitness`]) and renders a program in its canonical textual form
//! ([`ProgramGene::render`]).

use vstd::prelude::*;
use vstd::string::StringExecFns;
use crate::gene::Gene;
use crate::lang::{run_steps, stack_top, Command, Prog, Stack};
use crate::rng::RandSource;

verus! {

/// A program as a gene. This is a simple wrapper so we can implement the
/// required trait.
#[derive(Clone, Debug, PartialEq, Eq)]
pub struct ProgramGene(pub Vec<Prog>);

/// Whether a program item could have come out of the random generator:
/// any command, or a literal between -10 and 10.
pub open spec fn prog_in_range(p: Prog) -> bool {
    match p {
        Prog::D(d) => -10 <= d <= 10,
        Prog::C(_) => true,
    }
}

/// Generate a random number or command.
fn rand_prog<R: RandSource>(rng: &mut R) -> (p: Prog)
    ensures
        prog_in_range(p),
{
    if rng.below(2) == 1 {
        // Half of the items are small literals.
        let t = rng.below(21);
        Prog::D((t as i32) - 10)
    } else {
        // The other half are commands, drawn uniformly.
        let c = rng.below(6);
        let cmd = match c {
            0 => Command::Add,
            1 => Command::Sub,
            2 => Command::Mult,
            3 => Command::Div,
            4 => Command::Dup,
            _ => Command::Swap,
        };
        Prog::C(cmd)
    }
}

/// One single-item edit: an insertion, a deletion, or a replacement.
pub open spec fn one_edit(a: Seq<Prog>, b: Seq<Prog>) -> bool {
    ||| exists|i: int, p: Prog|
        0 <= i <= a.len() && prog_in_range(p) && b == a.insert(i, p)
    ||| exists|i: int| 0 <= i < a.len() && b == a.remove(i)
    ||| exists|i: int, p: Prog| 0 <= i < a.len() && prog_in_range(p) && b == a.update(i, p)
}

/// Whether `b` can be reached from `a` by at most `m` single-item edits.
pub open spec fn within_edits(a: Seq<Prog>, b: Seq<Prog>, m: int) -> bool
    decreases m,
{
    if m <= 0 {
        b == a
    } else {
        b == a || exists|c: Seq<Prog>| within_edits(a, c, m - 1) && one_edit(c, b)
    }
}

/// An edit allowance never shrinks: whatever is reachable in `m` edits is
/// reachable in `m + 1`.
proof fn lemma_within_edits_widen(a: Seq<Prog>, b: Seq<Prog>, m: int)
    requires
        within_edits(a, b, m),
    ensures
        within_edits(a, b, m + 1),
    decreases m,
{
    if m > 0 && b != a {
        let c = choose|c: Seq<Prog>| within_edits(a, c, m - 1) && one_edit(c, b);
        lemma_within_edits_widen(a, c, m - 1);
    }
}

/// Each edit moves the length by at most one, so `m` edits keep it within
/// `m` of where it started.
proof fn lemma_within_edits_len(a: Seq<Prog>, b: Seq<Prog>, m: int)
    requires
        m >= 0,
        within_edits(a, b, m),
    ensures
        a.len() - m <= b.len() <= a.len() + m,
    decreases m,
{
    if m > 0 && b != a {
        let c = choose|c: Seq<Prog>| within_edits(a, c, m - 1) && one_edit(c, b);
        lemma_within_edits_len(a, c, m - 1);
    }
}

impl ProgramGene {
    /// Generate a random program: between 1 and 10 random items.
    pub fn generate<R: RandSource>(rng: &mut R) -> (g: ProgramGene)
        ensures
            1 <= g.0@.len() <= 10,
            forall|j: int| 0 <= j < g.0@.len() ==> prog_in_range(#[trigger] g.0@[j]),
    {
        // Pick a length between 1 and 10.
        let len = 1 + (rng.below(10) as usize);
        // Fill a vec with progs.
        let mut prog: Vec<Prog> = Vec::new();
        while prog.len() < len
            invariant
                len <= 10,
                prog@.len() <= len,
                forall|j: int| 0 <= j < prog@.len() ==> prog_in_range(#[trigger] prog@[j]),
            decreases len - prog@.len(),
        {
            let p = rand_prog(rng);
            prog.push(p);
        }
        ProgramGene(prog)
    }

    /// Mutate this program: apply between one and `max(len, 2) - 1` random
    /// single-item edits — insert a random item, delete an item, or replace
    /// an item — each at a random position (a delete or replace on an empty
    /// working copy is skipped rather than faulting). The program itself is
    /// never changed in place; the result stays within that many edits of
    /// the original, so its length moves by at most `max(len, 2) - 1`, and
    /// every item of the result is either an item of the original or one the
    /// random generator could produce.
    pub fn mutate<R: RandSource>(&self, rng: &mut R) -> (g: ProgramGene)
        ensures
            exists|m: int|
                1 <= m <= vstd::math::max(self.0@.len() as int, 2) - 1 && within_edits(
                    self.0@,
                    g.0@,
                    m,
                ),
            self.0@.len() - (vstd::math::max(self.0@.len() as int, 2) - 1) <= g.0@.len()
                <= self.0@.len() + (vstd::math::max(self.0@.len() as int, 2) - 1),
            forall|j: int|
                0 <= j < g.0@.len() ==> prog_in_range(#[trigger] g.0@[j]) || self.0@.contains(
                    g.0@[j],
                ),
    {
        // Pick a number of modifications between 1 and len of program.
        let len = self.0.len();
        let bound: u128 = if len >= 2 {
            (len - 1) as u128
        } else {
            1
        };
        let mods = 1 + (rng.below(bound) as usize);
        // Add, delete, or replace a random prog, `mods` times over.
        let ghost orig = self.0@;
        let mut result: Vec<Prog> = Vec::new();
        let mut i: usize = 0;
        while i < len
            invariant
                i <= len,
                len == self.0@.len(),
                result@ == self.0@.take(i as int),
            decreases len - i,
        {
            result.push(self.0[i]);
            proof {
                assert(result@ =~= self.0@.take(i + 1));
            }
            i = i + 1;
        }
        proof {
            assert(self.0@.take(len as int) =~= orig);
        }
        let mut k: usize = 0;
        while k < mods
            invariant
                k <= mods,
                1 <= mods <= vstd::math::max(orig.len() as int, 2) - 1,
                within_edits(orig, result@, k as int),
                forall|j: int|
                    0 <= j < result@.len() ==> prog_in_range(#[trigger] result@[j])
                        || orig.contains(result@[j]),
            decreases mods - k,
        {
            let op = rng.below(3);
            if op == 0 {
                // Add
                let p = rand_prog(rng);
                let pos = rng.below(result.len() as u128 + 1) as usize;
                let ghost prev = result@;
                result.insert(pos, p);
                proof {
                    assert(one_edit(prev, result@));
                    assert(within_edits(orig, result@, k as int + 1));
                    assert(result@ =~= prev.take(pos as int).push(p) + prev.skip(pos as int));
                    assert forall|j: int|
                        0 <= j < result@.len() implies prog_in_range(#[trigger] result@[j])
                        || orig.contains(result@[j]) by {
                        if j < pos {
                            assert(result@[j] == prev[j]);
                        } else if j == pos {
                            assert(result@[j] == p);
                        } else {
                            assert(result@[j] == prev[j - 1]);
                        }
                    }
                }
            } else if op == 1 {
                // Delete
                if result.len() == 0 {
                    // Nothing to delete: the edit is skipped.
                    proof {
                        lemma_within_edits_widen(orig, result@, k as int);
                    }
                } else {
                    let pos = rng.below(result.len() as u128) as usize;
                    let ghost prev = result@;
                    result.remove(pos);
                    proof {
                        assert(one_edit(prev, result@));
                        assert(within_edits(orig, result@, k as int + 1));
                        assert forall|j: int|
                            0 <= j < result@.len() implies prog_in_range(#[trigger] result@[j])
                            || orig.contains(result@[j]) by {
                            if j < pos {
                                assert(result@[j] == prev[j]);
                            } else {
                                assert(result@[j] == prev[j + 1]);
                            }
                        }
                    }
                }
            } else {
                // Replace
                if result.len() == 0 {
                    // Nothing to replace: the edit is skipped.
                    proof {
                        lemma_within_edits_widen(orig, result@, k as int);
                    }
                } else {
                    let p = rand_prog(rng);
                    let pos = rng.below(result.len() as u128) as usize;
                    let ghost prev = result@;
                    result.set(pos, p);
                    proof {
                        assert(one_edit(prev, result@));
                        assert(within_edits(orig, result@, k as int + 1));
                        assert forall|j: int|
                            0 <= j < result@.len() implies prog_in_range(#[trigger] result@[j])
                            || orig.contains(result@[j]) by {
                            if j == pos {
                                assert(result@[j] == p);
                            } else {
                                assert(result@[j] == prev[j]);
                            }
                        }
                    }
                }
            }
            k = k + 1;
        }
        proof {
            lemma_within_edits_len(orig, result@, mods as int);
        }
        let g = ProgramGene(result);
        proof {
            assert(within_edits(self.0@, g.0@, mods as int));
            assert(1 <= mods as int <= vstd::math::max(self.0@.len() as int, 2) - 1);
            assert(exists|m: int|
                1 <= m <= vstd::math::max(self.0@.len() as int, 2) - 1 && within_edits(
                    self.0@,
                    g.0@,
                    m,
                ));
        }
        g
    }

    /// Cross this program with another: keep a random prefix of this program
    /// and append a random suffix of the other. A length-0 program on either
    /// side degrades to the empty slice rather than failing.
    pub fn cross<R: RandSource>(&self, other: &ProgramGene, rng: &mut R) -> (g: ProgramGene)
        ensures
            exists|stop: int, start: int|
                0 <= stop && stop < vstd::math::max(self.0@.len() as int, 1) && 0 <= start
                    && start < vstd::math::max(other.0@.len() as int, 1) && g.0@ == self.0@.take(
                    stop,
                ) + other.0@.skip(start),
            self.0@.len() == 0 ==> exists|start: int|
                0 <= start && start < vstd::math::max(other.0@.len() as int, 1) && g.0@
                    == other.0@.skip(start),
    {
        // Pick a cut point on this gene.
        let len = self.0.len();
        let bound_self: u128 = if len > 1 {
            len as u128
        } else {
            1
        };
        let stop_self = rng.below(bound_self) as usize;
        // Pick a cut point on the other gene.
        let olen = other.0.len();
        let bound_other: u128 = if olen > 1 {
            olen as u128
        } else {
            1
        };
        let start_other = rng.below(bound_other) as usize;
        // Keep up to the cut point, then take the other's suffix.
        let mut result: Vec<Prog> = Vec::new();
        let mut i: usize = 0;
        while i < stop_self && i < len
            invariant
                i <= len,
                i <= stop_self,
                len == self.0@.len(),
                result@ == self.0@.take(i as int),
            decreases len - i,
        {
            result.push(self.0[i]);
            proof {
                assert(result@ =~= self.0@.take(i + 1));
            }
            i = i + 1;
        }
        let mut j: usize = start_other;
        let ghost start_g = start_other as int;
        let ghost kept = result@;
        let ghost ov = other.0@;
        while j < other.0.len()
            invariant
                ov == other.0@,
                0 <= start_g,
                start_g <= j <= ov.len(),
                result@ == kept + ov.subrange(start_g, j as int),
            decreases ov.len() - j,
        {
            result.push(other.0[j]);
            proof {
                lemma_subrange_push(ov, start_g, j as int);
                assert(result@ =~= kept + ov.subrange(start_g, j as int + 1));
            }
            j = j + 1;
        }
        let g = ProgramGene(result);
        proof {
            let stop = stop_self as int;
            let start = start_other as int;
            if stop < self.0@.len() {
                assert(kept == self.0@.take(stop));
            } else {
                // Only possible when the program is empty and the draw hit 0.
                assert(self.0@.len() == 0 && stop == 0);
                assert(kept =~= self.0@.take(stop));
            }
            if start < other.0@.len() {
                assert(other.0@.subrange(start, other.0@.len() as int) =~= other.0@.skip(start));
            } else {
                assert(other.0@.len() == 0 && start == 0);
                assert(other.0@.subrange(start, other.0@.len() as int) =~= other.0@.skip(start));
            }
            assert(g.0@ == self.0@.take(stop) + other.0@.skip(start));
            if self.0@.len() == 0 {
                assert(self.0@.take(stop) =~= Seq::<Prog>::empty());
                assert(g.0@ =~= other.0@.skip(start));
            }
        }
        g
    }
}

impl ProgramGene {
    /// Render the program in its canonical textual form: tokens separated by
    /// single spaces, literals in decimal, commands as their fixed symbols.
    pub fn render(&self) -> (out: String)
        ensures
            out@ == render_seq(self.0@),
    {
        let mut out = String::new();
        let len = self.0.len();
        let mut i: usize = 0;
        while i < len
            invariant
                i <= len,
                len == self.0@.len(),
                out@ == render_seq(self.0@.take(i as int)),
            decreases len - i,
        {
            if i > 0 {
                proof {
                    reveal_strlit(" ");
                    assert(" "@ =~= seq![' ']);
                }
                out.append(" ");
            }
            push_token(&mut out, self.0[i]);
            proof {
                let pre = self.0@.take(i as int);
                let post = self.0@.take(i + 1);
                assert(post.drop_last() =~= pre);
                assert(post.last() == self.0@[i as int]);
                if i == 0 {
                    assert(out@ =~= render_seq(post));
                } else {
                    assert(out@ =~= render_seq(pre) + seq![' '] + token(self.0@[i as int]));
                    assert(out@ =~= render_seq(post));
                }
            }
            i = i + 1;
        }
        proof {
            assert(self.0@.take(len as int) =~= self.0@);
        }
        out
    }
}

impl Gene for ProgramGene {
    fn generate<R: RandSource>(rng: &mut R) -> Self {
        ProgramGene::generate(rng)
    }

    fn mutate<R: RandSource>(&self, rng: &mut R) -> Self {
        ProgramGene::mutate(self, rng)
    }

    fn cross<R: RandSource>(&self, other: &Self, rng: &mut R) -> Self {
        ProgramGene::cross(self, other, rng)
    }
}

/// A reference function on the scoring grid: the scorer compares a program's
/// output against it on every grid point. The executable `apply` must agree
/// with the mathematical `spec_apply` it is specified by.
pub trait TargetFn: Sized {
    /// The function the program under test is meant to compute.
    spec fn spec_apply(self, a: i32, b: i32) -> i32;

    /// Compute the reference value for one grid point.
    fn apply(&self, a: i32, b: i32) -> (r: i32)
        requires
            0 <= a < 10,
            0 <= b < 10,
        ensures
            r == self.spec_apply(a, b),
    ;
}

/// The addition target: the program is meant to compute `a + b`.
pub struct AddTarget;

impl TargetFn for AddTarget {
    open spec fn spec_apply(self, a: i32, b: i32) -> i32 {
        (a + b) as i32
    }

    fn apply(&self, a: i32, b: i32) -> (r: i32) {
        a + b
    }
}

/// What one scoring trial yields: the top of the data stack after pushing
/// `a` then `b`, loading the program, and running at most ten steps.
pub open spec fn eval_on(prog: Seq<Prog>, a: i32, b: i32) -> i32 {
    let start_data = Seq::<i32>::empty().push(a).push(b);
    let pending = prog.reverse();
    let steps = vstd::math::min(10, pending.len() as int);
    stack_top(run_steps(start_data, pending, steps as nat).0)
}

/// How many of the trials `(a, 0) .. (a, b-1)` the program gets right.
pub open spec fn count_row<F: TargetFn>(f: F, prog: Seq<Prog>, a: i32, b: int) -> int
    decreases b,
{
    if b <= 0 {
        0
    } else {
        count_row(f, prog, a, b - 1) + if eval_on(prog, a, (b - 1) as i32) == f.spec_apply(
            a,
            (b - 1) as i32,
        ) {
            1int
        } else {
            0int
        }
    }
}

/// How many of the trials with first input below `a` the program gets right,
/// over full rows of ten.
pub open spec fn count_grid<F: TargetFn>(f: F, prog: Seq<Prog>, a: int) -> int
    decreases a,
{
    if a <= 0 {
        0
    } else {
        count_grid(f, prog, a - 1) + count_row(f, prog, (a - 1) as i32, 10)
    }
}

/// The score of a program, in units of one ten-thousandth: ninety-nine
/// hundredths weight the fraction of correct trials, one hundredth weights a
/// shortness bonus that falls below zero past one hundred items (kept
/// unclamped, as the scoring formula has it).
pub open spec fn spec_fitness<F: TargetFn>(f: F, prog: Seq<Prog>) -> int {
    99 * count_grid(f, prog, 10) + 100 - prog.len()
}

/// A row's count lies between zero and the number of its trials.
proof fn lemma_count_row_bounds<F: TargetFn>(f: F, prog: Seq<Prog>, a: i32, b: int)
    requires
        b >= 0,
    ensures
        0 <= count_row(f, prog, a, b) <= b,
    decreases b,
{
    if b > 0 {
        lemma_count_row_bounds(f, prog, a, b - 1);
    }
}

/// The grid count lies between zero and ten per full row.
proof fn lemma_count_grid_bounds<F: TargetFn>(f: F, prog: Seq<Prog>, a: int)
    requires
        a >= 0,
    ensures
        0 <= count_grid(f, prog, a) <= 10 * a,
    decreases a,
{
    if a > 0 {
        lemma_count_grid_bounds(f, prog, a - 1);
        lemma_count_row_bounds(f, prog, (a - 1) as i32, 10);
    }
}

/// Score a program against a reference function: run it on every pair of a
/// ten-by-ten input grid and count the trials whose result matches. The
/// score, scaled by ten thousand, is ninety-nine times the correct count
/// plus a shortness bonus of one hundred minus the program's length.
pub fn fitness<F: TargetFn>(f: &F, g: &ProgramGene) -> (score: i128)
    ensures
        score == spec_fitness(*f, g.0@),
{
    let mut successful: u32 = 0;
    // Iterate through the test cases.
    let mut a: i32 = 0;
    while a < 10
        invariant
            0 <= a <= 10,
            successful == count_grid(*f, g.0@, a as int),
        decreases 10 - a,
    {
        let mut b: i32 = 0;
        while b < 10
            invariant
                0 <= a < 10,
                0 <= b <= 10,
                successful == count_grid(*f, g.0@, a as int) + count_row(*f, g.0@, a, b as int),
            decreases 10 - b,
        {
            // Create a stack and add the inputs.
            let mut s = Stack::new();
            s.push(a);
            s.push(b);
            // Run the program, bounded to a small step cap.
            s.queue_program(g.0.as_slice());
            s.run_until(10);
            // Compare the output.
            let result = s.pop();
            let expect = f.apply(a, b);
            proof {
                assert(Seq::<Prog>::empty() + g.0@.reverse() =~= g.0@.reverse());
                assert(result == eval_on(g.0@, a, b));
                lemma_count_grid_bounds(*f, g.0@, a as int);
                lemma_count_row_bounds(*f, g.0@, a, b as int);
            }
            if result == expect {
                successful = successful + 1;
            }
            b = b + 1;
        }
        a = a + 1;
    }
    proof {
        lemma_count_grid_bounds(*f, g.0@, 10);
    }
    // Fitness is the weighted count of correct trials plus the bonus.
    99 * (successful as i128) + 100 - (g.0.len() as i128)
}

/// The character for one decimal digit.
pub open spec fn digit_char(d: int) -> char {
    if d == 0 {
        '0'
    } else if d == 1 {
        '1'
    } else if d == 2 {
        '2'
    } else if d == 3 {
        '3'
    } else if d == 4 {
        '4'
    } else if d == 5 {
        '5'
    } else if d == 6 {
        '6'
    } else if d == 7 {
        '7'
    } else if d == 8 {
        '8'
    } else {
        '9'
    }
}

/// The decimal digits of a non-negative number, most significant first.
pub open spec fn dec_digits(n: nat) -> Seq<char>
    decreases n,
{
    if n < 10 {
        seq![digit_char(n as int)]
    } else {
        dec_digits(n / 10).push(digit_char((n % 10) as int))
    }
}

/// The canonical decimal rendering of an integer: a minus sign for a
/// negative value, then its digits.
pub open spec fn dec_str(v: int) -> Seq<char> {
    if v < 0 {
        seq!['-'] + dec_digits((-v) as nat)
    } else {
        dec_digits(v as nat)
    }
}

/// The canonical token for one program item: a literal renders as its
/// decimal value, each command as its fixed symbol.
pub open spec fn token(p: Prog) -> Seq<char> {
    match p {
        Prog::D(d) => dec_str(d as int),
        Prog::C(Command::Add) => seq!['+'],
        Prog::C(Command::Sub) => seq!['-'],
        Prog::C(Command::Mult) => seq!['*'],
        Prog::C(Command::Div) => seq!['/'],
        Prog::C(Command::Dup) => seq!['d', 'u', 'p'],
        Prog::C(Command::Swap) => seq!['s', 'w', 'a', 'p'],
    }
}

/// The canonical rendering of a program: its tokens, separated by single
/// spaces.
pub open spec fn render_seq(s: Seq<Prog>) -> Seq<char>
    decreases s.len(),
{
    if s.len() == 0 {
        Seq::<char>::empty()
    } else if s.len() == 1 {
        token(s[0])
    } else {
        render_seq(s.drop_last()) + seq![' '] + token(s.last())
    }
}

/// Append the character of one digit.
fn push_digit_char(out: &mut String, d: u64)
    requires
        d < 10,
    ensures
        final(out)@ == old(out)@ + seq![digit_char(d as int)],
{
    if d == 0 {
        proof {
            reveal_strlit("0");
            assert("0"@ =~= seq![digit_char(0)]);
        }
        out.append("0");
    } else if d == 1 {
        proof {
            reveal_strlit("1");
            assert("1"@ =~= seq![digit_char(1)]);
        }
        out.append("1");
    } else if d == 2 {
        proof {
            reveal_strlit("2");
            assert("2"@ =~= seq![digit_char(2)]);
        }
        out.append("2");
    } else if d == 3 {
        proof {
            reveal_strlit("3");
            assert("3"@ =~= seq![digit_char(3)]);
        }
        out.append("3");
    } else if d == 4 {
        proof {
            reveal_strlit("4");
            assert("4"@ =~= seq![digit_char(4)]);
        }
        out.append("4");
    } else if d == 5 {
        proof {
            reveal_strlit("5");
            assert("5"@ =~= seq![digit_char(5)]);
        }
        out.append("5");
    } else if d == 6 {
        proof {
            reveal_strlit("6");
            assert("6"@ =~= seq![digit_char(6)]);
        }
        out.append("6");
    } else if d == 7 {
        proof {
            reveal_strlit("7");
            assert("7"@ =~= seq![digit_char(7)]);
        }
        out.append("7");
    } else if d == 8 {
        proof {
            reveal_strlit("8");
            assert("8"@ =~= seq![digit_char(8)]);
        }
        out.append("8");
    } else {
        proof {
            reveal_strlit("9");
            assert("9"@ =~= seq![digit_char(9)]);
        }
        out.append("9");
    }
}

/// Append the decimal digits of a non-negative number.
fn push_digits(out: &mut String, n: u64)
    ensures
        final(out)@ == old(out)@ + dec_digits(n as nat),
    decreases n,
{
    if n < 10 {
        push_digit_char(out, n);
    } else {
        push_digits(out, n / 10);
        push_digit_char(out, n % 10);
        proof {
            assert(final(out)@ =~= old(out)@ + dec_digits(n as nat));
        }
    }
}

/// Append the decimal rendering of an integer.
fn push_int(out: &mut String, v: i32)
    ensures
        final(out)@ == old(out)@ + dec_str(v as int),
{
    if v >= 0 {
        push_digits(out, v as u64);
    } else {
        proof {
            reveal_strlit("-");
            assert("-"@ =~= seq!['-']);
        }
        out.append("-");
        let mag = (-(v as i64)) as u64;
        push_digits(out, mag);
        proof {
            assert(mag as int == -(v as int));
            assert(final(out)@ =~= old(out)@ + dec_str(v as int));
        }
    }
}

/// Append the token of one program item.
fn push_token(out: &mut String, p: Prog)
    ensures
        final(out)@ == old(out)@ + token(p),
{
    match p {
        Prog::D(d) => push_int(out, d),
        Prog::C(Command::Add) => {
            proof {
                reveal_strlit("+");
                assert("+"@ =~= seq!['+']);
            }
            out.append("+");
        },
        Prog::C(Command::Sub) => {
            proof {
                reveal_strlit("-");
                assert("-"@ =~= seq!['-']);
            }
            out.append("-");
        },
        Prog::C(Command::Mult) => {
            proof {
                reveal_strlit("*");
                assert("*"@ =~= seq!['*']);
            }
            out.append("*");
        },
        Prog::C(Command::Div) => {
            proof {
                reveal_strlit("/");
                assert("/"@ =~= seq!['/']);
            }
            out.append("/");
        },
        Prog::C(Command::Dup) => {
            proof {
                reveal_strlit("dup");
                assert("dup"@ =~= seq!['d', 'u', 'p']);
            }
            out.append("dup");
        },
        Prog::C(Command::Swap) => {
            proof {
                reveal_strlit("swap");
                assert("swap"@ =~= seq!['s', 'w', 'a', 'p']);
            }
            out.append("swap");
        },
    }
}

/// Extending a subrange by one index appends that element.
proof fn lemma_subrange_push(s: Seq<Prog>, a: int, j: int)
    requires
        0 <= a <= j < s.len(),
    ensures
        s.subrange(a, j + 1) == s.subrange(a, j).push(s[j]),
{
    assert(s.subrange(a, j + 1) =~= s.subrange(a, j).push(s[j]));
}

} // verus!
