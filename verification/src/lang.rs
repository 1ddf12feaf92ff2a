//! The stack-based programming language and its interpreter.
//!
//! A program is a sequence of [`Prog`] items: literal integers and commands
//! from a fixed, closed set. The [`Stack`] holds the runtime state of one
//! execution: an integer data stack and a queue of pending items. Execution
//! is total: popping an empty stack yields `0`, division by zero yields `0`,
//! and the arithmetic commands wrap around on overflow, so no program can
//! make the interpreter fault.

use vstd::prelude::*;

verus! {

/// A builtin command to run on the stack.
#[derive(Clone, Copy, Debug, PartialEq, Eq, Structural)]
pub enum Command {
    Add,
    Sub,
    Mult,
    Div,
    Dup,
    Swap,
}

/// Either a piece of data or a command. Programs are sequences of `Prog`s.
#[derive(Clone, Copy, Debug, PartialEq, Eq, Structural)]
pub enum Prog {
    D(i32),
    C(Command),
}

/// The top of the data stack, with `0` standing in for an empty stack.
pub open spec fn stack_top(s: Seq<i32>) -> i32 {
    if s.len() == 0 {
        0
    } else {
        s.last()
    }
}

/// The data stack after one pop; popping an empty stack leaves it empty.
pub open spec fn stack_rest(s: Seq<i32>) -> Seq<i32> {
    if s.len() == 0 {
        s
    } else {
        s.drop_last()
    }
}

/// The value `Div` pushes: truncated division, with `0` for a zero divisor
/// and for the one overflowing case (`i32::MIN / -1`).
pub open spec fn div_value(a: i32, b: i32) -> i32 {
    match a.checked_div(b) {
        Some(q) => q,
        None => 0,
    }
}

/// What one command does to the data stack. The binary commands pop `b` then
/// `a` and push the result; `Dup` duplicates the top; `Swap` reverses the top
/// two. Missing operands read as `0`.
pub open spec fn apply_command(s: Seq<i32>, c: Command) -> Seq<i32> {
    let b = stack_top(s);
    let s1 = stack_rest(s);
    let a = stack_top(s1);
    let s2 = stack_rest(s1);
    match c {
        Command::Add => s2.push(vstd::wrapping::i32_specs::wrapping_add(a, b)),
        Command::Sub => s2.push(vstd::wrapping::i32_specs::wrapping_sub(a, b)),
        Command::Mult => s2.push(vstd::wrapping::i32_specs::wrapping_mul(a, b)),
        Command::Div => s2.push(div_value(a, b)),
        Command::Dup => s1.push(b).push(b),
        Command::Swap => s2.push(b).push(a),
    }
}

/// Pushing puts the value on top, and popping takes exactly it back off, so
/// a run of pops returns pushed values in reverse push order.
pub proof fn lemma_push_pop(s: Seq<i32>, v: i32)
    ensures
        stack_top(s.push(v)) == v,
        stack_rest(s.push(v)) == s,
{
    assert(s.push(v).drop_last() =~= s);
}

/// The data stack after `n` pops.
pub open spec fn popped(s: Seq<i32>, n: nat) -> Seq<i32>
    decreases n,
{
    if n == 0 {
        s
    } else {
        stack_rest(popped(s, (n - 1) as nat))
    }
}

/// After pushing the values `vs` on top of `s`, the first `vs.len()` pops
/// stay within the pushed values: what remains after `i` pops is `s` plus
/// the not-yet-popped prefix of `vs`.
pub proof fn lemma_popped_prefix(s: Seq<i32>, vs: Seq<i32>, i: int)
    requires
        0 <= i <= vs.len(),
    ensures
        popped(s + vs, i as nat) == s + vs.take(vs.len() - i),
    decreases i,
{
    if i == 0 {
        assert(s + vs.take(vs.len() as int) =~= s + vs);
    } else {
        lemma_popped_prefix(s, vs, i - 1);
        let before = s + vs.take(vs.len() - (i - 1));
        assert(before.len() > 0);
        assert(stack_rest(before) =~= s + vs.take(vs.len() - i));
    }
}

/// Popping after pushing a run of values returns them in reverse push
/// order: the `i`-th pop (counting from zero) yields the `i`-th value from
/// the end, and after all `vs.len()` pops the stack is as it was.
pub proof fn lemma_pop_reverse_order(s: Seq<i32>, vs: Seq<i32>, i: int)
    requires
        0 <= i < vs.len(),
    ensures
        stack_top(popped(s + vs, i as nat)) == vs[vs.len() - 1 - i],
        popped(s + vs, vs.len() as nat) == s,
{
    lemma_popped_prefix(s, vs, i);
    assert((s + vs.take(vs.len() - i)).last() == vs[vs.len() - 1 - i]);
    lemma_popped_prefix(s, vs, vs.len() as int);
    assert(s + vs.take(0) =~= s);
}

/// Popping an empty stack yields the neutral value instead of faulting.
pub proof fn lemma_pop_empty()
    ensures
        stack_top(Seq::<i32>::empty()) == 0,
        stack_rest(Seq::<i32>::empty()) == Seq::<i32>::empty(),
{
}

/// Division by zero yields zero instead of faulting.
pub proof fn lemma_div_by_zero(a: i32)
    ensures
        div_value(a, 0) == 0,
{
}

/// One step of execution: consume the last pending item; a literal is pushed
/// onto the data stack, a command is run on it. An empty queue is a no-op.
pub open spec fn step(d: Seq<i32>, cs: Seq<Prog>) -> (Seq<i32>, Seq<Prog>) {
    if cs.len() == 0 {
        (d, cs)
    } else {
        match cs.last() {
            Prog::D(v) => (d.push(v), cs.drop_last()),
            Prog::C(c) => (apply_command(d, c), cs.drop_last()),
        }
    }
}

/// The state after `n` steps of execution from `(d, cs)`.
pub open spec fn run_steps(d: Seq<i32>, cs: Seq<Prog>, n: nat) -> (Seq<i32>, Seq<Prog>)
    decreases n,
{
    if n == 0 {
        (d, cs)
    } else {
        let s = step(d, cs);
        run_steps(s.0, s.1, (n - 1) as nat)
    }
}

/// Running `m + n` steps is running `m` steps and then `n` more: execution
/// may be split at any point without changing where it ends.
pub proof fn lemma_run_steps_add(d: Seq<i32>, cs: Seq<Prog>, m: nat, n: nat)
    ensures
        ({
            let mid = run_steps(d, cs, m);
            run_steps(mid.0, mid.1, n) == run_steps(d, cs, m + n)
        }),
    decreases m,
{
    if m > 0 {
        let s = step(d, cs);
        lemma_run_steps_add(s.0, s.1, (m - 1) as nat, n);
    }
}

/// Each step consumes exactly one pending item while any remain.
pub proof fn lemma_run_steps_len(d: Seq<i32>, cs: Seq<Prog>, n: nat)
    requires
        n <= cs.len(),
    ensures
        run_steps(d, cs, n).1.len() == cs.len() - n,
    decreases n,
{
    if n > 0 {
        let s = step(d, cs);
        lemma_run_steps_len(s.0, s.1, (n - 1) as nat);
    }
}

/// Splitting execution never changes the outcome: running `k` steps and then
/// running the rest to completion ends in the same state as one uninterrupted
/// run of all `cs.len()` steps.
pub proof fn lemma_split_run(d: Seq<i32>, cs: Seq<Prog>, k: nat)
    requires
        k <= cs.len(),
    ensures
        ({
            let mid = run_steps(d, cs, k);
            run_steps(mid.0, mid.1, mid.1.len()) == run_steps(d, cs, cs.len())
        }),
{
    lemma_run_steps_len(d, cs, k);
    lemma_run_steps_add(d, cs, k, (cs.len() - k) as nat);
}

/// A stack to run programs on, and all other state used by the interpreter.
#[derive(Clone, Debug)]
pub struct Stack {
    /// The data on the stack (no commands).
    data: Vec<i32>,
    /// The stack of commands yet to be executed; the next item is the last.
    commands: Vec<Prog>,
}

impl Stack {
    /// The data stack, as a sequence whose last element is the top.
    pub closed spec fn data_view(self) -> Seq<i32> {
        self.data@
    }

    /// The pending items, as a sequence whose last element runs next.
    pub closed spec fn commands_view(self) -> Seq<Prog> {
        self.commands@
    }

    /// Create a new, empty stack.
    pub fn new() -> (s: Stack)
        ensures
            s.data_view() == Seq::<i32>::empty(),
            s.commands_view() == Seq::<Prog>::empty(),
    {
        let s = Stack { data: Vec::new(), commands: Vec::new() };
        proof {
            assert(s.data_view() =~= Seq::<i32>::empty());
            assert(s.commands_view() =~= Seq::<Prog>::empty());
        }
        s
    }

    /// Push data onto the stack.
    pub fn push(&mut self, d: i32)
        ensures
            final(self).data_view() == old(self).data_view().push(d),
            final(self).commands_view() == old(self).commands_view(),
    {
        self.data.push(d);
    }

    /// Pop data off the stack, or get the default value from an empty stack.
    pub fn pop(&mut self) -> (d: i32)
        ensures
            d == stack_top(old(self).data_view()),
            final(self).data_view() == stack_rest(old(self).data_view()),
            final(self).commands_view() == old(self).commands_view(),
    {
        match self.data.pop() {
            Some(v) => v,
            None => 0,
        }
    }

    /// Run a single command.
    pub fn run(&mut self, c: Command)
        ensures
            final(self).data_view() == apply_command(old(self).data_view(), c),
            final(self).commands_view() == old(self).commands_view(),
    {
        match c {
            Command::Add => {
                let b = self.pop();
                let a = self.pop();
                self.push(a.wrapping_add(b));
            },
            Command::Sub => {
                let b = self.pop();
                let a = self.pop();
                self.push(a.wrapping_sub(b));
            },
            Command::Mult => {
                let b = self.pop();
                let a = self.pop();
                self.push(a.wrapping_mul(b));
            },
            Command::Div => {
                let b = self.pop();
                let a = self.pop();
                let q = match a.checked_div(b) {
                    Some(q) => q,
                    None => 0,
                };
                self.push(q);
            },
            Command::Dup => {
                let a = self.pop();
                self.push(a);
                self.push(a);
            },
            Command::Swap => {
                let b = self.pop();
                let a = self.pop();
                self.push(b);
                self.push(a);
            },
        }
    }

    /// Queue the given program into the command stack, so that its items will
    /// be consumed in left-to-right order. This doesn't actually run anything.
    pub fn queue_program(&mut self, program: &[Prog])
        ensures
            final(self).commands_view() == old(self).commands_view() + program@.reverse(),
            final(self).data_view() == old(self).data_view(),
    {
        let ghost orig = self.commands@;
        let len = program.len();
        let mut i: usize = 0;
        while i < len
            invariant
                i <= len,
                len == program@.len(),
                self.commands@ =~= orig + program@.subrange(len - i, len as int).reverse(),
                self.data@ == old(self).data@,
            decreases len - i,
        {
            self.commands.push(program[len - 1 - i]);
            i = i + 1;
        }
        proof {
            assert(program@.subrange(0, len as int) =~= program@);
            assert(final(self).commands_view() =~= orig + program@.reverse());
        }
    }

    /// Run the next pending item. Does nothing if none is pending.
    pub fn run_next(&mut self)
        ensures
            final(self).data_view() == step(old(self).data_view(), old(self).commands_view()).0,
            final(self).commands_view() == step(
                old(self).data_view(),
                old(self).commands_view(),
            ).1,
    {
        match self.commands.pop() {
            Some(p) => match p {
                Prog::D(d) => self.push(d),
                Prog::C(c) => self.run(c),
            },
            None => {},
        }
    }

    /// Run until the command stack is empty. Returns the number of steps
    /// taken, one per pending item.
    pub fn run_all(&mut self) -> (steps: usize)
        ensures
            steps == old(self).commands_view().len(),
            final(self).data_view() == run_steps(
                old(self).data_view(),
                old(self).commands_view(),
                steps as nat,
            ).0,
            final(self).commands_view().len() == 0,
    {
        let ghost d0 = self.data@;
        let ghost c0 = self.commands@;
        let n0 = self.commands.len();
        let mut steps: usize = 0;
        while self.commands.len() > 0
            invariant
                n0 == c0.len(),
                steps <= n0,
                self.commands@.len() == c0.len() - steps,
                self.data@ == run_steps(d0, c0, steps as nat).0,
                self.commands@ == run_steps(d0, c0, steps as nat).1,
            decreases self.commands@.len(),
        {
            proof {
                let mid = run_steps(d0, c0, steps as nat);
                let s = step(mid.0, mid.1);
                assert(run_steps(s.0, s.1, 0) == s);
                assert(run_steps(mid.0, mid.1, 1) == s);
                lemma_run_steps_add(d0, c0, steps as nat, 1);
            }
            self.run_next();
            steps = steps + 1;
        }
        steps
    }

    /// Run at most `max` steps, or until the command stack empties, whichever
    /// comes first. Returns the number of steps taken. Both stacks persist, so
    /// a later `run_all` or `run_until` resumes exactly where this left off.
    pub fn run_until(&mut self, max: usize) -> (steps: usize)
        ensures
            steps == vstd::math::min(max as int, old(self).commands_view().len() as int),
            final(self).data_view() == run_steps(
                old(self).data_view(),
                old(self).commands_view(),
                steps as nat,
            ).0,
            final(self).commands_view() == run_steps(
                old(self).data_view(),
                old(self).commands_view(),
                steps as nat,
            ).1,
    {
        let ghost d0 = self.data@;
        let ghost c0 = self.commands@;
        let mut steps: usize = 0;
        while steps < max && self.commands.len() > 0
            invariant
                steps <= max,
                steps <= c0.len(),
                self.commands@.len() == c0.len() - steps,
                self.data@ == run_steps(d0, c0, steps as nat).0,
                self.commands@ == run_steps(d0, c0, steps as nat).1,
            decreases max - steps,
        {
            proof {
                let mid = run_steps(d0, c0, steps as nat);
                let s = step(mid.0, mid.1);
                assert(run_steps(s.0, s.1, 0) == s);
                assert(run_steps(mid.0, mid.1, 1) == s);
                lemma_run_steps_add(d0, c0, steps as nat, 1);
            }
            self.run_next();
            steps = steps + 1;
        }
        steps
    }

    /// How many values the data stack holds.
    pub fn depth(&self) -> (n: usize)
        ensures
            n == self.data_view().len(),
    {
        self.data.len()
    }

    /// How many items are still waiting to be executed.
    pub fn pending(&self) -> (n: usize)
        ensures
            n == self.commands_view().len(),
    {
        self.commands.len()
    }
}

} // verus!
