use stackgp::lang::{Command, Prog, Stack};

#[test]
fn use_stack() {
    let mut s = Stack::new();
    // We can push and pop to the stack
    s.push(3);
    s.push(-10);
    assert_eq!(s.pop(), -10);
    assert_eq!(s.pop(), 3);
    assert_eq!(s.depth(), 0);

    // When popping an empty stack, we get a default value of 0 (not an error)
    assert_eq!(s.pop(), 0);
}

#[test]
fn use_commands() {
    let mut s = Stack::new();

    // We can run builtin commands on the stack
    s.push(3);
    s.push(7);
    s.run(Command::Add); // 3 + 7
    assert_eq!(s.pop(), 10);
    assert_eq!(s.depth(), 0);

    s.push(7);
    s.run(Command::Sub); // 0 - 7
    assert_eq!(s.pop(), -7);
    assert_eq!(s.depth(), 0);

    s.push(3);
    s.push(7);
    s.run(Command::Mult); // 3 * 7
    assert_eq!(s.pop(), 21);
    assert_eq!(s.depth(), 0);

    s.push(7);
    s.push(3);
    s.run(Command::Div); // 7 / 3
    assert_eq!(s.pop(), 2);
    assert_eq!(s.depth(), 0);

    s.push(7);
    s.run(Command::Dup); // 7 -> 7 7
    assert_eq!(s.pop(), 7);
    assert_eq!(s.pop(), 7);
    assert_eq!(s.depth(), 0);

    s.push(7);
    s.push(3);
    s.run(Command::Swap); // 7 3 -> 3 7
    assert_eq!(s.pop(), 7);
    assert_eq!(s.pop(), 3);
    assert_eq!(s.depth(), 0);

    // We can run whole programs (sequences of commands)
    let prog = [
        Prog::D(10),
        Prog::D(2),
        Prog::C(Command::Div),
        Prog::C(Command::Dup),
    ];
    s.queue_program(&prog);
    assert_eq!(s.run_all(), 4);
    assert_eq!(s.pop(), 5);
    assert_eq!(s.pop(), 5);
    assert_eq!(s.depth(), 0);
    assert_eq!(s.pending(), 0);

    // We can run segments of programs, then resume them later
    s.queue_program(&prog);
    assert_eq!(s.run_until(2), 2);
    assert_eq!(s.depth(), 2);
    assert_eq!(s.run_all(), 2);
    assert_eq!(s.pop(), 5);
    assert_eq!(s.pop(), 5);
    assert_eq!(s.depth(), 0);
    assert_eq!(s.pending(), 0);
}

#[test]
fn pop_reverses_push_order() {
    let values = [4, -7, 0, 2147483647, -2147483648, 13];
    let mut s = Stack::new();
    for v in values.iter() {
        s.push(*v);
    }
    for v in values.iter().rev() {
        assert_eq!(s.pop(), *v);
    }
    // Any further pops on the now-empty stack keep yielding 0.
    assert_eq!(s.pop(), 0);
    assert_eq!(s.pop(), 0);
}

#[test]
fn div_by_zero_yields_zero() {
    let mut s = Stack::new();
    s.push(7);
    s.push(0);
    s.run(Command::Div);
    assert_eq!(s.pop(), 0);
    assert_eq!(s.depth(), 0);

    // The same holds when the whole division comes from a queued program.
    s.queue_program(&[Prog::D(-3), Prog::D(0), Prog::C(Command::Div)]);
    s.run_all();
    assert_eq!(s.pop(), 0);
    assert_eq!(s.depth(), 0);
}

#[test]
fn split_run_matches_uninterrupted_run() {
    let prog = [
        Prog::D(10),
        Prog::D(2),
        Prog::C(Command::Div),
        Prog::C(Command::Dup),
        Prog::D(3),
        Prog::C(Command::Swap),
        Prog::C(Command::Sub),
    ];
    // Reference: one uninterrupted run.
    let mut reference = Stack::new();
    reference.queue_program(&prog);
    assert_eq!(reference.run_all(), prog.len());
    let mut expected = Vec::new();
    while reference.depth() > 0 {
        expected.push(reference.pop());
    }
    // Split at every possible point, including 0 and the full length.
    for k in 0..=prog.len() {
        let mut s = Stack::new();
        s.queue_program(&prog);
        assert_eq!(s.run_until(k), k);
        assert_eq!(s.run_all(), prog.len() - k);
        let mut got = Vec::new();
        while s.depth() > 0 {
            got.push(s.pop());
        }
        assert_eq!(got, expected);
    }
}

#[test]
fn program_runs_in_exactly_its_length() {
    let prog = [Prog::D(1), Prog::D(2), Prog::C(Command::Add)];
    let mut s = Stack::new();
    s.queue_program(&prog);
    // A step cap beyond the length stops at the length.
    assert_eq!(s.run_until(1000), 3);
    assert_eq!(s.pop(), 3);
}

#[test]
fn missing_operands_read_as_zero() {
    // Commands on an empty stack use the neutral value rather than faulting.
    let mut s = Stack::new();
    s.run(Command::Add);
    assert_eq!(s.depth(), 1);
    assert_eq!(s.pop(), 0);

    let mut s2 = Stack::new();
    s2.run(Command::Swap);
    assert_eq!(s2.depth(), 2);
    assert_eq!(s2.pop(), 0);
    assert_eq!(s2.pop(), 0);
}
