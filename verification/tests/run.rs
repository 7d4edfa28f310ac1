use brainfuck::lexer::lex;
use brainfuck::machine::{Fault, Machine, ORIGIN};
use brainfuck::ops::Op;
use brainfuck::optimizer::optimize;
use brainfuck::run::{execute, Status};

#[test]
fn transfer_program_prints_7() {
    let program = lex("++>+++++[<+>-]<.");
    let (machine, outcome) = execute(&program, &[], 1000);
    assert_eq!(outcome.status, Status::Halted);
    assert_eq!(outcome.output, vec![7]);
    assert_eq!(outcome.consumed, 0);
    assert_eq!(machine.pointer(), ORIGIN);
    assert_eq!(machine.cell(), 7);
    assert_eq!(machine.tape()[ORIGIN + 1], 0);
    assert_eq!(machine.pc(), program.len());
}

#[test]
fn transfer_program_prints_7_when_coalesced() {
    let program = optimize(lex("++>+++++[<+>-]<."));
    let (machine, outcome) = execute(&program, &[], 1000);
    assert_eq!(outcome.status, Status::Halted);
    assert_eq!(outcome.output, vec![7]);
    assert_eq!(machine.pointer(), ORIGIN);
    assert_eq!(machine.cell(), 7);
    assert_eq!(machine.tape()[ORIGIN + 1], 0);
}

#[test]
fn echo_program_echoes_one_byte() {
    let program = lex(",.");
    let (machine, outcome) = execute(&program, &[b'x'], 10);
    assert_eq!(outcome.status, Status::Halted);
    assert_eq!(outcome.output, vec![b'x']);
    assert_eq!(outcome.consumed, 1);
    assert_eq!(machine.cell(), b'x');
}

#[test]
fn echo_program_leaves_further_input_alone() {
    let (_, outcome) = execute(&lex(",."), &[1, 2, 3], 10);
    assert_eq!(outcome.status, Status::Halted);
    assert_eq!(outcome.output, vec![1]);
    assert_eq!(outcome.consumed, 1);
}

#[test]
fn lone_loop_end_faults_before_any_output() {
    let (_, outcome) = execute(&lex("]"), &[], 10);
    assert_eq!(outcome.status, Status::Faulted(Fault::UnmatchedLoopEnd { at: 0 }));
    assert_eq!(outcome.output, vec![]);
    let (_, outcome) = execute(&lex("].+."), &[], 10);
    assert_eq!(outcome.status, Status::Faulted(Fault::UnmatchedLoopEnd { at: 0 }));
    assert_eq!(outcome.output, vec![]);
}

#[test]
fn output_before_a_fault_is_kept() {
    let (_, outcome) = execute(&lex("+.+.]."), &[], 10);
    assert_eq!(outcome.status, Status::Faulted(Fault::UnmatchedLoopEnd { at: 4 }));
    assert_eq!(outcome.output, vec![1, 2]);
}

#[test]
fn unclosed_loop_faults() {
    let (_, outcome) = execute(&lex("["), &[], 10);
    assert_eq!(outcome.status, Status::Faulted(Fault::UnmatchedLoopStart { at: 0 }));
    let (_, outcome) = execute(&lex("+[-"), &[], 10);
    assert_eq!(outcome.status, Status::Faulted(Fault::UnmatchedLoopStart { at: 1 }));
}

#[test]
fn pointer_off_the_tape_faults() {
    let (machine, outcome) = execute(&[Op::Next(1499), Op::Inc(1), Op::Next(1)], &[], 10);
    assert_eq!(outcome.status, Status::Faulted(Fault::TapeBounds { at: 2 }));
    assert_eq!(machine.pointer(), 2999);
    assert_eq!(machine.cell(), 1);
    let (_, outcome) = execute(&[Op::Prev(1500), Op::Prev(1)], &[], 10);
    assert_eq!(outcome.status, Status::Faulted(Fault::TapeBounds { at: 1 }));
}

#[test]
fn read_without_input_starves() {
    let (machine, outcome) = execute(&lex("+.,."), &[], 10);
    assert_eq!(outcome.status, Status::Starved);
    assert_eq!(outcome.output, vec![1]);
    assert_eq!(outcome.consumed, 0);
    assert_eq!(machine.pc(), 2);
    let (_, outcome) = execute(&lex(",.,.,."), &[5, 6], 100);
    assert_eq!(outcome.status, Status::Starved);
    assert_eq!(outcome.output, vec![5, 6]);
    assert_eq!(outcome.consumed, 2);
}

#[test]
fn endless_loop_exhausts_any_fuel() {
    for fuel in [0u64, 1, 2, 100, 10_000] {
        let (machine, outcome) = execute(&lex("+[]"), &[], fuel);
        assert_eq!(outcome.status, Status::Exhausted);
        assert_eq!(outcome.output, vec![]);
        if fuel >= 1 {
            assert_eq!(machine.cell(), 1);
        }
    }
}

#[test]
fn fuel_counts_steps() {
    let program = lex("+++");
    let (machine, outcome) = execute(&program, &[], 2);
    assert_eq!(outcome.status, Status::Exhausted);
    assert_eq!(machine.cell(), 2);
    assert_eq!(machine.pc(), 2);
    let (machine, outcome) = execute(&program, &[], 3);
    assert_eq!(outcome.status, Status::Exhausted);
    assert_eq!(machine.cell(), 3);
    let (machine, outcome) = execute(&program, &[], 4);
    assert_eq!(outcome.status, Status::Halted);
    assert_eq!(machine.cell(), 3);
    let (_, outcome) = execute(&[], &[], 0);
    assert_eq!(outcome.status, Status::Exhausted);
    let (_, outcome) = execute(&[], &[], 1);
    assert_eq!(outcome.status, Status::Halted);
}

#[test]
fn countdown_loop_takes_two_steps_for_each_unit() {
    let program = lex("[-]");
    for n in [1u8, 2, 5, 100, 255] {
        let steps = 2 * u64::from(n) + 2;
        let mut m = Machine::with_tape(vec![n], 0).unwrap();
        let outcome = m.run(&program, &[], steps - 1);
        assert_eq!(outcome.status, Status::Exhausted);
        let mut m = Machine::with_tape(vec![n], 0).unwrap();
        let outcome = m.run(&program, &[], steps);
        assert_eq!(outcome.status, Status::Halted);
        assert_eq!(m.cell(), 0);
        assert_eq!(m.pc(), 3);
    }
}

#[test]
fn run_goes_on_from_where_the_machine_stands() {
    let program = lex("+.+.+.");
    let mut m = Machine::new();
    let first = m.run(&program, &[], 3);
    assert_eq!(first.status, Status::Exhausted);
    assert_eq!(first.output, vec![1]);
    assert_eq!(m.pc(), 3);
    let second = m.run(&program, &[], 100);
    assert_eq!(second.status, Status::Halted);
    assert_eq!(second.output, vec![2, 3]);
    assert_eq!(m.pc(), 6);
}

#[test]
fn input_is_read_in_order() {
    let (_, outcome) = execute(&lex(",>,>,<<.>.>."), &[10, 20, 30], 100);
    assert_eq!(outcome.status, Status::Halted);
    assert_eq!(outcome.output, vec![10, 20, 30]);
    assert_eq!(outcome.consumed, 3);
}

#[test]
fn nested_loops_multiply() {
    let (machine, outcome) = execute(&lex("+++[>++++[>+++++<-]<-]>>."), &[], 10_000);
    assert_eq!(outcome.status, Status::Halted);
    assert_eq!(outcome.output, vec![60]);
    assert_eq!(machine.pointer(), ORIGIN + 2);
}

#[test]
fn hello_program_prints_its_text() {
    let source = "++++++++[>++++[>++>+++>+++>+<<<<-]>+>+>->>+[<]<-]>>.>---.+++++++..+++.\
                  >>.<-.<.+++.------.--------.>>+.>++.";
    let (_, outcome) = execute(&lex(source), &[], 100_000);
    assert_eq!(outcome.status, Status::Halted);
    assert_eq!(outcome.output, b"Hello World!\n".to_vec());
    let (_, outcome) = execute(&optimize(lex(source)), &[], 100_000);
    assert_eq!(outcome.status, Status::Halted);
    assert_eq!(outcome.output, b"Hello World!\n".to_vec());
}

fn assert_same_behaviour(source: &str, input: &[u8]) {
    let plain = lex(source);
    let coalesced = optimize(lex(source));
    let (m1, o1) = execute(&plain, input, 1_000_000);
    let (m2, o2) = execute(&coalesced, input, 1_000_000);
    assert_ne!(o1.status, Status::Exhausted, "{}", source);
    let mut pointer_fault = false;
    match (o1.status, o2.status) {
        (Status::Faulted(a), Status::Faulted(b)) => match (a, b) {
            (Fault::UnmatchedLoopEnd { .. }, Fault::UnmatchedLoopEnd { .. }) => {}
            (Fault::UnmatchedLoopStart { .. }, Fault::UnmatchedLoopStart { .. }) => {}
            (Fault::TapeBounds { .. }, Fault::TapeBounds { .. }) => pointer_fault = true,
            _ => panic!("{}: {:?} and {:?}", source, a, b),
        },
        (a, b) => assert_eq!(a, b, "{}", source),
    }
    assert_eq!(o1.output, o2.output, "{}", source);
    assert_eq!(o1.consumed, o2.consumed, "{}", source);
    assert_eq!(m1.tape(), m2.tape(), "{}", source);
    if !pointer_fault {
        assert_eq!(m1.pointer(), m2.pointer(), "{}", source);
    }
}

#[test]
fn coalesced_programs_behave_as_the_plain_ones() {
    let sources = [
        "",
        "+",
        "+-",
        "+++>>>---<<<.",
        "++>+++++[<+>-]<.",
        ",.",
        ",[.,]",
        ",>,<[->+<]>.",
        "+++[>++++[>+++++<-]<-]>>.",
        "-[-.]",
        "+[-]+[-]>>>+.<<<.",
        "[[-]+[>[.]<]]+.",
        ">+>++>+++[.<]",
        "++++[->+++[->++[->+<]<]<]>>>.",
        "]",
        "+.]",
        "+-]",
        "[",
        "+[",
        "+[>+",
        "+[[-]",
        "+>-<[->>+<<]>>.,",
        "+><-.",
        "-+-+-+.>>><<<.",
    ];
    for source in sources {
        assert_same_behaviour(source, &[]);
        assert_same_behaviour(source, &[3, 0, 200, 7]);
    }
}

#[test]
fn pointer_fault_that_the_run_does_not_undo_is_kept() {
    let left = format!("+.>-.{}+.", "<".repeat(1502));
    assert_same_behaviour(&left, &[]);
    let right = format!("-.{}<<.", ">".repeat(1502));
    assert_same_behaviour(&right, &[]);
    let back_and_forth = format!("+.{}{}.", ">".repeat(10), "<".repeat(1600));
    assert_same_behaviour(&back_and_forth, &[]);

    let (m1, o1) = execute(&lex(&left), &[], 10_000);
    let (m2, o2) = execute(&optimize(lex(&left)), &[], 10_000);
    assert_eq!(o1.status, Status::Faulted(Fault::TapeBounds { at: 1506 }));
    assert_eq!(o2.status, Status::Faulted(Fault::TapeBounds { at: 5 }));
    assert_eq!(o1.output, vec![1, 255]);
    assert_eq!(o2.output, vec![1, 255]);
    assert_eq!(m1.pointer(), 0);
    assert_eq!(m2.pointer(), 1501);
}

#[test]
fn output_of_the_plain_run_begins_the_output_of_the_coalesced_run() {
    let sources = ["+[.+]", "+.>+.>+.>+.", "++++++++[.-]", ",[.,]", "+.[", "-.]..", ">+.<<.[-.]"];
    for source in sources {
        for fuel in [0u64, 1, 2, 3, 5, 8, 13, 21, 100, 1000] {
            let (_, plain) = execute(&lex(source), &[4, 5, 0], fuel);
            let (_, fast) = execute(&optimize(lex(source)), &[4, 5, 0], fuel);
            assert!(fast.output.starts_with(&plain.output), "{} {}", source, fuel);
            assert!(plain.consumed <= fast.consumed, "{} {}", source, fuel);
        }
    }
}

#[test]
fn coalescing_may_avoid_a_pointer_fault() {
    let mut source = ">".repeat(1500);
    source.push_str("<.");
    let (_, plain) = execute(&lex(&source), &[], 10_000);
    assert_eq!(plain.status, Status::Faulted(Fault::TapeBounds { at: 1499 }));
    assert_eq!(plain.output, vec![]);
    let coalesced = optimize(lex(&source));
    assert_eq!(coalesced, vec![Op::Next(1499), Op::Print]);
    let (_, fast) = execute(&coalesced, &[], 10_000);
    assert_eq!(fast.status, Status::Halted);
    assert_eq!(fast.output, vec![0]);
}
