use brainfuck::{execute, input_byte, lex, optimize, Fault, Machine, Op, Outcome, Status, Step};

fn drive(machine: &mut Machine, program: &[Op], lines: &[&str]) -> (Vec<u8>, Result<(), Fault>) {
    let mut written = Vec::new();
    let mut lines = lines.iter();
    loop {
        match machine.step(program) {
            Ok(Step::Advanced) => {}
            Ok(Step::Output(byte)) => written.push(byte),
            Ok(Step::NeedInput) => loop {
                let line = lines.next().expect("a line for each read");
                if machine.supply_line(program, line) {
                    break;
                }
            },
            Ok(Step::Halted) => return (written, Ok(())),
            Err(fault) => return (written, Err(fault)),
        }
    }
}

#[test]
fn source_is_prepared_and_run() {
    let program = optimize(lex("++>+++++[<+>-]<."));
    let (machine, outcome): (Machine, Outcome) = execute(&program, &[], 1_000);
    assert_eq!(outcome.status, Status::Halted);
    assert_eq!(outcome.output, vec![7]);
    assert_eq!(machine.cell(), 7);
}

#[test]
fn echo_reads_one_line_and_writes_its_first_character() {
    let program = optimize(lex(",."));
    let mut machine = Machine::new();
    let (written, end) = drive(&mut machine, &program, &["\n", "   \n", "hello\n", "world\n"]);
    assert_eq!(end, Ok(()));
    assert_eq!(written, vec![b'h']);
    assert_eq!(input_byte("hello\n"), Some(b'h'));
}

#[test]
fn line_by_line_session_reads_a_byte_from_each_line() {
    let program = optimize(lex(",>,>,<<.>.>."));
    let mut machine = Machine::new();
    let (written, end) = drive(&mut machine, &program, &["a\n", "\n", " b\n", "c"]);
    assert_eq!(end, Ok(()));
    assert_eq!(written, b"abc".to_vec());
}

#[test]
fn stray_loop_end_stops_the_session_before_it_writes() {
    let program = optimize(lex("]."));
    let mut machine = Machine::new();
    let (written, end) = drive(&mut machine, &program, &[]);
    assert_eq!(end, Err(Fault::UnmatchedLoopEnd { at: 0 }));
    assert_eq!(written, vec![]);
}
