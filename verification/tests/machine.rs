use brainfuck::lexer::lex;
use brainfuck::machine::{Fault, Machine, Step, ORIGIN, TAPE_SIZE};
use brainfuck::ops::Op;

fn machine_with_cell(value: u8) -> Machine {
    Machine::with_tape(vec![value], 0).unwrap()
}

#[test]
fn fresh_machine_has_a_zeroed_tape_and_points_at_its_middle() {
    let m = Machine::new();
    assert_eq!(TAPE_SIZE, 3000);
    assert_eq!(ORIGIN, 1500);
    assert_eq!(m.tape().len(), 3000);
    assert!(m.tape().iter().all(|&cell| cell == 0));
    assert_eq!(m.pointer(), 1500);
    assert_eq!(m.pc(), 0);
    assert_eq!(m.cell(), 0);
}

#[test]
fn with_tape_takes_a_pointer_on_the_tape_only() {
    let m = Machine::with_tape(vec![1, 2, 3], 2).unwrap();
    assert_eq!(m.tape(), &vec![1, 2, 3]);
    assert_eq!(m.pointer(), 2);
    assert_eq!(m.pc(), 0);
    assert_eq!(m.cell(), 3);
    assert!(Machine::with_tape(vec![1, 2, 3], 3).is_none());
    assert!(Machine::with_tape(vec![], 0).is_none());
}

#[test]
fn increment_of_255_wraps_to_0() {
    let mut m = machine_with_cell(255);
    assert_eq!(m.step(&[Op::Inc(1)]), Ok(Step::Advanced));
    assert_eq!(m.cell(), 0);
    assert_eq!(m.pc(), 1);
}

#[test]
fn decrement_of_0_wraps_to_255() {
    let mut m = machine_with_cell(0);
    assert_eq!(m.step(&[Op::Dec(1)]), Ok(Step::Advanced));
    assert_eq!(m.cell(), 255);
    assert_eq!(m.pc(), 1);
}

#[test]
fn counted_cell_operations_work_modulo_256() {
    let mut m = machine_with_cell(100);
    assert_eq!(m.step(&[Op::Inc(200)]), Ok(Step::Advanced));
    assert_eq!(m.cell(), 44);
    let mut m = machine_with_cell(3);
    assert_eq!(m.step(&[Op::Dec(5)]), Ok(Step::Advanced));
    assert_eq!(m.cell(), 254);
    let mut m = machine_with_cell(7);
    assert_eq!(m.step(&[Op::Inc(0)]), Ok(Step::Advanced));
    assert_eq!(m.cell(), 7);
    let mut m = machine_with_cell(7);
    assert_eq!(m.step(&[Op::Inc(255)]), Ok(Step::Advanced));
    assert_eq!(m.cell(), 6);
}

#[test]
fn moves_change_the_pointer_only() {
    let mut m = Machine::with_tape(vec![1, 2, 3, 4], 1).unwrap();
    let program = [Op::Next(2), Op::Prev(3)];
    assert_eq!(m.step(&program), Ok(Step::Advanced));
    assert_eq!(m.pointer(), 3);
    assert_eq!(m.cell(), 4);
    assert_eq!(m.step(&program), Ok(Step::Advanced));
    assert_eq!(m.pointer(), 0);
    assert_eq!(m.cell(), 1);
    assert_eq!(m.tape(), &vec![1, 2, 3, 4]);
    assert_eq!(m.pc(), 2);
}

#[test]
fn move_off_the_tape_is_a_fault_and_changes_nothing() {
    let mut m = Machine::with_tape(vec![0, 0, 0], 2).unwrap();
    assert_eq!(m.step(&[Op::Next(1)]), Err(Fault::TapeBounds { at: 0 }));
    assert_eq!(m.pointer(), 2);
    assert_eq!(m.pc(), 0);

    let mut m = Machine::with_tape(vec![0, 0, 0], 0).unwrap();
    assert_eq!(m.step(&[Op::Prev(1)]), Err(Fault::TapeBounds { at: 0 }));
    assert_eq!(m.pointer(), 0);

    let mut m = Machine::with_tape(vec![0, 0, 0], 1).unwrap();
    assert_eq!(m.step(&[Op::Next(usize::MAX)]), Err(Fault::TapeBounds { at: 0 }));
    assert_eq!(m.step(&[Op::Prev(usize::MAX)]), Err(Fault::TapeBounds { at: 0 }));
    assert_eq!(m.step(&[Op::Next(2)]), Err(Fault::TapeBounds { at: 0 }));
    assert_eq!(m.step(&[Op::Prev(2)]), Err(Fault::TapeBounds { at: 0 }));
    assert_eq!(m.pointer(), 1);
}

#[test]
fn fresh_tape_ends_1500_cells_to_either_side() {
    let mut m = Machine::new();
    assert_eq!(m.step(&[Op::Next(1499)]), Ok(Step::Advanced));
    assert_eq!(m.pointer(), 2999);
    let mut m = Machine::new();
    assert_eq!(m.step(&[Op::Next(1500)]), Err(Fault::TapeBounds { at: 0 }));
    let mut m = Machine::new();
    assert_eq!(m.step(&[Op::Prev(1500)]), Ok(Step::Advanced));
    assert_eq!(m.pointer(), 0);
    let mut m = Machine::new();
    assert_eq!(m.step(&[Op::Prev(1501)]), Err(Fault::TapeBounds { at: 0 }));
}

#[test]
fn print_hands_out_the_current_cell() {
    let mut m = machine_with_cell(65);
    assert_eq!(m.step(&[Op::Print]), Ok(Step::Output(65)));
    assert_eq!(m.pc(), 1);
    assert_eq!(m.cell(), 65);
}

#[test]
fn read_waits_for_a_byte() {
    let program = [Op::Read, Op::Print];
    let mut m = machine_with_cell(9);
    assert_eq!(m.step(&program), Ok(Step::NeedInput));
    assert_eq!(m.step(&program), Ok(Step::NeedInput));
    assert_eq!(m.pc(), 0);
    assert_eq!(m.cell(), 9);
    assert!(m.supply(&program, 120));
    assert_eq!(m.pc(), 1);
    assert_eq!(m.cell(), 120);
    assert_eq!(m.step(&program), Ok(Step::Output(120)));
}

#[test]
fn supply_is_refused_where_no_read_waits() {
    let program = [Op::Inc(1)];
    let mut m = machine_with_cell(9);
    assert!(!m.supply(&program, 120));
    assert_eq!(m.pc(), 0);
    assert_eq!(m.cell(), 9);
    assert_eq!(m.step(&program), Ok(Step::Advanced));
    assert!(!m.supply(&program, 120));
    assert_eq!(m.pc(), 1);
    assert_eq!(m.cell(), 10);
}

#[test]
fn end_of_program_halts() {
    let mut m = Machine::new();
    assert_eq!(m.step(&[]), Ok(Step::Halted));
    assert_eq!(m.step(&[]), Ok(Step::Halted));
    assert_eq!(m.pc(), 0);
    let program = [Op::Inc(1)];
    assert_eq!(m.step(&program), Ok(Step::Advanced));
    assert_eq!(m.step(&program), Ok(Step::Halted));
    assert_eq!(m.pc(), 1);
}

#[test]
fn lone_loop_end_is_a_fault() {
    let mut m = Machine::new();
    assert_eq!(m.step(&lex("]")), Err(Fault::UnmatchedLoopEnd { at: 0 }));
    assert_eq!(m.pc(), 0);
}

#[test]
fn loop_end_behind_a_closed_loop_is_a_fault() {
    let program = lex("+[-]]");
    let mut m = Machine::new();
    let mut last = m.step(&program);
    while last == Ok(Step::Advanced) {
        last = m.step(&program);
    }
    assert_eq!(last, Err(Fault::UnmatchedLoopEnd { at: 4 }));
}

#[test]
fn skipped_loop_start_without_end_is_a_fault() {
    let program = lex("+-[++");
    let mut m = Machine::new();
    assert_eq!(m.step(&program), Ok(Step::Advanced));
    assert_eq!(m.step(&program), Ok(Step::Advanced));
    assert_eq!(m.step(&program), Err(Fault::UnmatchedLoopStart { at: 2 }));
    assert_eq!(m.pc(), 2);
}

#[test]
fn entered_loop_without_end_is_a_fault_at_the_end_of_the_program() {
    let program = lex("+[[-");
    let mut m = Machine::new();
    assert_eq!(m.step(&program), Ok(Step::Advanced));
    assert_eq!(m.step(&program), Ok(Step::Advanced));
    assert_eq!(m.step(&program), Ok(Step::Advanced));
    assert_eq!(m.step(&program), Ok(Step::Advanced));
    assert_eq!(m.pc(), 4);
    assert_eq!(m.step(&program), Err(Fault::UnmatchedLoopStart { at: 2 }));
}

#[test]
fn loop_on_a_zero_cell_is_skipped_with_all_that_is_nested_in_it() {
    let program = lex("[[-]+[>[.]<]]+");
    let mut m = Machine::new();
    assert_eq!(m.step(&program), Ok(Step::Advanced));
    assert_eq!(m.pc(), 13);
    assert_eq!(m.cell(), 0);
    assert_eq!(m.pointer(), ORIGIN);
    assert_eq!(m.step(&program), Ok(Step::Advanced));
    assert_eq!(m.cell(), 1);
    assert_eq!(m.step(&program), Ok(Step::Halted));
}

#[test]
fn loop_on_a_non_zero_cell_is_entered() {
    let program = lex("[-]");
    let mut m = machine_with_cell(1);
    assert_eq!(m.step(&program), Ok(Step::Advanced));
    assert_eq!(m.pc(), 1);
    assert_eq!(m.step(&program), Ok(Step::Advanced));
    assert_eq!(m.cell(), 0);
    assert_eq!(m.pc(), 2);
    assert_eq!(m.step(&program), Ok(Step::Advanced));
    assert_eq!(m.pc(), 3);
    assert_eq!(m.step(&program), Ok(Step::Halted));
}

#[test]
fn loop_end_on_a_non_zero_cell_goes_back_to_the_body() {
    let program = lex("[-]");
    let mut m = machine_with_cell(2);
    assert_eq!(m.step(&program), Ok(Step::Advanced));
    assert_eq!(m.step(&program), Ok(Step::Advanced));
    assert_eq!(m.cell(), 1);
    assert_eq!(m.pc(), 2);
    assert_eq!(m.step(&program), Ok(Step::Advanced));
    assert_eq!(m.pc(), 1);
}

#[test]
fn countdown_loop_runs_its_body_once_for_each_unit() {
    let program = lex("[-.]");
    for n in [1u8, 2, 3, 10, 255] {
        let mut m = machine_with_cell(n);
        let mut printed = Vec::new();
        loop {
            match m.step(&program) {
                Ok(Step::Output(byte)) => printed.push(byte),
                Ok(Step::Advanced) => {}
                other => {
                    assert_eq!(other, Ok(Step::Halted));
                    break;
                }
            }
        }
        let expected: Vec<u8> = (0..n).rev().collect();
        assert_eq!(printed, expected);
        assert_eq!(m.cell(), 0);
        assert_eq!(m.pc(), 4);
    }
}

#[test]
fn line_supplies_its_first_byte() {
    let program = lex(",.");
    let mut m = Machine::new();
    assert_eq!(m.step(&program), Ok(Step::NeedInput));
    assert!(m.supply_line(&program, "  hello\n"));
    assert_eq!(m.cell(), b'h');
    assert_eq!(m.pc(), 1);
    assert_eq!(m.step(&program), Ok(Step::Output(b'h')));
    assert_eq!(m.step(&program), Ok(Step::Halted));
}

#[test]
fn blank_lines_are_tried_again() {
    let program = lex(",.");
    let mut m = Machine::new();
    assert_eq!(m.step(&program), Ok(Step::NeedInput));
    for blank in ["", "\n", "   \n", "\t\r\n"] {
        assert!(!m.supply_line(&program, blank));
        assert_eq!(m.pc(), 0);
        assert_eq!(m.cell(), 0);
        assert_eq!(m.step(&program), Ok(Step::NeedInput));
    }
    assert!(m.supply_line(&program, "7\n"));
    assert_eq!(m.step(&program), Ok(Step::Output(b'7')));
}

#[test]
fn line_is_refused_where_no_read_waits() {
    let program = lex("+");
    let mut m = Machine::new();
    assert!(!m.supply_line(&program, "a\n"));
    assert_eq!(m.pc(), 0);
    assert_eq!(m.cell(), 0);
}
