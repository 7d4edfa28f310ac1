use brainfuck::lexer::lex;
use brainfuck::scan::find_loop_end;

#[test]
fn empty_body_is_closed_at_once() {
    assert_eq!(find_loop_end(&lex("[]"), 1), Some(1));
}

#[test]
fn flat_body_is_closed_by_the_first_loop_end() {
    assert_eq!(find_loop_end(&lex("[+-><.,]+]"), 1), Some(7));
}

#[test]
fn nested_loops_are_passed_over() {
    let program = lex("[[-]+[>[.]<]]+]");
    assert_eq!(find_loop_end(&program, 1), Some(12));
    assert_eq!(find_loop_end(&program, 2), Some(3));
    assert_eq!(find_loop_end(&program, 6), Some(11));
    assert_eq!(find_loop_end(&program, 8), Some(9));
}

#[test]
fn scan_fails_where_nothing_closes_the_body() {
    assert_eq!(find_loop_end(&lex("["), 1), None);
    assert_eq!(find_loop_end(&lex("[+++"), 1), None);
    assert_eq!(find_loop_end(&lex("[[]"), 1), None);
    assert_eq!(find_loop_end(&lex("[[][]"), 1), None);
}

#[test]
fn scan_from_the_end_or_beyond_finds_nothing() {
    let program = lex("[]");
    assert_eq!(find_loop_end(&program, 2), None);
    assert_eq!(find_loop_end(&program, 3), None);
    assert_eq!(find_loop_end(&program, usize::MAX), None);
    assert_eq!(find_loop_end(&[], 0), None);
}

#[test]
fn scan_from_the_first_index_counts_what_it_meets() {
    assert_eq!(find_loop_end(&lex("]"), 0), Some(0));
    assert_eq!(find_loop_end(&lex("[]]"), 0), Some(2));
    assert_eq!(find_loop_end(&lex("[]"), 0), None);
}
