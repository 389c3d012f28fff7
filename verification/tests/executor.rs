use bf::interpret;
use bf::Machine;

const FUEL: u64 = 1_000_000;

fn chars(s: &str) -> Vec<char> {
    s.chars().collect()
}

fn run_ok(program: &str, cells: usize, input: Vec<u8>) -> Vec<u8> {
    interpret(&chars(program), cells, input, FUEL)
        .expect("program must validate")
        .expect("program must halt within the budget")
}

#[test]
fn two_increments_output_two() {
    // Scenario A: "++." with the default tape size outputs one byte of value 2
    assert_eq!(run_ok("++.", 30_000, vec![]), vec![2]);
}

#[test]
fn clear_loop_zeroes_cell() {
    // Scenario B: "[-]" on a nonzero cell brings it to 0 and halts
    assert_eq!(run_ok("+++[-].", 30_000, vec![]), vec![0]);
}

#[test]
fn lone_close_is_rejected_before_execution() {
    // Scenario C
    let e = interpret(&chars("]"), 30_000, vec![], FUEL).unwrap_err();
    assert_eq!(e.location, 0);
}

#[test]
fn lone_open_is_rejected_before_execution() {
    // Scenario D
    let e = interpret(&chars("["), 30_000, vec![], FUEL).unwrap_err();
    assert_eq!(e.location, 0);
}

#[test]
fn increments_then_decrements() {
    // Scenario E: "+++.---." outputs 3 then 0
    assert_eq!(run_ok("+++.---.", 30_000, vec![]), vec![3, 0]);
}

#[test]
fn single_cell_tape_wraps_pointer() {
    // Scenario F: with tape size 1, ">" wraps the pointer back to cell 0
    let program = chars(">");
    let mut m = Machine::new(1, vec![]);
    let done = m.run(&program, FUEL);
    assert!(done);
    assert_eq!(m.pointer, 0);
    assert_eq!(m.cells, vec![0]);
    assert!(m.output.is_empty());
}

#[test]
fn pointer_right_n_times_returns_to_start() {
    // tape of 3 cells: three ">" come back to cell 0, which one "+" then hits
    assert_eq!(run_ok("+>>>+.", 3, vec![]), vec![2]);
}

#[test]
fn pointer_left_n_times_returns_to_start() {
    assert_eq!(run_ok("+<<<+.", 3, vec![]), vec![2]);
}

#[test]
fn pointer_left_from_zero_wraps_to_last_cell() {
    // "<" from cell 0 lands on the last cell
    let program = chars("<");
    let mut m = Machine::new(4, vec![]);
    m.run(&program, FUEL);
    assert_eq!(m.pointer, 3);
}

#[test]
fn increment_wraps_255_to_0() {
    let mut p = String::new();
    for _ in 0..256 {
        p.push('+');
    }
    p.push('.');
    assert_eq!(run_ok(&p, 10, vec![]), vec![0]);
}

#[test]
fn decrement_wraps_0_to_255() {
    assert_eq!(run_ok("-.", 10, vec![]), vec![255]);
}

#[test]
fn increment_then_decrement_cancels() {
    assert_eq!(run_ok("+-.", 10, vec![]), vec![0]);
}

#[test]
fn zero_cell_skips_nested_loop_without_touching_tape() {
    // a zero cell entering "[[-]]" skips the whole nested body
    let program = chars("[[-]]");
    let mut m = Machine::new(2, vec![]);
    let done = m.run(&program, FUEL);
    assert!(done);
    assert_eq!(m.pc, 5);
    assert_eq!(m.cells, vec![0, 0]);
}

#[test]
fn zero_cell_skips_past_inner_close() {
    // with a naive first-"]" scan the "+" inside would run; it must not
    assert_eq!(run_ok("[[-]+].", 10, vec![]), vec![0]);
}

#[test]
fn loop_moves_value_between_cells() {
    assert_eq!(run_ok("++[->+<]>.", 2, vec![]), vec![2]);
}

#[test]
fn input_byte_is_stored_in_cell() {
    assert_eq!(run_ok(",.", 10, vec![65]), vec![65]);
}

#[test]
fn input_bytes_are_consumed_in_order() {
    assert_eq!(run_ok(",.,.", 10, vec![7, 9]), vec![7, 9]);
}

#[test]
fn exhausted_input_reads_zero() {
    // the documented end-of-input policy: "," stores 0
    assert_eq!(run_ok("+,.", 10, vec![]), vec![0]);
}

#[test]
fn non_command_characters_are_skipped() {
    assert_eq!(run_ok("a+b c.!", 10, vec![]), vec![1]);
}

#[test]
fn empty_program_halts_with_no_output() {
    assert_eq!(run_ok("", 30_000, vec![]), Vec::<u8>::new());
}

#[test]
fn step_budget_exhausted_reports_not_halted() {
    // "+[]" never halts; the budget runs out
    let r = interpret(&chars("+[]"), 10, vec![], 1000).unwrap();
    assert!(r.is_none());
}

#[test]
fn machine_reports_halted_state() {
    let program = chars("+.");
    let mut m = Machine::new(1, vec![]);
    assert!(!m.halted(&program));
    let done = m.run(&program, FUEL);
    assert!(done);
    assert!(m.halted(&program));
    assert_eq!(m.output(), &vec![1]);
    assert_eq!(m.into_output(), vec![1]);
}

#[test]
fn run_in_chunks_reaches_same_output() {
    let program = chars("+++[-.]");
    let mut m = Machine::new(4, vec![]);
    let mut guard: u32 = 0;
    while !m.run(&program, 1) {
        guard += 1;
        assert!(guard < 1000);
    }
    assert_eq!(m.into_output(), vec![2, 1, 0]);
}
