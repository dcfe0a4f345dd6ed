use bf_interpreter::interpreter::Program;
use bf_interpreter::machine::ExecError;

const SIMPLE: &str = "++++++++[>++++++++<-]>+.+.+.+.+.+.+.+.+.+.+.";
const ADDITION: &str = "++>+++++[<+>-]++++++++[<++++++>-]<.";
const HELLO_WORLD: &str = "++++++++[>++++[>++>+++>+++>+<<<<-]>+>+>->>+[<]<-]>>.>---.+++++++..+++.>>.<-.<.+++.------.--------.>>+.>++.";

fn chars(s: &str) -> Vec<char> {
    s.chars().collect()
}

fn run_text(s: &str) -> Result<String, ExecError> {
    Program::new(chars(s)).run()
}

fn run_on_tape(s: &str, tape_length: usize) -> Result<String, ExecError> {
    Program::new_with_tape_length(chars(s), tape_length).run()
}

#[test]
fn simple_program_executes() {
    let program = Program::new(chars(SIMPLE));
    let res = program.run();
    assert_eq!(res.unwrap(), "ABCDEFGHIJK");
}

#[test]
fn addition_executes() {
    let program = Program::new(chars(ADDITION));
    let res = program.run();
    assert_eq!(res.unwrap(), "7");
}

#[test]
fn hello_world_executes() {
    let program = Program::new(chars(HELLO_WORLD));
    let res = program.run();
    assert_eq!(res.unwrap(), "Hello World!\n");
}

#[test]
fn multiplication_loop_prints_at_sign() {
    assert_eq!(run_text("++++++++[>++++++++<-]>."), Ok("@".to_string()));
}

#[test]
fn seven_increments_print_bell() {
    assert_eq!(run_text("+++++++."), Ok("\u{7}".to_string()));
}

#[test]
fn increments_print_their_count() {
    let mut program = "+".repeat(65);
    program.push('.');
    assert_eq!(run_text(&program), Ok("A".to_string()));
}

#[test]
fn cell_wraps_from_127_to_minus_128_and_back() {
    let mut at_max = "+".repeat(127);
    at_max.push('.');
    assert_eq!(run_text(&at_max), Ok("\u{7f}".to_string()));
    let mut wrapped = "+".repeat(128);
    wrapped.push('.');
    assert_eq!(run_text(&wrapped), Ok("?".to_string()));
    wrapped.push_str("-.");
    assert_eq!(run_text(&wrapped), Ok("?\u{7f}".to_string()));
}

#[test]
fn full_turn_of_increments_returns_to_zero() {
    let mut program = "+".repeat(256);
    program.push('.');
    assert_eq!(run_text(&program), Ok("\u{0}".to_string()));
}

#[test]
fn negative_cell_prints_placeholder() {
    assert_eq!(run_text("-."), Ok("?".to_string()));
}

#[test]
fn balanced_brackets_alone_print_nothing() {
    assert_eq!(run_text("[][[]][[[]][]]"), Ok(String::new()));
    assert_eq!(run_text(""), Ok(String::new()));
}

#[test]
fn comments_are_ignored() {
    assert_eq!(run_text("a+b+c.d"), Ok("\u{2}".to_string()));
}

#[test]
fn nested_loops_multiply() {
    assert_eq!(run_text("++[>++[>+<-]<-]>>."), Ok("\u{4}".to_string()));
}

#[test]
fn lone_open_bracket_is_unmatched() {
    assert_eq!(run_text("["), Err(ExecError::UnmatchedBracket));
}

#[test]
fn close_bracket_on_nonzero_cell_is_unmatched() {
    assert_eq!(run_text("+]"), Err(ExecError::UnmatchedBracket));
    assert_eq!(run_text("]"), Ok(String::new()));
}

#[test]
fn moving_below_first_cell_fails() {
    assert_eq!(run_on_tape("<", 1), Err(ExecError::TapeOutOfBounds));
    assert_eq!(run_text(&"<".repeat(15_000)), Ok(String::new()));
    assert_eq!(run_text(&"<".repeat(15_001)), Err(ExecError::TapeOutOfBounds));
}

#[test]
fn moving_past_last_cell_fails() {
    assert_eq!(run_on_tape(">", 1), Err(ExecError::TapeOutOfBounds));
    assert_eq!(run_text(&">".repeat(14_999)), Ok(String::new()));
    assert_eq!(run_text(&">".repeat(15_000)), Err(ExecError::TapeOutOfBounds));
}

#[test]
fn tape_pointer_starts_at_midpoint() {
    assert_eq!(run_on_tape(">", 2), Err(ExecError::TapeOutOfBounds));
    assert_eq!(run_on_tape("<", 2), Ok(String::new()));
    assert_eq!(run_on_tape("<<", 2), Err(ExecError::TapeOutOfBounds));
    assert_eq!(run_on_tape(">", 3), Ok(String::new()));
    assert_eq!(run_on_tape(">>", 3), Err(ExecError::TapeOutOfBounds));
    assert_eq!(run_on_tape("<", 3), Ok(String::new()));
    assert_eq!(run_on_tape("<<", 3), Err(ExecError::TapeOutOfBounds));
}

#[test]
fn steps_one_instruction_at_a_time() {
    let mut program = Program::new(chars("+.[-]"));
    assert_eq!(program.run_step(), Ok(None));
    assert_eq!(program.run_step(), Ok(Some('\u{1}')));
    assert_eq!(program.run_step(), Ok(None));
    assert_eq!(program.run_step(), Ok(None));
    assert_eq!(program.run_step(), Ok(None));
    assert_eq!(program.run_step(), Ok(None));
    assert_eq!(program.run_step(), Ok(None));
}

#[test]
fn failed_step_leaves_engine_usable() {
    let mut program = Program::new_with_tape_length(chars("<"), 1);
    assert_eq!(program.run_step(), Err(ExecError::TapeOutOfBounds));
    assert_eq!(program.run_step(), Err(ExecError::TapeOutOfBounds));
}

#[test]
fn repeated_loop_reuses_its_jumps() {
    assert_eq!(run_text("+++[>+++<-]>[>+<-]>[.-]"), Ok("\u{9}\u{8}\u{7}\u{6}\u{5}\u{4}\u{3}\u{2}\u{1}".to_string()));
}
