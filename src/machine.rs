use vstd::prelude::*;

verus! {

/// Why execution stopped before reaching the end of the program.
#[derive(Clone, Copy, Debug, PartialEq, Eq, Structural)]
pub enum ExecError {
    /// A `[` or `]` has no matching bracket.
    UnmatchedBracket,
    /// `<` at the first cell, or `>` at the last one.
    TapeOutOfBounds,
    /// `run` executed its maximum number of steps without finishing.
    StepLimitReached,
}

/// The abstract state of the engine.
pub struct Machine {
    pub code: Seq<char>,
    pub ip: int,
    pub tape: Seq<i8>,
    pub dp: int,
}

/// The state every engine starts in.
pub open spec fn initial_machine(code: Seq<char>, tape_length: nat) -> Machine {
    Machine { code, ip: 0, tape: Seq::new(tape_length, |i: int| 0i8), dp: tape_length as int / 2 }
}

/// Both pointers are in range; the instruction pointer may sit at the end.
pub open spec fn machine_valid(m: Machine) -> bool {
    &&& 0 <= m.ip <= m.code.len()
    &&& 0 <= m.dp < m.tape.len()
}

pub open spec fn bracket_delta(c: char) -> int {
    if c == '[' {
        1
    } else if c == ']' {
        -1
    } else {
        0
    }
}

/// Number of `[` minus number of `]` in `code[lo..hi]`.
pub open spec fn net(code: Seq<char>, lo: int, hi: int) -> int
    decreases hi - lo,
{
    if hi <= lo {
        0
    } else {
        net(code, lo, hi - 1) + bracket_delta(code[hi - 1])
    }
}

/// `[` at `open` is closed by `]` at `close`: the text between them is
/// balanced and no earlier `]` closes `open`.
pub open spec fn is_pair(code: Seq<char>, open: int, close: int) -> bool {
    &&& 0 <= open < close < code.len()
    &&& code[open] == '['
    &&& code[close] == ']'
    &&& net(code, open, close + 1) == 0
    &&& forall|k: int| open < k <= close ==> #[trigger] net(code, open, k) > 0
}

/// The bracket that matches the one at `p`, if there is one.
pub open spec fn partner(code: Seq<char>, p: int) -> Option<int> {
    if exists|q: int| is_pair(code, p, q) {
        Some(choose|q: int| is_pair(code, p, q))
    } else if exists|q: int| is_pair(code, q, p) {
        Some(choose|q: int| is_pair(code, q, p))
    } else {
        None
    }
}

/// Signed 8-bit increment with wrap-around.
pub open spec fn wrapping_inc(v: i8) -> i8 {
    if v == 127 {
        -128i8
    } else {
        (v + 1) as i8
    }
}

/// Signed 8-bit decrement with wrap-around.
pub open spec fn wrapping_dec(v: i8) -> i8 {
    if v == -128 {
        127i8
    } else {
        (v - 1) as i8
    }
}

/// The code point of a character.
pub open spec fn code_of(c: char) -> int {
    c as int
}

/// The character that `.` emits for a cell value: the character with that
/// code for a non-negative value, `?` otherwise.
pub open spec fn output_char(v: i8) -> char {
    if v >= 0 {
        choose|c: char| #[trigger] code_of(c) == v as int
    } else {
        '?'
    }
}

/// The state after the instruction pointer moves one position on.
pub open spec fn advance(m: Machine) -> Machine {
    Machine { code: m.code, ip: m.ip + 1, tape: m.tape, dp: m.dp }
}

/// The state after a jump to the bracket at `target` and the advance past it.
pub open spec fn jump_past(m: Machine, target: int) -> Machine {
    Machine { code: m.code, ip: target + 1, tape: m.tape, dp: m.dp }
}

/// The state after the current cell becomes `v` and the pointer advances.
pub open spec fn store(m: Machine, v: i8) -> Machine {
    Machine { code: m.code, ip: m.ip + 1, tape: m.tape.update(m.dp, v), dp: m.dp }
}

/// A jump to the partner of the current bracket, or the unmatched-bracket error.
pub open spec fn jump_step(m: Machine) -> Result<(Machine, Option<char>), ExecError> {
    match partner(m.code, m.ip) {
        Some(q) => Ok((jump_past(m, q), None)),
        None => Err(ExecError::UnmatchedBracket),
    }
}

/// One instruction at `m.ip` (which must be before the end): the next state
/// and the emitted character, or the error that stops execution.
pub open spec fn step_spec(m: Machine) -> Result<(Machine, Option<char>), ExecError> {
    let c = m.code[m.ip];
    let v = m.tape[m.dp];
    if c == '>' {
        if m.dp + 1 < m.tape.len() {
            Ok((Machine { code: m.code, ip: m.ip + 1, tape: m.tape, dp: m.dp + 1 }, None))
        } else {
            Err(ExecError::TapeOutOfBounds)
        }
    } else if c == '<' {
        if m.dp > 0 {
            Ok((Machine { code: m.code, ip: m.ip + 1, tape: m.tape, dp: m.dp - 1 }, None))
        } else {
            Err(ExecError::TapeOutOfBounds)
        }
    } else if c == '+' {
        Ok((store(m, wrapping_inc(v)), None))
    } else if c == '-' {
        Ok((store(m, wrapping_dec(v)), None))
    } else if c == '.' {
        Ok((advance(m), Some(output_char(v))))
    } else if c == '[' && v == 0 {
        jump_step(m)
    } else if c == ']' && v != 0 {
        jump_step(m)
    } else {
        Ok((advance(m), None))
    }
}

/// The characters of an optional output, as a sequence.
pub open spec fn opt_seq(o: Option<char>) -> Seq<char> {
    match o {
        Some(c) => seq![c],
        None => Seq::empty(),
    }
}

/// `out` placed before the output of `r`; errors pass through.
pub open spec fn prefixed(out: Seq<char>, r: Result<Seq<char>, ExecError>) -> Result<Seq<char>, ExecError> {
    match r {
        Ok(rest) => Ok(out + rest),
        Err(e) => Err(e),
    }
}

/// Executes from `m` for at most `fuel` steps: the output up to the end of
/// the program, the error of the step that failed, or `StepLimitReached`.
pub open spec fn run_from(m: Machine, fuel: nat) -> Result<Seq<char>, ExecError>
    decreases fuel,
{
    if m.ip >= m.code.len() {
        Ok(Seq::empty())
    } else if fuel == 0 {
        Err(ExecError::StepLimitReached)
    } else {
        match step_spec(m) {
            Ok((n, o)) => prefixed(opt_seq(o), run_from(n, (fuel - 1) as nat)),
            Err(e) => Err(e),
        }
    }
}

/// `net` over adjacent ranges adds up.
pub proof fn lemma_net_split(code: Seq<char>, lo: int, mid: int, hi: int)
    requires
        lo <= mid <= hi,
    ensures
        net(code, lo, hi) == net(code, lo, mid) + net(code, mid, hi),
    decreases hi - mid,
{
    if hi > mid {
        lemma_net_split(code, lo, mid, hi - 1);
    }
}

/// A `[` has at most one matching `]`, and a `]` at most one matching `[`.
pub proof fn lemma_pair_unique(code: Seq<char>, open1: int, close1: int, open2: int, close2: int)
    requires
        is_pair(code, open1, close1),
        is_pair(code, open2, close2),
        open1 == open2 || close1 == close2,
    ensures
        open1 == open2 && close1 == close2,
{
    if open1 == open2 {
        if close1 < close2 {
            assert(net(code, open1, close1 + 1) > 0);
        } else if close2 < close1 {
            assert(net(code, open1, close2 + 1) > 0);
        }
    } else if open1 < open2 {
        assert(net(code, open1, open2) > 0);
        lemma_net_split(code, open1, open2, close1 + 1);
    } else {
        assert(net(code, open2, open1) > 0);
        lemma_net_split(code, open2, open1, close1 + 1);
    }
}

/// The two brackets of a pair are each other's partner.
pub proof fn lemma_pair_partner(code: Seq<char>, open: int, close: int)
    requires
        is_pair(code, open, close),
    ensures
        partner(code, open) == Some(close),
        partner(code, close) == Some(open),
{
    let c = choose|q: int| is_pair(code, open, q);
    lemma_pair_unique(code, open, close, open, c);
    assert(!exists|q: int| is_pair(code, close, q));
    let o = choose|q: int| is_pair(code, q, close);
    lemma_pair_unique(code, open, close, o, close);
}

/// Jump resolution is symmetric: if the bracket at `i` resolves to `j`,
/// the bracket at `j` resolves to `i`. Since `partner` is a function of the
/// program text alone, resolving the same bracket again gives the same
/// position.
pub proof fn lemma_jump_symmetric(code: Seq<char>, i: int, j: int)
    requires
        partner(code, i) == Some(j),
    ensures
        partner(code, j) == Some(i),
        is_pair(code, i, j) || is_pair(code, j, i),
{
    if exists|q: int| is_pair(code, i, q) {
        lemma_pair_partner(code, i, j);
    } else {
        lemma_pair_partner(code, j, i);
    }
}

/// Number of steps after which `run` gives up on a program that has not
/// finished.
pub const STEP_LIMIT: u64 = 0xFFFF_FFFF_FFFF_FFFF;

/// The characters of a returned string; errors pass through.
pub open spec fn text_result(r: Result<String, ExecError>) -> Result<Seq<char>, ExecError> {
    match r {
        Ok(s) => Ok(s@),
        Err(e) => Err(e),
    }
}

/// What `run` returns for an engine in state `m`.
pub open spec fn run_result(m: Machine) -> Result<Seq<char>, ExecError> {
    run_from(m, STEP_LIMIT as nat)
}

/// Every prefix has at least as many `[` as `]`, and the whole text has as
/// many of each.
pub open spec fn balanced(code: Seq<char>) -> bool {
    &&& net(code, 0, code.len() as int) == 0
    &&& forall|k: int| 0 <= k <= code.len() ==> #[trigger] net(code, 0, k) >= 0
}

/// The text holds no character but `[` and `]`.
pub open spec fn only_brackets(code: Seq<char>) -> bool {
    forall|i: int| 0 <= i < code.len() ==> #[trigger] code[i] == '[' || code[i] == ']'
}

proof fn lemma_first_return(code: Seq<char>, open: int, k: int)
    requires
        0 <= open < k <= code.len(),
        code[open] == '[',
        net(code, open, code.len() as int) <= 0,
        forall|m: int| open < m <= k ==> #[trigger] net(code, open, m) > 0,
    ensures
        exists|q: int| is_pair(code, open, q),
    decreases code.len() - k,
{
    assert(k < code.len());
    assert(net(code, open, k + 1) == net(code, open, k) + bracket_delta(code[k]));
    if net(code, open, k + 1) > 0 {
        lemma_first_return(code, open, k + 1);
    } else {
        assert(is_pair(code, open, k));
    }
}

/// In a balanced text every `[` has a matching `]`.
pub proof fn lemma_balanced_open_has_pair(code: Seq<char>, open: int)
    requires
        balanced(code),
        0 <= open < code.len(),
        code[open] == '[',
    ensures
        exists|q: int| is_pair(code, open, q),
{
    lemma_net_split(code, 0, open, code.len() as int);
    assert(net(code, 0, open) >= 0);
    assert(net(code, open, open) == 0);
    assert(net(code, open, open + 1) == 1);
    lemma_first_return(code, open, open + 1);
}

proof fn lemma_brackets_on_zero_tape(m: Machine, fuel: nat)
    requires
        machine_valid(m),
        balanced(m.code),
        only_brackets(m.code),
        forall|j: int| 0 <= j < m.tape.len() ==> #[trigger] m.tape[j] == 0,
        fuel >= m.code.len() - m.ip,
    ensures
        run_from(m, fuel) == Ok::<Seq<char>, ExecError>(Seq::empty()),
    decreases m.code.len() - m.ip,
{
    if m.ip < m.code.len() {
        assert(m.tape[m.dp] == 0);
        let c = m.code[m.ip];
        assert(c == '[' || c == ']');
        let n = if c == '[' {
            lemma_balanced_open_has_pair(m.code, m.ip);
            let q = choose|q: int| is_pair(m.code, m.ip, q);
            lemma_pair_partner(m.code, m.ip, q);
            jump_past(m, q)
        } else {
            advance(m)
        };
        assert(step_spec(m) == Ok::<(Machine, Option<char>), ExecError>((n, None)));
        lemma_brackets_on_zero_tape(n, (fuel - 1) as nat);
        assert(Seq::<char>::empty() + Seq::<char>::empty() =~= Seq::<char>::empty());
    }
}

/// A program of balanced brackets and nothing else, started on a fresh
/// tape, runs to its end and emits nothing: every
/// `[` sees a zero cell and jumps past its `]`.
pub proof fn lemma_balanced_brackets_emit_nothing(code: Seq<char>, tape_length: nat)
    requires
        balanced(code),
        only_brackets(code),
        tape_length > 0,
        code.len() <= STEP_LIMIT,
    ensures
        run_result(initial_machine(code, tape_length)) == Ok::<Seq<char>, ExecError>(
            Seq::empty(),
        ),
{
    lemma_brackets_on_zero_tape(initial_machine(code, tape_length), STEP_LIMIT as nat);
}

/// Cell arithmetic wraps in signed 8 bits: `+` on 127 stores -128 and `-`
/// on -128 stores 127.
pub proof fn lemma_cell_arithmetic_wraps(m: Machine)
    requires
        machine_valid(m),
        m.ip < m.code.len(),
    ensures
        m.code[m.ip] == '+' && m.tape[m.dp] == 127 ==> (step_spec(m) matches Ok((n, _))
            && n.tape[m.dp] == -128),
        m.code[m.ip] == '-' && m.tape[m.dp] == -128 ==> (step_spec(m) matches Ok((n, _))
            && n.tape[m.dp] == 127),
{
}

} // verus!
