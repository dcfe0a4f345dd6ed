use std::collections::HashMap;
use vstd::prelude::*;
use crate::machine::{
    bracket_delta, code_of, initial_machine, is_pair, lemma_net_split, lemma_pair_partner,
    machine_valid, net, opt_seq, output_char, partner, prefixed, run_from, run_result, step_spec,
    text_result, wrapping_dec, wrapping_inc, ExecError, Machine, STEP_LIMIT,
};

verus! {

broadcast use vstd::std_specs::hash::group_hash_axioms;

/// Tape length used by `Program::new`.
pub const DEFAULT_MAX_TAPE_LENGTH: usize = 30_000;

/// Relies on `char::from_u32`: `Some` exactly for the Unicode scalar values,
/// holding the character with that code point.
#[verifier::external_body]
fn char_from_u32(v: u32) -> (r: Option<char>)
    ensures
        r is Some <==> (v < 0xD800 || (0xE000 <= v && v <= 0x10FFFF)),
        r matches Some(c) ==> code_of(c) == v as int,
{
    char::from_u32(v)
}

/// The character `.` emits for the cell value `v`.
fn cell_char(v: i8) -> (r: char)
    ensures
        r == output_char(v),
{
    assert(v < 0 ==> (v as u32) >= 0xFFFF_FF80u32) by (bit_vector);
    assert(v >= 0 ==> (v as u32) == v) by (bit_vector);
    match char_from_u32(v as u32) {
        Some(c) => {
            let ghost d = choose|d: char| #[trigger] code_of(d) == v as int;
            assert(code_of(d) == code_of(c));
            c
        },
        None => '?',
    }
}

/// Relies on `String::push`: appends one character.
#[verifier::external_body]
fn push_char(s: &mut String, c: char)
    ensures
        final(s)@ == old(s)@.push(c),
{
    s.push(c)
}

/// An engine for one run of a program.
pub struct Program {
    code: Vec<char>,
    code_pointer: usize,
    tape: Vec<i8>,
    tape_pointer: usize,
    jumps: HashMap<usize, usize>,
}

impl View for Program {
    type V = Machine;

    closed spec fn view(&self) -> Machine {
        Machine {
            code: self.code@,
            ip: self.code_pointer as int,
            tape: self.tape@,
            dp: self.tape_pointer as int,
        }
    }
}

impl Program {
    /// Pointers in range, and every cached jump joins a matching pair.
    pub closed spec fn wf(&self) -> bool {
        &&& machine_valid(self@)
        &&& forall|k: usize| #[trigger]
            self.jumps@.contains_key(k) ==> {
                let v = self.jumps@[k];
                is_pair(self.code@, k as int, v as int) || is_pair(self.code@, v as int, k as int)
            }
    }

    /// An engine at the start of `code`, on a zeroed tape of `tape_length`
    /// cells with the data pointer at the middle cell.
    pub fn new_with_tape_length(code: Vec<char>, tape_length: usize) -> (r: Program)
        requires
            tape_length > 0,
        ensures
            r.wf(),
            r@ == initial_machine(code@, tape_length as nat),
            r@.dp == tape_length / 2,
    {
        let tape: Vec<i8> = vec![0; tape_length];
        let r = Program {
            code,
            code_pointer: 0,
            tape,
            tape_pointer: tape_length / 2,
            jumps: HashMap::new(),
        };
        assert(r@.tape =~= initial_machine(code@, tape_length as nat).tape);
        r
    }

    /// An engine on a tape of `DEFAULT_MAX_TAPE_LENGTH` cells.
    pub fn new(code: Vec<char>) -> (r: Program)
        ensures
            r.wf(),
            r@ == initial_machine(code@, DEFAULT_MAX_TAPE_LENGTH as nat),
            r@.dp == DEFAULT_MAX_TAPE_LENGTH / 2,
    {
        Program::new_with_tape_length(code, DEFAULT_MAX_TAPE_LENGTH)
    }

    /// The position of the bracket matching the one at `start`, taken from
    /// the cache or found by a scan that is then cached in both directions.
    fn build_jump_destination(&mut self, start: usize) -> (r: Result<usize, ExecError>)
        requires
            old(self).wf(),
            start < old(self).code@.len(),
            old(self).code@[start as int] == '[' || old(self).code@[start as int] == ']',
        ensures
            final(self).wf(),
            final(self)@ == old(self)@,
            match r {
                Ok(q) => partner(old(self).code@, start as int) == Some(q as int),
                Err(e) => e == ExecError::UnmatchedBracket && partner(
                    old(self).code@,
                    start as int,
                ) is None,
            },
    {
        let ghost code = self.code@;
        if let Some(target) = self.jumps.get(&start) {
            let t = *target;
            proof {
                if is_pair(code, start as int, t as int) {
                    lemma_pair_partner(code, start as int, t as int);
                } else {
                    lemma_pair_partner(code, t as int, start as int);
                }
            }
            return Ok(t);
        }
        let len = self.code.len();
        let found: usize;
        if self.code[start] == '[' {
            let mut k: usize = start + 1;
            let mut depth: usize = 1;
            assert(net(code, start as int, start as int) == 0);
            assert(net(code, start as int, start as int + 1) == 1);
            while depth > 0 && k < len
                invariant
                    self.code@ == code,
                    len == code.len(),
                    code[start as int] == '[',
                    start < k <= len,
                    depth <= k - start,
                    depth == 0 ==> k > start + 1 && code[k - 1] == ']',
                    depth as int == net(code, start as int, k as int),
                    forall|m: int| start < m < k ==> #[trigger] net(code, start as int, m) > 0,
                decreases len - k,
            {
                let c = self.code[k];
                if c == '[' {
                    depth = depth + 1;
                } else if c == ']' {
                    depth = depth - 1;
                }
                k = k + 1;
            }
            if depth != 0 {
                assert(net(code, start as int, len as int) > 0);
                assert forall|q: int| !is_pair(code, start as int, q) by {
                    if start < q < len {
                        assert(net(code, start as int, q + 1) > 0);
                    }
                }
                assert(!exists|q: int| is_pair(code, q, start as int));
                return Err(ExecError::UnmatchedBracket);
            }
            found = k - 1;
            assert(is_pair(code, start as int, found as int));
            proof {
                lemma_pair_partner(code, start as int, found as int);
            }
        } else {
            let mut k: usize = start;
            let mut depth: usize = 1;
            assert(net(code, start as int, start as int) == 0);
            assert(net(code, start as int, start as int + 1) == -1);
            while depth > 0 && k > 0
                invariant
                    self.code@ == code,
                    len == code.len(),
                    code[start as int] == ']',
                    k <= start < len,
                    depth <= start + 1 - k,
                    depth == 0 ==> k < start && code[k as int] == '[',
                    depth as int == -net(code, k as int, start as int + 1),
                    forall|m: int| k < m <= start ==> #[trigger] net(code, m, start as int + 1) < 0,
                decreases k,
            {
                k = k - 1;
                let c = self.code[k];
                proof {
                    lemma_net_split(code, k as int, k as int + 1, start as int + 1);
                    assert(net(code, k as int, k as int) == 0);
                    assert(net(code, k as int, k as int + 1) == net(code, k as int, k as int)
                        + bracket_delta(code[k as int]));
                }
                if c == ']' {
                    depth = depth + 1;
                } else if c == '[' {
                    depth = depth - 1;
                }
            }
            if depth != 0 {
                assert(net(code, 0, start as int + 1) < 0);
                assert forall|q: int| !is_pair(code, q, start as int) by {
                    if 0 <= q <= start {
                        assert(net(code, q, start as int + 1) < 0);
                    }
                }
                assert(!exists|q: int| is_pair(code, start as int, q));
                return Err(ExecError::UnmatchedBracket);
            }
            found = k;
            assert forall|m: int| found < m <= start implies #[trigger] net(code, found as int, m) > 0 by {
                lemma_net_split(code, found as int, m, start as int + 1);
                assert(net(code, m, start as int + 1) < 0);
            }
            assert(is_pair(code, found as int, start as int));
            proof {
                lemma_pair_partner(code, found as int, start as int);
            }
        }
        self.jumps.insert(start, found);
        self.jumps.insert(found, start);
        Ok(found)
    }

    /// Executes the instruction at the instruction pointer. At the end of the
    /// program nothing changes and nothing is emitted. On an error the state
    /// is left as it was.
    pub fn run_step(&mut self) -> (r: Result<Option<char>, ExecError>)
        requires
            old(self).wf(),
        ensures
            final(self).wf(),
            old(self)@.ip >= old(self)@.code.len() ==> r == Ok::<Option<char>, ExecError>(None)
                && final(self)@ == old(self)@,
            old(self)@.ip < old(self)@.code.len() ==> match step_spec(old(self)@) {
                Ok((n, o)) => r == Ok::<Option<char>, ExecError>(o) && final(self)@ == n,
                Err(e) => r == Err::<Option<char>, ExecError>(e) && final(self)@ == old(self)@,
            },
    {
        if self.code_pointer >= self.code.len() {
            return Ok(None);
        }
        let mut result: Option<char> = None;
        let cell = self.tape[self.tape_pointer];
        let instruction = self.code[self.code_pointer];
        if instruction == '>' {
            if self.tape_pointer >= self.tape.len() - 1 {
                return Err(ExecError::TapeOutOfBounds);
            }
            self.tape_pointer = self.tape_pointer + 1;
        } else if instruction == '<' {
            if self.tape_pointer == 0 {
                return Err(ExecError::TapeOutOfBounds);
            }
            self.tape_pointer = self.tape_pointer - 1;
        } else if instruction == '+' {
            let v = cell.wrapping_add(1);
            assert(v == wrapping_inc(cell));
            self.tape.set(self.tape_pointer, v);
        } else if instruction == '-' {
            let v = cell.wrapping_sub(1);
            assert(v == wrapping_dec(cell));
            self.tape.set(self.tape_pointer, v);
        } else if instruction == '.' {
            result = Some(cell_char(cell));
        } else if (instruction == '[' && cell == 0) || (instruction == ']' && cell != 0) {
            let target = self.build_jump_destination(self.code_pointer)?;
            self.code_pointer = target;
        }
        self.code_pointer = self.code_pointer + 1;
        Ok(result)
    }

    /// Steps until the instruction pointer reaches the end of the program,
    /// collecting every emitted character in order.
    pub fn run(self) -> (r: Result<String, ExecError>)
        requires
            self.wf(),
        ensures
            text_result(r) == run_result(self@),
    {
        let ghost m0 = self@;
        let mut engine = self;
        let mut result = String::new();
        let mut steps: u64 = 0;
        while engine.code_pointer < engine.code.len()
            invariant
                engine.wf(),
                m0 == self@,
                steps <= STEP_LIMIT,
                run_result(m0) == prefixed(result@, run_from(engine@, (STEP_LIMIT - steps) as nat)),
            decreases STEP_LIMIT - steps,
        {
            if steps == STEP_LIMIT {
                assert(run_from(engine@, 0) == Err::<Seq<char>, ExecError>(
                    ExecError::StepLimitReached,
                ));
                return Err(ExecError::StepLimitReached);
            }
            let ghost before = engine@;
            let ghost out = result@;
            let o = engine.run_step();
            match o {
                Err(e) => {
                    assert(run_from(before, (STEP_LIMIT - steps) as nat) == Err::<Seq<char>, ExecError>(e));
                    return Err(e);
                },
                Ok(o) => {
                    if let Some(c) = o {
                        push_char(&mut result, c);
                    }
                    proof {
                        let rest = run_from(engine@, (STEP_LIMIT - steps - 1) as nat);
                        assert(result@ =~= out + opt_seq(o));
                        match rest {
                            Ok(t) => {
                                assert(out + (opt_seq(o) + t) =~= result@ + t);
                            },
                            Err(_) => {},
                        }
                    }
                },
            }
            steps = steps + 1;
        }
        assert(result@ + Seq::<char>::empty() =~= result@);
        Ok(result)
    }
}

} // verus!
