//! The tape machine that runs a flat program.
//!
//! The machine owns a tape of byte cells and two positions, one in the
//! program and one on the tape. It does no input or output itself:
//! [`Machine::step`] executes one instruction and reports what the caller
//! has to do, and [`interpret`] runs a program against an input given as
//! bytes, for a bounded number of steps.
//!
//! The tape grows to the right, in blocks of [`GROWTH`] zero cells, as far
//! as a cell access needs it. It never grows to the left. The tape position
//! is a signed 32-bit number and moves with wraparound; it may stand left of
//! cell 0, and it is an error only to access a cell there: the machine
//! reports [`Effect::OutOfBounds`] and stays as it is.

use vstd::prelude::*;
use vstd::arithmetic::div_mod::lemma_add_mod_noop_right;
use vstd::arithmetic::div_mod::lemma_mod_multiples_vanish;
use crate::compile::Instruction;

verus! {

/// The number of cells of a fresh tape.
pub const INITIAL_CELLS: usize = 512;

/// The number of zero cells that the tape grows by at a time.
pub const GROWTH: usize = 10;

/// A tape machine in the middle of a run.
#[derive(Debug)]
pub struct Machine {
    /// The index of the next instruction.
    pub ip: usize,
    /// The tape position. Negative when it stands left of cell 0.
    pub pos: i32,
    /// The cells of the tape.
    pub tape: Vec<u8>,
}

/// The mathematical value of a [`Machine`].
pub struct State {
    pub ip: int,
    pub pos: i32,
    pub cells: Seq<u8>,
}

impl View for Machine {
    type V = State;

    open spec fn view(&self) -> State {
        State { ip: self.ip as int, pos: self.pos, cells: self.tape@ }
    }
}

/// What one step of the machine did, or why it did nothing.
#[derive(Debug, PartialEq, Eq, Structural, Clone, Copy)]
pub enum Effect {
    /// The program has ended: there is no instruction at the program
    /// position.
    Halted,
    /// An instruction without input or output was executed.
    Stepped,
    /// An output instruction was executed; the byte is to be written.
    Output(u8),
    /// An input instruction was executed and has stored the byte given.
    Consumed,
    /// The next instruction is an input instruction and no byte was given:
    /// nothing was executed.
    NeedInput,
    /// The next instruction accesses the current cell and the tape position
    /// stands left of cell 0: nothing was executed.
    OutOfBounds,
}

/// `n` zero cells.
pub open spec fn zeros(n: nat) -> Seq<u8> {
    Seq::new(n, |i: int| 0u8)
}

/// The tape as a cell access at `pos` finds it: as it is where `pos` is in
/// range, and else extended by as many blocks of [`GROWTH`] zero cells as it
/// takes to bring `pos` in range, and no more.
pub open spec fn grown(cells: Seq<u8>, pos: int) -> Seq<u8> {
    if pos < cells.len() {
        cells
    } else {
        cells + zeros((GROWTH * ((pos - cells.len()) / (GROWTH as int) + 1)) as nat)
    }
}

/// The value of a cell after `delta` was added to it: the sum modulo 256.
pub open spec fn cell_sum(cell: u8, delta: i32) -> u8 {
    ((cell as int + delta as int) % 256) as u8
}

/// The state after one step, and the step's effect. `input` is the next
/// byte of input, if there is one; only an input instruction uses it.
///
/// Every instruction but a move accesses the current cell. It is not
/// executed where the position stands left of cell 0, and else grows the
/// tape first. A jump that is taken continues at its target, every other
/// instruction at the next index.
pub open spec fn step_spec(program: Seq<Instruction>, s: State, input: Option<u8>) -> (
    State,
    Effect,
) {
    if !(0 <= s.ip < program.len()) {
        (s, Effect::Halted)
    } else if s.pos < 0 && !(program[s.ip] is Move) {
        (s, Effect::OutOfBounds)
    } else {
        let cells = grown(s.cells, s.pos as int);
        let cell = cells[s.pos as int];
        match program[s.ip] {
            Instruction::Move(n) => (
                State { ip: s.ip + 1, pos: s.pos.wrapping_add(n), cells: s.cells },
                Effect::Stepped,
            ),
            Instruction::Add(n) => (
                State {
                    ip: s.ip + 1,
                    pos: s.pos,
                    cells: cells.update(s.pos as int, cell_sum(cell, n)),
                },
                Effect::Stepped,
            ),
            Instruction::Output => (
                State { ip: s.ip + 1, pos: s.pos, cells },
                Effect::Output(cell),
            ),
            Instruction::Input => match input {
                Some(byte) => (
                    State { ip: s.ip + 1, pos: s.pos, cells: cells.update(s.pos as int, byte) },
                    Effect::Consumed,
                ),
                None => (s, Effect::NeedInput),
            },
            Instruction::JmpEq(target) => (
                State { ip: if cell == 0 { target as int } else { s.ip + 1 }, pos: s.pos, cells },
                Effect::Stepped,
            ),
            Instruction::JmpNEq(target) => (
                State { ip: if cell != 0 { target as int } else { s.ip + 1 }, pos: s.pos, cells },
                Effect::Stepped,
            ),
        }
    }
}

/// Growing the tape for an access keeps every cell it had, adds only zero
/// cells, and brings the position in range.
pub proof fn lemma_grown(cells: Seq<u8>, pos: int)
    ensures
        grown(cells, pos).len() >= cells.len(),
        pos < grown(cells, pos).len(),
        grown(cells, pos).take(cells.len() as int) == cells,
        forall|i: int| cells.len() <= i < grown(cells, pos).len() ==> grown(cells, pos)[i] == 0,
{
    assert(grown(cells, pos).take(cells.len() as int) =~= cells);
}

/// No step makes the tape shorter, and no step changes a cell other than
/// the one at the tape position.
pub proof fn lemma_step_keeps_cells(program: Seq<Instruction>, s: State, input: Option<u8>)
    ensures
        step_spec(program, s, input).0.cells.len() >= s.cells.len(),
        forall|i: int|
            0 <= i < s.cells.len() && i != s.pos ==> step_spec(program, s, input).0.cells[i]
                == s.cells[i],
{
    lemma_grown(s.cells, s.pos as int);
    let g = grown(s.cells, s.pos as int);
    assert forall|i: int| 0 <= i < s.cells.len() implies g[i] == s.cells[i] by {
        assert(g.take(s.cells.len() as int)[i] == g[i]);
    }
}

impl Machine {
    /// A machine at the start of a run: 512 zero cells, both positions 0.
    pub fn new() -> (m: Machine)
        ensures
            m@ == (State { ip: 0, pos: 0, cells: zeros(INITIAL_CELLS as nat) }),
    {
        let mut tape: Vec<u8> = Vec::new();
        let mut i: usize = 0;
        while i < INITIAL_CELLS
            invariant
                i <= INITIAL_CELLS,
                tape@ == zeros(i as nat),
            decreases INITIAL_CELLS - i,
        {
            tape.push(0u8);
            assert(tape@ =~= zeros((i + 1) as nat));
            i += 1;
        }
        Machine { ip: 0, pos: 0, tape }
    }

    /// Grows the tape until the tape position is no longer beyond its end.
    /// The cells that the tape had stay as they were.
    pub fn reserve(&mut self)
        ensures
            final(self).tape@ == grown(old(self).tape@, old(self).pos as int),
            final(self).pos == old(self).pos,
            final(self).ip == old(self).ip,
            final(self).pos < final(self).tape@.len(),
            final(self).tape@.take(old(self).tape@.len() as int) == old(self).tape@,
    {
        if self.pos < 0 {
            proof {
                lemma_grown(self.tape@, self.pos as int);
            }
            return ;
        }
        let ghost mut added: nat = 0;
        proof {
            assert(self.tape@ =~= old(self).tape@ + zeros(0));
        }
        while self.pos as usize >= self.tape.len()
            invariant
                self.pos == old(self).pos,
                self.pos >= 0,
                self.ip == old(self).ip,
                self.tape@ == old(self).tape@ + zeros(added),
                added % GROWTH as nat == 0,
                added == 0 || old(self).tape@.len() + added - GROWTH <= self.pos,
            decreases self.pos + GROWTH - self.tape.len(),
        {
            let ghost before = self.tape@;
            let mut j: usize = 0;
            while j < GROWTH
                invariant
                    j <= GROWTH,
                    self.pos == old(self).pos,
                    self.ip == old(self).ip,
                    self.tape@ == before + zeros(j as nat),
                decreases GROWTH - j,
            {
                self.tape.push(0u8);
                assert(self.tape@ =~= before + zeros((j + 1) as nat));
                j += 1;
            }
            proof {
                assert(self.tape@.len() == before.len() + GROWTH);
                assert(self.tape@ =~= old(self).tape@ + zeros(added + GROWTH as nat));
                added = added + GROWTH as nat;
            }
        }
        proof {
            assert(self.tape@ =~= grown(old(self).tape@, old(self).pos as int));
            lemma_grown(old(self).tape@, old(self).pos as int);
        }
    }

    /// Executes the instruction at the program position, if there is one,
    /// and says what it did. `input` is the next byte of input, if the
    /// caller has one at hand; an input instruction stores it and reports
    /// `Consumed`. Without a byte an input instruction is not executed:
    /// the machine reports `NeedInput` and stays as it is. It also stays
    /// as it is, and reports `OutOfBounds`, where the instruction accesses
    /// the current cell and the position stands left of cell 0.
    pub fn step(&mut self, program: &[Instruction], input: Option<u8>) -> (effect: Effect)
        ensures
            (final(self)@, effect) == step_spec(program@, old(self)@, input),
            final(self).tape@.len() >= old(self).tape@.len(),
            forall|i: int|
                0 <= i < old(self).tape@.len() && i != old(self).pos ==> final(self).tape@[i]
                    == old(self).tape@[i],
    {
        proof {
            lemma_step_keeps_cells(program@, self@, input);
        }
        if self.ip >= program.len() {
            return Effect::Halted;
        }
        let instruction = program[self.ip];
        if let Instruction::Move(n) = instruction {
            self.pos = self.pos.wrapping_add(n);
            self.ip = self.ip + 1;
            return Effect::Stepped;
        }
        if self.pos < 0 {
            return Effect::OutOfBounds;
        }
        match instruction {
            Instruction::Move(_) => Effect::Stepped,
            Instruction::Add(n) => {
                self.reserve();
                let at = self.pos as usize;
                let cell = self.tape[at];
                self.tape.set(at, add_to_cell(cell, n));
                self.ip = self.ip + 1;
                Effect::Stepped
            },
            Instruction::Output => {
                self.reserve();
                self.ip = self.ip + 1;
                Effect::Output(self.tape[self.pos as usize])
            },
            Instruction::Input => match input {
                Some(byte) => {
                    self.reserve();
                    let at = self.pos as usize;
                    self.tape.set(at, byte);
                    self.ip = self.ip + 1;
                    Effect::Consumed
                },
                None => Effect::NeedInput,
            },
            Instruction::JmpEq(target) => {
                self.reserve();
                if self.tape[self.pos as usize] == 0 {
                    self.ip = target;
                } else {
                    self.ip = self.ip + 1;
                }
                Effect::Stepped
            },
            Instruction::JmpNEq(target) => {
                self.reserve();
                if self.tape[self.pos as usize] != 0 {
                    self.ip = target;
                } else {
                    self.ip = self.ip + 1;
                }
                Effect::Stepped
            },
        }
    }
}

/// Adds a signed delta to a cell, modulo 256.
pub fn add_to_cell(cell: u8, delta: i32) -> (sum: u8)
    ensures
        sum == cell_sum(cell, delta),
{
    let shifted: u64 = (delta as i64 + 0x8000_0000i64) as u64;
    let low: u64 = shifted % 256;
    let sum: u64 = (cell as u64 + low) % 256;
    assert(sum == (cell as int + delta as int) % 256) by {
        lemma_add_mod_noop_right(cell as int, delta as int + 0x8000_0000, 256);
        lemma_mod_multiples_vanish(0x80_0000, cell as int + delta as int, 256);
        assert(256 * 0x80_0000 + (cell as int + delta as int) == cell as int + (delta as int
            + 0x8000_0000));
    }
    sum as u8
}

/// How a bounded run ended.
#[derive(Debug, PartialEq, Eq, Structural, Clone, Copy)]
pub enum Outcome {
    /// The program position reached the end of the program.
    Halted,
    /// An input instruction found the input used up. This is fatal: the
    /// instruction was not executed and nothing was output after it.
    InputExhausted,
    /// An instruction had to access a cell left of cell 0. This is fatal:
    /// the instruction was not executed.
    OutOfBounds,
    /// The step limit was reached before the program ended.
    OutOfSteps,
}

/// A bounded run of a program: how it ended, the machine as it was left,
/// how many bytes of input were read and what was output.
#[derive(Debug)]
pub struct Execution {
    pub outcome: Outcome,
    pub machine: Machine,
    pub consumed: usize,
    pub output: Vec<u8>,
}

/// The mathematical value of an [`Execution`].
pub struct Run {
    pub outcome: Outcome,
    pub state: State,
    pub consumed: nat,
    pub output: Seq<u8>,
}

impl View for Execution {
    type V = Run;

    open spec fn view(&self) -> Run {
        Run {
            outcome: self.outcome,
            state: self.machine@,
            consumed: self.consumed as nat,
            output: self.output@,
        }
    }
}

/// The state of a machine at the start of a run.
pub open spec fn initial_state() -> State {
    State { ip: 0, pos: 0, cells: zeros(INITIAL_CELLS as nat) }
}

/// The next byte of `input` after `consumed` bytes were read, if there is
/// one.
pub open spec fn next_byte(input: Seq<u8>, consumed: nat) -> Option<u8> {
    if consumed < input.len() {
        Some(input[consumed as int])
    } else {
        None
    }
}

/// The run that continues from state `s`, with `consumed` bytes of `input`
/// read and `output` written so far, for at most `steps` more steps.
///
/// The run ends as `Halted` when the program has ended, as `OutOfBounds`
/// when an instruction has to access a cell left of cell 0, as
/// `InputExhausted` when an input instruction finds no byte left, and as
/// `OutOfSteps` when none of these is the case and no step is left.
pub open spec fn run_from(
    program: Seq<Instruction>,
    input: Seq<u8>,
    s: State,
    consumed: nat,
    output: Seq<u8>,
    steps: nat,
) -> Run
    decreases steps,
{
    let (next, effect) = step_spec(program, s, next_byte(input, consumed));
    match effect {
        Effect::Halted => Run { outcome: Outcome::Halted, state: s, consumed, output },
        Effect::NeedInput => Run { outcome: Outcome::InputExhausted, state: s, consumed, output },
        Effect::OutOfBounds => Run { outcome: Outcome::OutOfBounds, state: s, consumed, output },
        Effect::Stepped => if steps == 0 {
            Run { outcome: Outcome::OutOfSteps, state: s, consumed, output }
        } else {
            run_from(program, input, next, consumed, output, (steps - 1) as nat)
        },
        Effect::Output(byte) => if steps == 0 {
            Run { outcome: Outcome::OutOfSteps, state: s, consumed, output }
        } else {
            run_from(program, input, next, consumed, output.push(byte), (steps - 1) as nat)
        },
        Effect::Consumed => if steps == 0 {
            Run { outcome: Outcome::OutOfSteps, state: s, consumed, output }
        } else {
            run_from(program, input, next, consumed + 1, output, (steps - 1) as nat)
        },
    }
}

/// The run of a program from a fresh machine, against `input`, for at most
/// `steps` steps.
pub open spec fn run_spec(program: Seq<Instruction>, input: Seq<u8>, steps: nat) -> Run {
    run_from(program, input, initial_state(), 0, Seq::empty(), steps)
}

/// Runs a program on a fresh machine. Input instructions read `input` byte
/// by byte; what output instructions write is collected. The run ends when
/// the program ends, when an input instruction finds `input` used up, when
/// an instruction has to access a cell left of cell 0, or after `max_steps`
/// instructions.
pub fn interpret(instructions: &[Instruction], input: &[u8], max_steps: u64) -> (run: Execution)
    ensures
        run@ == run_spec(instructions@, input@, max_steps as nat),
{
    let mut machine = Machine::new();
    let mut consumed: usize = 0;
    let mut output: Vec<u8> = Vec::new();
    let mut left: u64 = max_steps;
    loop
        invariant
            consumed <= input.len(),
            run_from(instructions@, input@, machine@, consumed as nat, output@, left as nat)
                == run_spec(instructions@, input@, max_steps as nat),
        decreases left,
    {
        if machine.ip >= instructions.len() {
            return Execution { outcome: Outcome::Halted, machine, consumed, output };
        }
        let next = if consumed < input.len() {
            Some(input[consumed])
        } else {
            None
        };
        let instruction = instructions[machine.ip];
        if let Instruction::Move(_) = instruction {
        } else if machine.pos < 0 {
            return Execution { outcome: Outcome::OutOfBounds, machine, consumed, output };
        } else if next.is_none() {
            if let Instruction::Input = instruction {
                return Execution { outcome: Outcome::InputExhausted, machine, consumed, output };
            }
        }
        if left == 0 {
            return Execution { outcome: Outcome::OutOfSteps, machine, consumed, output };
        }
        match machine.step(instructions, next) {
            Effect::Output(byte) => {
                output.push(byte);
            },
            Effect::Consumed => {
                consumed = consumed + 1;
            },
            _ => {},
        }
        left = left - 1;
    }
}

} // verus!
