//! The virtual machine: a growable memory of wide signed integers, an
//! instruction decoder, and a stepping execution engine with
//! position/immediate/relative addressing and suspend-on-empty-input.
//!
//! The whole machine is modelled by the ghost [`State`] and the one-step
//! transition function [`spec_step`]; every executable operation is proved
//! equal to that model. Because `spec_step` is a function, execution is
//! deterministic by construction (see [`lemma_run_deterministic`]).

use std::collections::VecDeque;
use vstd::prelude::*;

verus! {

/// Upper bound on the number of instructions a single `run` call will
/// execute before giving up with `VmError::StepLimitReached`. Large enough
/// that no realistic program reaches it; it exists so that `run` provably
/// terminates.
pub const MAX_STEPS: u64 = 0x1000_0000_0000_0000;

/// One operation of the instruction set, the low two decimal digits of an
/// instruction word.
#[derive(Clone, Copy, PartialEq, Eq, Structural, Debug)]
pub enum Op {
    Add,
    Mul,
    Input,
    Output,
    JmpIfTrue,
    JmpIfFalse,
    LessThan,
    Equals,
    AdjustRelBase,
    Halt,
}

/// How one operand is interpreted: an address, the value itself, or an
/// offset from the relative base.
#[derive(Clone, Copy, PartialEq, Eq, Structural, Debug)]
pub enum ParamMode {
    Position,
    Immediate,
    Relative,
}

/// Outcome of executing a single instruction.
#[derive(Clone, Copy, PartialEq, Eq, Structural, Debug)]
pub enum StepResult {
    /// The instruction completed and the machine can keep going.
    Continued,
    /// An input instruction found the queue empty; nothing changed, and the
    /// same instruction retries once input arrives.
    Suspended,
    /// A halt instruction was reached.
    Halted,
}

/// A fatal condition. Any of these aborts the run; none is recoverable.
#[derive(Clone, Copy, PartialEq, Eq, Structural, Debug)]
pub enum VmError {
    /// The instruction word is negative or its low two digits name no operation.
    InvalidOpcode,
    /// A mode digit names no addressing mode, or a write target was declared
    /// immediate.
    InvalidParameterMode,
    /// A resolved address (or the program counter) lies outside memory.
    AddressOutOfRange,
    /// An arithmetic result does not fit the machine's 128-bit cells.
    Overflow,
    /// `run` executed `MAX_STEPS` instructions without halting or suspending.
    StepLimitReached,
}

/// The mathematical state of one machine: program counter, relative base,
/// memory contents, pending inputs and accumulated outputs.
#[verifier::ext_equal]
pub ghost struct State {
    pub pc: int,
    pub base: int,
    pub mem: Seq<i128>,
    pub inputs: Seq<i128>,
    pub outputs: Seq<i128>,
}

/// Which operation the low two decimal digits of an instruction word name.
pub open spec fn spec_op_from(v: int) -> Option<Op> {
    let c = v % 100;
    if c == 1 {
        Some(Op::Add)
    } else if c == 2 {
        Some(Op::Mul)
    } else if c == 3 {
        Some(Op::Input)
    } else if c == 4 {
        Some(Op::Output)
    } else if c == 5 {
        Some(Op::JmpIfTrue)
    } else if c == 6 {
        Some(Op::JmpIfFalse)
    } else if c == 7 {
        Some(Op::LessThan)
    } else if c == 8 {
        Some(Op::Equals)
    } else if c == 9 {
        Some(Op::AdjustRelBase)
    } else if c == 99 {
        Some(Op::Halt)
    } else {
        None
    }
}

/// Which addressing mode a mode digit names.
pub open spec fn spec_mode_from(v: int) -> Option<ParamMode> {
    if v == 0 {
        Some(ParamMode::Position)
    } else if v == 1 {
        Some(ParamMode::Immediate)
    } else if v == 2 {
        Some(ParamMode::Relative)
    } else {
        None
    }
}

/// Decoding one instruction word: opcode from the low two digits, one mode
/// digit per parameter position from the next three digits. A negative word
/// or an unknown opcode or mode digit is a fatal decode error.
pub open spec fn spec_decode_word(w: i128) -> Result<(Op, ParamMode, ParamMode, ParamMode), VmError> {
    if w < 0 {
        Err(VmError::InvalidOpcode)
    } else {
        match spec_op_from(w as int) {
            None => Err(VmError::InvalidOpcode),
            Some(op) => {
                let d1 = spec_mode_from(w as int / 100 % 10);
                let d2 = spec_mode_from(w as int / 1000 % 10);
                let d3 = spec_mode_from(w as int / 10000 % 10);
                if d1 is Some && d2 is Some && d3 is Some {
                    Ok((op, d1->0, d2->0, d3->0))
                } else {
                    Err(VmError::InvalidParameterMode)
                }
            },
        }
    }
}

/// Whether a read operand resolves to something inside memory.
pub open spec fn read_ok(s: State, mode: ParamMode, raw: i128) -> bool {
    match mode {
        ParamMode::Position => 0 <= raw < s.mem.len(),
        ParamMode::Immediate => true,
        ParamMode::Relative => 0 <= s.base + raw < s.mem.len(),
    }
}

/// The value a read operand denotes.
pub open spec fn read_val(s: State, mode: ParamMode, raw: i128) -> i128 {
    match mode {
        ParamMode::Position => s.mem[raw as int],
        ParamMode::Immediate => raw,
        ParamMode::Relative => s.mem[s.base + raw],
    }
}

/// Whether a write target resolves to an address inside memory. An
/// immediate write target never does: it is an invalid-program condition.
pub open spec fn write_ok(s: State, mode: ParamMode, raw: i128) -> bool {
    match mode {
        ParamMode::Position => 0 <= raw < s.mem.len(),
        ParamMode::Immediate => false,
        ParamMode::Relative => 0 <= s.base + raw < s.mem.len(),
    }
}

/// The address a (position or relative) write target denotes.
pub open spec fn write_addr(s: State, mode: ParamMode, raw: i128) -> int {
    match mode {
        ParamMode::Position => raw as int,
        ParamMode::Immediate => 0,
        ParamMode::Relative => s.base + raw,
    }
}

pub open spec fn fits_i128(v: int) -> bool {
    i128::MIN <= v <= i128::MAX
}

/// The mathematical result of one of the four register-to-register
/// operations, before the overflow check.
pub open spec fn spec_binop_val(op: Op, a: i128, b: i128) -> int {
    match op {
        Op::Add => a + b,
        Op::Mul => a * b,
        Op::LessThan => if a < b { 1 } else { 0 },
        Op::Equals => if a == b { 1 } else { 0 },
        _ => 0,
    }
}

/// One add, multiply, less-than or equals instruction: read two operands,
/// write one result, advance the program counter by four.
pub open spec fn spec_step_binop(s: State, op: Op, m1: ParamMode, m2: ParamMode, m3: ParamMode)
    -> (State, Result<StepResult, VmError>)
{
    if s.pc + 4 > s.mem.len() {
        (s, Err(VmError::AddressOutOfRange))
    } else {
        let ra = s.mem[s.pc + 1];
        let rb = s.mem[s.pc + 2];
        let rc = s.mem[s.pc + 3];
        if !read_ok(s, m1, ra) || !read_ok(s, m2, rb) {
            (s, Err(VmError::AddressOutOfRange))
        } else if m3 is Immediate {
            (s, Err(VmError::InvalidParameterMode))
        } else if !write_ok(s, m3, rc) {
            (s, Err(VmError::AddressOutOfRange))
        } else {
            let v = spec_binop_val(op, read_val(s, m1, ra), read_val(s, m2, rb));
            if !fits_i128(v) {
                (s, Err(VmError::Overflow))
            } else {
                (
                    State {
                        pc: s.pc + 4,
                        mem: s.mem.update(write_addr(s, m3, rc), v as i128),
                        ..s
                    },
                    Ok(StepResult::Continued),
                )
            }
        }
    }
}

/// One input instruction: suspend if the queue is empty, else pop the head
/// and store it at the resolved target, advancing by two.
pub open spec fn spec_step_input(s: State, m1: ParamMode) -> (State, Result<StepResult, VmError>) {
    if s.inputs.len() == 0 {
        (s, Ok(StepResult::Suspended))
    } else if s.pc + 2 > s.mem.len() {
        (s, Err(VmError::AddressOutOfRange))
    } else {
        let raw = s.mem[s.pc + 1];
        if m1 is Immediate {
            (s, Err(VmError::InvalidParameterMode))
        } else if !write_ok(s, m1, raw) {
            (s, Err(VmError::AddressOutOfRange))
        } else {
            (
                State {
                    pc: s.pc + 2,
                    mem: s.mem.update(write_addr(s, m1, raw), s.inputs[0]),
                    inputs: s.inputs.drop_first(),
                    ..s
                },
                Ok(StepResult::Continued),
            )
        }
    }
}

/// One output instruction: append the operand to the output sequence.
pub open spec fn spec_step_output(s: State, m1: ParamMode) -> (State, Result<StepResult, VmError>) {
    if s.pc + 2 > s.mem.len() {
        (s, Err(VmError::AddressOutOfRange))
    } else {
        let raw = s.mem[s.pc + 1];
        if !read_ok(s, m1, raw) {
            (s, Err(VmError::AddressOutOfRange))
        } else {
            (
                State { pc: s.pc + 2, outputs: s.outputs.push(read_val(s, m1, raw)), ..s },
                Ok(StepResult::Continued),
            )
        }
    }
}

/// One conditional jump: if taken, the second operand must name an address
/// inside memory; otherwise advance by three.
pub open spec fn spec_step_jump(s: State, op: Op, m1: ParamMode, m2: ParamMode)
    -> (State, Result<StepResult, VmError>)
{
    if s.pc + 3 > s.mem.len() {
        (s, Err(VmError::AddressOutOfRange))
    } else {
        let ra = s.mem[s.pc + 1];
        let rb = s.mem[s.pc + 2];
        if !read_ok(s, m1, ra) || !read_ok(s, m2, rb) {
            (s, Err(VmError::AddressOutOfRange))
        } else {
            let a = read_val(s, m1, ra);
            let b = read_val(s, m2, rb);
            let taken = if op is JmpIfTrue { a != 0 } else { a == 0 };
            if taken {
                if 0 <= b < s.mem.len() {
                    (State { pc: b as int, ..s }, Ok(StepResult::Continued))
                } else {
                    (s, Err(VmError::AddressOutOfRange))
                }
            } else {
                (State { pc: s.pc + 3, ..s }, Ok(StepResult::Continued))
            }
        }
    }
}

/// One adjust-relative-base instruction.
pub open spec fn spec_step_arb(s: State, m1: ParamMode) -> (State, Result<StepResult, VmError>) {
    if s.pc + 2 > s.mem.len() {
        (s, Err(VmError::AddressOutOfRange))
    } else {
        let raw = s.mem[s.pc + 1];
        if !read_ok(s, m1, raw) {
            (s, Err(VmError::AddressOutOfRange))
        } else {
            let a = read_val(s, m1, raw);
            if !fits_i128(s.base + a) {
                (s, Err(VmError::Overflow))
            } else {
                (State { pc: s.pc + 2, base: s.base + a, ..s }, Ok(StepResult::Continued))
            }
        }
    }
}

/// Dispatch of one decoded instruction.
pub open spec fn spec_exec_op(s: State, op: Op, m1: ParamMode, m2: ParamMode, m3: ParamMode)
    -> (State, Result<StepResult, VmError>)
{
    match op {
        Op::Add | Op::Mul | Op::LessThan | Op::Equals => spec_step_binop(s, op, m1, m2, m3),
        Op::Input => spec_step_input(s, m1),
        Op::Output => spec_step_output(s, m1),
        Op::JmpIfTrue | Op::JmpIfFalse => spec_step_jump(s, op, m1, m2),
        Op::AdjustRelBase => spec_step_arb(s, m1),
        Op::Halt => (s, Ok(StepResult::Halted)),
    }
}

/// The machine's one-step transition: fetch, decode, execute. Every
/// non-`Continued` outcome leaves the state exactly as it was.
pub open spec fn spec_step(s: State) -> (State, Result<StepResult, VmError>) {
    if !(0 <= s.pc < s.mem.len()) {
        (s, Err(VmError::AddressOutOfRange))
    } else {
        match spec_decode_word(s.mem[s.pc]) {
            Err(e) => (s, Err(e)),
            Ok((op, m1, m2, m3)) => spec_exec_op(s, op, m1, m2, m3),
        }
    }
}

pub open spec fn spec_step_state(s: State) -> State {
    spec_step(s).0
}

pub open spec fn spec_step_res(s: State) -> Result<StepResult, VmError> {
    spec_step(s).1
}

/// `s2` is reached from `s1` by exactly `n` instructions, each of which
/// completed normally.
pub open spec fn runs_to(s1: State, s2: State, n: nat) -> bool
    decreases n,
{
    if n == 0 {
        s2 == s1
    } else {
        &&& spec_step_res(s1) == Ok::<StepResult, VmError>(StepResult::Continued)
        &&& runs_to(spec_step_state(s1), s2, (n - 1) as nat)
    }
}

/// A state on which stepping does not continue: it halts, suspends, or
/// faults.
pub open spec fn is_terminal(s: State) -> bool {
    spec_step_res(s) != Ok::<StepResult, VmError>(StepResult::Continued)
}

/// `s2` is the (unique) terminal state execution reaches from `s1`.
pub open spec fn run_terminal(s1: State, s2: State) -> bool {
    exists|n: nat| #[trigger] runs_to(s1, s2, n) && is_terminal(s2)
}

/// The per-run instruction budget, as a mathematical count.
pub open spec fn vm_budget() -> nat {
    MAX_STEPS as nat
}

/// From `s` the machine executes a whole instruction budget without
/// halting, suspending or faulting: the state on which `run` reports
/// `VmError::StepLimitReached`.
pub open spec fn run_exhausts(s: State) -> bool {
    exists|t: State| #[trigger] runs_to(s, t, vm_budget())
}

/// Decoding the instruction under the program counter, as the executable
/// `unpack_instr` reports it.
pub open spec fn spec_unpack(s: State) -> Result<((ParamMode, ParamMode, ParamMode), Op), VmError> {
    if !(0 <= s.pc < s.mem.len()) {
        Err(VmError::AddressOutOfRange)
    } else {
        match spec_decode_word(s.mem[s.pc]) {
            Err(e) => Err(e),
            Ok((op, m1, m2, m3)) => Ok(((m1, m2, m3), op)),
        }
    }
}

/// The machine sits on a well-formed halt instruction.
pub open spec fn spec_is_halted(s: State) -> bool {
    spec_unpack(s) matches Ok((m, op)) && op is Halt
}

/// The initial state of a machine built from `prog` with queued `inputs`.
pub open spec fn init_state(prog: Seq<i128>, inputs: Seq<i128>) -> State {
    State { pc: 0, base: 0, mem: prog, inputs, outputs: Seq::<i128>::empty() }
}

impl Op {
    /// The operation named by the low two decimal digits of `op`, if any.
    pub fn from_value(op: u32) -> (r: Option<Op>)
        ensures
            r == spec_op_from(op as int),
    {
        match op % 100 {
            1 => Some(Op::Add),
            2 => Some(Op::Mul),
            3 => Some(Op::Input),
            4 => Some(Op::Output),
            5 => Some(Op::JmpIfTrue),
            6 => Some(Op::JmpIfFalse),
            7 => Some(Op::LessThan),
            8 => Some(Op::Equals),
            9 => Some(Op::AdjustRelBase),
            99 => Some(Op::Halt),
            _ => None,
        }
    }
}

impl ParamMode {
    /// The addressing mode named by one decimal digit, if any.
    pub fn from_value(mode: u32) -> (r: Option<ParamMode>)
        ensures
            r == spec_mode_from(mode as int),
    {
        match mode {
            0 => Some(ParamMode::Position),
            1 => Some(ParamMode::Immediate),
            2 => Some(ParamMode::Relative),
            _ => None,
        }
    }
}

/// One machine instance, owning its memory, registers and queues.
pub struct CPU {
    pc: usize,
    base_offset: i128,
    mem: Vec<i128>,
    outputs: Vec<i128>,
    inputs: VecDeque<i128>,
}

impl View for CPU {
    type V = State;

    closed spec fn view(&self) -> State {
        State {
            pc: self.pc as int,
            base: self.base_offset as int,
            mem: self.mem@,
            inputs: self.inputs@,
            outputs: self.outputs@,
        }
    }
}

impl CPU {
    /// A fresh machine loaded with `mem`, counter and base at zero, queues
    /// empty.
    pub fn new(mem: Vec<i128>) -> (c: CPU)
        ensures
            c@ == init_state(mem@, Seq::<i128>::empty()),
    {
        let c = CPU { pc: 0, base_offset: 0, mem, outputs: Vec::new(), inputs: VecDeque::new() };
        proof {
            assert(c@ =~= init_state(c.mem@, Seq::<i128>::empty()));
        }
        c
    }

    /// Decode one raw instruction word.
    fn decode_word(w: i128) -> (r: Result<(Op, ParamMode, ParamMode, ParamMode), VmError>)
        ensures
            r == spec_decode_word(w),
    {
        if w < 0 {
            return Err(VmError::InvalidOpcode);
        }
        let wu = w as u128;
        let op = match Op::from_value((wu % 100) as u32) {
            None => { return Err(VmError::InvalidOpcode); },
            Some(op) => op,
        };
        let d1 = ParamMode::from_value((wu / 100 % 10) as u32);
        let d2 = ParamMode::from_value((wu / 1000 % 10) as u32);
        let d3 = ParamMode::from_value((wu / 10000 % 10) as u32);
        match (d1, d2, d3) {
            (Some(m1), Some(m2), Some(m3)) => Ok((op, m1, m2, m3)),
            _ => Err(VmError::InvalidParameterMode),
        }
    }

    /// Decode the instruction under the program counter: its three mode
    /// digits and its operation.
    pub fn unpack_instr(&self) -> (r: Result<((ParamMode, ParamMode, ParamMode), Op), VmError>)
        ensures
            r == spec_unpack(self@),
    {
        if self.pc >= self.mem.len() {
            return Err(VmError::AddressOutOfRange);
        }
        match Self::decode_word(self.mem[self.pc]) {
            Err(e) => Err(e),
            Ok((op, m1, m2, m3)) => Ok(((m1, m2, m3), op)),
        }
    }

    /// Whether the machine has come to rest on a halt instruction.
    pub fn is_halted(&self) -> (r: bool)
        ensures
            r == spec_is_halted(self@),
    {
        match self.unpack_instr() {
            Ok((_m, op)) => matches!(op, Op::Halt),
            Err(_) => false,
        }
    }

    /// Whether a read operand resolves inside memory.
    fn check_read(&self, mode: ParamMode, raw: i128) -> (b: bool)
        ensures
            b == read_ok(self@, mode, raw),
    {
        let n = self.mem.len();
        match mode {
            ParamMode::Immediate => true,
            ParamMode::Position => 0 <= raw && raw < n as i128,
            ParamMode::Relative => {
                match self.base_offset.checked_add(raw) {
                    None => false,
                    Some(ad) => 0 <= ad && ad < n as i128,
                }
            },
        }
    }

    /// The value of a read operand.
    pub fn get_value(&self, val: i128, mode: &ParamMode) -> (r: i128)
        requires
            read_ok(self@, *mode, val),
        ensures
            r == read_val(self@, *mode, val),
    {
        let n = self.mem.len();
        match mode {
            ParamMode::Position => self.mem[val as usize],
            ParamMode::Immediate => val,
            ParamMode::Relative => self.mem[(self.base_offset + val) as usize],
        }
    }

    /// The two read operands of a four-cell instruction.
    pub fn get_values(&self, modes: &(ParamMode, ParamMode, ParamMode)) -> (r: (i128, i128))
        requires
            self@.pc + 3 <= self@.mem.len(),
            0 <= self@.pc,
            read_ok(self@, modes.0, self@.mem[self@.pc + 1]),
            read_ok(self@, modes.1, self@.mem[self@.pc + 2]),
        ensures
            r.0 == read_val(self@, modes.0, self@.mem[self@.pc + 1]),
            r.1 == read_val(self@, modes.1, self@.mem[self@.pc + 2]),
    {
        let n = self.mem.len();
        let a = self.get_value(self.mem[self.pc + 1], &modes.0);
        let b = self.get_value(self.mem[self.pc + 2], &modes.1);
        (a, b)
    }

    /// Store `val` at the target that `pos` resolves to under `mode`. An
    /// immediate write target is an invalid-program condition, rejected
    /// before any store, so it is excluded here.
    pub fn set_value(&mut self, val: i128, pos: i128, mode: &ParamMode)
        requires
            !(mode is Immediate),
            write_ok(old(self)@, *mode, pos),
        ensures
            final(self)@ == (State {
                mem: old(self)@.mem.update(write_addr(old(self)@, *mode, pos), val),
                ..old(self)@
            }),
    {
        let n = self.mem.len();
        match mode {
            ParamMode::Position => {
                self.mem[pos as usize] = val;
            },
            ParamMode::Immediate => (),
            ParamMode::Relative => {
                let loc = (self.base_offset + pos) as usize;
                self.mem[loc] = val;
            },
        }
        proof {
            assert(self@ =~= (State {
                mem: old(self)@.mem.update(write_addr(old(self)@, *mode, pos), val),
                ..old(self)@
            }));
        }
    }

    /// Append one value to the tail of the input queue. Always succeeds.
    pub fn add_input(&mut self, x: i128)
        ensures
            final(self)@ == (State { inputs: old(self)@.inputs.push(x), ..old(self)@ }),
    {
        self.inputs.push_back(x);
        proof {
            assert(self@ =~= (State { inputs: old(self)@.inputs.push(x), ..old(self)@ }));
        }
    }

    /// Append a batch of values to the input queue, in the order produced.
    pub fn transfer_outputs(&mut self, vals: &[i128])
        ensures
            final(self)@ == (State { inputs: old(self)@.inputs + vals@, ..old(self)@ }),
    {
        let n = vals.len();
        for i in 0..n
            invariant
                n == vals@.len(),
                self@ == (State { inputs: old(self)@.inputs + vals@.take(i as int), ..old(self)@ }),
        {
            self.add_input(vals[i]);
            proof {
                assert(vals@.take(i as int).push(vals@[i as int]) =~= vals@.take(i + 1));
            }
        }
        proof {
            assert(vals@.take(n as int) =~= vals@);
            assert(self@ =~= (State { inputs: old(self)@.inputs + vals@, ..old(self)@ }));
        }
    }

    /// Grow memory to `mem_size` cells, zero-filling the new tail. Capacity
    /// is fixed once execution starts; this is part of construction.
    pub fn set_mem_size(&mut self, mem_size: usize)
        requires
            old(self)@.mem.len() <= mem_size,
        ensures
            final(self)@ == (State {
                mem: old(self)@.mem + Seq::<i128>::new((mem_size - old(self)@.mem.len()) as nat, |i: int| 0i128),
                ..old(self)@
            }),
    {
        self.mem.resize(mem_size, 0);
        proof {
            assert(self@.mem =~= old(self)@.mem + Seq::<i128>::new(
                (mem_size - old(self)@.mem.len()) as nat,
                |i: int| 0i128,
            ));
            assert(self@ =~= (State {
                mem: old(self)@.mem + Seq::<i128>::new((mem_size - old(self)@.mem.len()) as nat, |i: int| 0i128),
                ..old(self)@
            }));
        }
    }

    /// The number of memory cells.
    pub fn mem_len(&self) -> (r: usize)
        ensures
            r == self@.mem.len(),
    {
        self.mem.len()
    }

    /// The value stored at one memory cell.
    pub fn read_mem(&self, addr: usize) -> (r: i128)
        requires
            addr < self@.mem.len(),
        ensures
            r == self@.mem[addr as int],
    {
        self.mem[addr]
    }

    /// Read-only access to the outputs produced so far, in emission order.
    pub fn outputs(&self) -> (r: &Vec<i128>)
        ensures
            r@ == self@.outputs,
    {
        &self.outputs
    }

    /// The most recent output, if any.
    pub fn last_output(&self) -> (r: Option<i128>)
        ensures
            r == if self@.outputs.len() > 0 {
                Some(self@.outputs.last())
            } else {
                None::<i128>
            },
    {
        if self.outputs.len() > 0 {
            Some(self.outputs[self.outputs.len() - 1])
        } else {
            None
        }
    }

    /// Drain the output store: hand back everything produced so far and
    /// clear it, so outputs cannot be replayed.
    pub fn take_outputs(&mut self) -> (r: Vec<i128>)
        ensures
            r@ == old(self)@.outputs,
            final(self)@ == (State { outputs: Seq::<i128>::empty(), ..old(self)@ }),
    {
        let r = self.outputs.clone();
        self.outputs.clear();
        proof {
            assert(self@ =~= (State { outputs: Seq::<i128>::empty(), ..old(self)@ }));
        }
        r
    }

    /// One four-cell instruction: add, multiply, less-than or equals.
    fn step_binop(&mut self, op: Op, m1: ParamMode, m2: ParamMode, m3: ParamMode)
        -> (r: Result<StepResult, VmError>)
        requires
            op is Add || op is Mul || op is LessThan || op is Equals,
        ensures
            final(self)@ == spec_step_binop(old(self)@, op, m1, m2, m3).0,
            r == spec_step_binop(old(self)@, op, m1, m2, m3).1,
    {
        let len = self.mem.len();
        if self.pc >= len || len - self.pc < 4 {
            return Err(VmError::AddressOutOfRange);
        }
        let ra = self.mem[self.pc + 1];
        let rb = self.mem[self.pc + 2];
        let rc = self.mem[self.pc + 3];
        if !self.check_read(m1, ra) || !self.check_read(m2, rb) {
            return Err(VmError::AddressOutOfRange);
        }
        if matches!(m3, ParamMode::Immediate) {
            return Err(VmError::InvalidParameterMode);
        }
        if !self.check_read(m3, rc) {
            return Err(VmError::AddressOutOfRange);
        }
        let a = self.get_value(ra, &m1);
        let b = self.get_value(rb, &m2);
        let v_opt: Option<i128> = match op {
            Op::Add => a.checked_add(b),
            Op::Mul => a.checked_mul(b),
            Op::LessThan => Some(if a < b { 1 } else { 0 }),
            _ => Some(if a == b { 1 } else { 0 }),
        };
        match v_opt {
            None => Err(VmError::Overflow),
            Some(v) => {
                self.set_value(v, rc, &m3);
                self.pc = self.pc + 4;
                proof {
                    assert(self@ =~= spec_step_binop(old(self)@, op, m1, m2, m3).0);
                }
                Ok(StepResult::Continued)
            },
        }
    }

    /// One input instruction.
    fn step_input(&mut self, m1: ParamMode) -> (r: Result<StepResult, VmError>)
        ensures
            final(self)@ == spec_step_input(old(self)@, m1).0,
            r == spec_step_input(old(self)@, m1).1,
    {
        if self.inputs.len() == 0 {
            return Ok(StepResult::Suspended);
        }
        let len = self.mem.len();
        if self.pc >= len || len - self.pc < 2 {
            return Err(VmError::AddressOutOfRange);
        }
        let raw = self.mem[self.pc + 1];
        if matches!(m1, ParamMode::Immediate) {
            return Err(VmError::InvalidParameterMode);
        }
        if !self.check_read(m1, raw) {
            return Err(VmError::AddressOutOfRange);
        }
        let x = match self.inputs.pop_front() {
            Some(x) => x,
            None => { return Err(VmError::AddressOutOfRange); },
        };
        self.set_value(x, raw, &m1);
        self.pc = self.pc + 2;
        proof {
            assert(old(self)@.inputs.subrange(1, old(self)@.inputs.len() as int)
                =~= old(self)@.inputs.drop_first());
            assert(self@ =~= spec_step_input(old(self)@, m1).0);
        }
        Ok(StepResult::Continued)
    }

    /// One output instruction.
    fn step_output(&mut self, m1: ParamMode) -> (r: Result<StepResult, VmError>)
        ensures
            final(self)@ == spec_step_output(old(self)@, m1).0,
            r == spec_step_output(old(self)@, m1).1,
    {
        let len = self.mem.len();
        if self.pc >= len || len - self.pc < 2 {
            return Err(VmError::AddressOutOfRange);
        }
        let raw = self.mem[self.pc + 1];
        if !self.check_read(m1, raw) {
            return Err(VmError::AddressOutOfRange);
        }
        let a = self.get_value(raw, &m1);
        self.outputs.push(a);
        self.pc = self.pc + 2;
        proof {
            assert(self@ =~= spec_step_output(old(self)@, m1).0);
        }
        Ok(StepResult::Continued)
    }

    /// One conditional jump.
    fn step_jump(&mut self, op: Op, m1: ParamMode, m2: ParamMode) -> (r: Result<StepResult, VmError>)
        requires
            op is JmpIfTrue || op is JmpIfFalse,
        ensures
            final(self)@ == spec_step_jump(old(self)@, op, m1, m2).0,
            r == spec_step_jump(old(self)@, op, m1, m2).1,
    {
        let len = self.mem.len();
        if self.pc >= len || len - self.pc < 3 {
            return Err(VmError::AddressOutOfRange);
        }
        let ra = self.mem[self.pc + 1];
        let rb = self.mem[self.pc + 2];
        if !self.check_read(m1, ra) || !self.check_read(m2, rb) {
            return Err(VmError::AddressOutOfRange);
        }
        let a = self.get_value(ra, &m1);
        let b = self.get_value(rb, &m2);
        let taken = if matches!(op, Op::JmpIfTrue) { a != 0 } else { a == 0 };
        if taken {
            if 0 <= b && b < len as i128 {
                self.pc = b as usize;
                proof {
                    assert(self@ =~= spec_step_jump(old(self)@, op, m1, m2).0);
                }
                Ok(StepResult::Continued)
            } else {
                Err(VmError::AddressOutOfRange)
            }
        } else {
            self.pc = self.pc + 3;
            proof {
                assert(self@ =~= spec_step_jump(old(self)@, op, m1, m2).0);
            }
            Ok(StepResult::Continued)
        }
    }

    /// One adjust-relative-base instruction.
    fn step_arb(&mut self, m1: ParamMode) -> (r: Result<StepResult, VmError>)
        ensures
            final(self)@ == spec_step_arb(old(self)@, m1).0,
            r == spec_step_arb(old(self)@, m1).1,
    {
        let len = self.mem.len();
        if self.pc >= len || len - self.pc < 2 {
            return Err(VmError::AddressOutOfRange);
        }
        let raw = self.mem[self.pc + 1];
        if !self.check_read(m1, raw) {
            return Err(VmError::AddressOutOfRange);
        }
        let a = self.get_value(raw, &m1);
        match self.base_offset.checked_add(a) {
            None => Err(VmError::Overflow),
            Some(nb) => {
                self.base_offset = nb;
                self.pc = self.pc + 2;
                proof {
                    assert(self@ =~= spec_step_arb(old(self)@, m1).0);
                }
                Ok(StepResult::Continued)
            },
        }
    }

    /// Execute exactly one instruction. The result and the new state are
    /// exactly those of the mathematical transition [`spec_step`].
    pub fn step(&mut self) -> (r: Result<StepResult, VmError>)
        ensures
            final(self)@ == spec_step_state(old(self)@),
            r == spec_step_res(old(self)@),
    {
        if self.pc >= self.mem.len() {
            return Err(VmError::AddressOutOfRange);
        }
        let w = self.mem[self.pc];
        let (op, m1, m2, m3) = match Self::decode_word(w) {
            Err(e) => { return Err(e); },
            Ok(t) => t,
        };
        match op {
            Op::Add | Op::Mul | Op::LessThan | Op::Equals => self.step_binop(op, m1, m2, m3),
            Op::Input => self.step_input(m1),
            Op::Output => self.step_output(m1),
            Op::JmpIfTrue | Op::JmpIfFalse => self.step_jump(op, m1, m2),
            Op::AdjustRelBase => self.step_arb(m1),
            Op::Halt => Ok(StepResult::Halted),
        }
    }

    /// Step until the machine halts, suspends for input, or faults; the
    /// reached state is terminal and reachable from the starting state. If
    /// `MAX_STEPS` instructions complete without a terminal outcome the
    /// budget error is returned instead.
    pub fn run(&mut self) -> (r: Result<StepResult, VmError>)
        ensures
            match r {
                Ok(StepResult::Continued) => false,
                Ok(res) => exists|n: nat|
                    #[trigger] runs_to(old(self)@, final(self)@, n)
                        && spec_step_res(final(self)@) == Ok::<StepResult, VmError>(res),
                Err(VmError::StepLimitReached) => runs_to(old(self)@, final(self)@, MAX_STEPS as nat)
                    && run_exhausts(old(self)@),
                Err(e) => exists|n: nat|
                    #[trigger] runs_to(old(self)@, final(self)@, n)
                        && spec_step_res(final(self)@) == Err::<StepResult, VmError>(e),
            },
    {
        let mut steps: u64 = 0;
        loop
            invariant
                steps < MAX_STEPS,
                runs_to(old(self)@, self@, steps as nat),
            decreases MAX_STEPS - steps,
        {
            let ghost pre = self@;
            let r = self.step();
            match r {
                Ok(StepResult::Continued) => {
                    proof {
                        lemma_runs_to_extend(old(self)@, pre, self@, steps as nat);
                    }
                    steps = steps + 1;
                    if steps == MAX_STEPS {
                        proof {
                            assert(runs_to(old(self)@, self@, vm_budget()));
                        }
                        return Err(VmError::StepLimitReached);
                    }
                },
                Ok(res) => {
                    proof {
                        assert(spec_step(pre).1 == Ok::<StepResult, VmError>(res));
                        assert(self@ == pre) by {
                            lemma_terminal_state_unchanged(pre);
                        }
                    }
                    return Ok(res);
                },
                Err(e) => {
                    proof {
                        assert(e != VmError::StepLimitReached) by {
                            lemma_step_no_limit(pre);
                        }
                        assert(self@ == pre) by {
                            lemma_terminal_state_unchanged(pre);
                        }
                    }
                    return Err(e);
                },
            }
        }
    }
}

/// A run extended by one more completed instruction.
pub proof fn lemma_runs_to_extend(s0: State, s1: State, s2: State, n: nat)
    requires
        runs_to(s0, s1, n),
        spec_step_res(s1) == Ok::<StepResult, VmError>(StepResult::Continued),
        s2 == spec_step_state(s1),
    ensures
        runs_to(s0, s2, n + 1),
    decreases n,
{
    if n == 0 {
        assert(s1 == s0);
        assert(runs_to(spec_step_state(s0), s2, 0));
        assert(runs_to(s0, s2, 1));
    } else {
        lemma_runs_to_extend(spec_step_state(s0), s1, s2, (n - 1) as nat);
    }
}

/// A step that does not continue leaves the state exactly as it was.
pub proof fn lemma_terminal_state_unchanged(s: State)
    requires
        spec_step_res(s) != Ok::<StepResult, VmError>(StepResult::Continued),
    ensures
        spec_step_state(s) == s,
{
}

/// A single step never reports the run budget error; only `run` does.
pub proof fn lemma_step_no_limit(s: State)
    ensures
        spec_step_res(s) != Err::<StepResult, VmError>(VmError::StepLimitReached),
{
}

/// Execution is deterministic: from one starting state there is exactly one
/// reachable terminal state, reached after exactly one number of steps.
pub proof fn lemma_run_deterministic(s: State, s1: State, s2: State, n1: nat, n2: nat)
    requires
        runs_to(s, s1, n1),
        is_terminal(s1),
        runs_to(s, s2, n2),
        is_terminal(s2),
    ensures
        s1 == s2,
        n1 == n2,
    decreases n1,
{
    if n1 == 0 {
        if n2 != 0 {
            assert(false);
        }
    } else {
        if n2 == 0 {
            assert(false);
        } else {
            lemma_run_deterministic(spec_step_state(s), s1, s2, (n1 - 1) as nat, (n2 - 1) as nat);
        }
    }
}

} // verus!
