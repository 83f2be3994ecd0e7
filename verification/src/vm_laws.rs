//! Proved laws of the virtual machine: immediate halting, suspend/resume
//! behaviour at an input instruction, and the relative-addressing round
//! trip.

use vstd::prelude::*;
use crate::vm::{
    lemma_runs_to_extend, read_ok, read_val, runs_to, spec_decode_word, spec_step,
    spec_step_res, spec_step_state, spec_unpack, write_addr, write_ok, Op, ParamMode, State,
    StepResult, VmError,
};

verus! {

/// A program consisting solely of halt opcodes stops at once: no step is
/// taken, the reached state is the starting state itself (memory, registers
/// and queues untouched), and stepping it reports Halted.
pub proof fn lemma_halt_only_program(s: State, s2: State, n: nat)
    requires
        0 <= s.pc < s.mem.len(),
        forall|i: int| 0 <= i < s.mem.len() ==> s.mem[i] == 99,
        runs_to(s, s2, n),
    ensures
        s2 == s,
        n == 0,
        spec_step_res(s) == Ok::<StepResult, VmError>(StepResult::Halted),
{
    assert(s.mem[s.pc] == 99);
    assert(spec_step_res(s) == Ok::<StepResult, VmError>(StepResult::Halted));
    if n != 0 {
        assert(false);
    }
}

/// Suspend/resume at an input instruction. With an empty queue the step
/// changes nothing — in particular the program counter — and reports
/// Suspended. Feeding exactly one value and stepping again consumes that
/// value, stores it at the resolved target and advances normally.
pub proof fn lemma_suspend_resume(s: State, m1: ParamMode, m2: ParamMode, m3: ParamMode, x: i128)
    requires
        spec_unpack(s) == Ok::<((ParamMode, ParamMode, ParamMode), Op), VmError>(
            ((m1, m2, m3), Op::Input),
        ),
        s.inputs.len() == 0,
    ensures
        spec_step(s) == (s, Ok::<StepResult, VmError>(StepResult::Suspended)),
        ({
            let fed = State { inputs: seq![x], ..s };
            (s.pc + 2 <= s.mem.len() && !(m1 is Immediate) && write_ok(s, m1, s.mem[s.pc + 1]))
                ==> spec_step(fed) == (
                State {
                    pc: s.pc + 2,
                    mem: s.mem.update(write_addr(s, m1, s.mem[s.pc + 1]), x),
                    inputs: Seq::<i128>::empty(),
                    ..s
                },
                Ok::<StepResult, VmError>(StepResult::Continued),
            )
        }),
{
    let fed = State { inputs: seq![x], ..s };
    assert(spec_step(s) == (s, Ok::<StepResult, VmError>(StepResult::Suspended)));
    if s.pc + 2 <= s.mem.len() && !(m1 is Immediate) && write_ok(s, m1, s.mem[s.pc + 1]) {
        assert(fed.inputs.len() == 1);
        assert(write_ok(fed, m1, fed.mem[fed.pc + 1]));
        assert(fed.inputs[0] == x);
        assert(fed.inputs.drop_first() =~= Seq::<i128>::empty());
        assert(spec_step(fed).0 =~= (State {
            pc: s.pc + 2,
            mem: s.mem.update(write_addr(s, m1, s.mem[s.pc + 1]), x),
            inputs: Seq::<i128>::empty(),
            ..s
        }));
    }
}

/// One resumed input step in general: on an input instruction with a
/// non-empty queue (the whole word decoding, the resolved target inside
/// memory), the step consumes exactly the queue's head, stores it at the
/// resolved target, advances the counter by two, and changes nothing
/// else — no other memory cell, not the base, not the outputs.
pub proof fn lemma_input_step(s: State, m1: ParamMode, m2: ParamMode, m3: ParamMode)
    requires
        spec_unpack(s) == Ok::<((ParamMode, ParamMode, ParamMode), Op), VmError>(
            ((m1, m2, m3), Op::Input),
        ),
        s.inputs.len() > 0,
        s.pc + 2 <= s.mem.len(),
        !(m1 is Immediate),
        write_ok(s, m1, s.mem[s.pc + 1]),
    ensures
        spec_step(s) == (
            State {
                pc: s.pc + 2,
                mem: s.mem.update(write_addr(s, m1, s.mem[s.pc + 1]), s.inputs[0]),
                inputs: s.inputs.drop_first(),
                ..s
            },
            Ok::<StepResult, VmError>(StepResult::Continued),
        ),
        spec_step_state(s).mem[write_addr(s, m1, s.mem[s.pc + 1])] == s.inputs[0],
        forall|a: int|
            0 <= a < s.mem.len() && a != write_addr(s, m1, s.mem[s.pc + 1])
                ==> spec_step_state(s).mem[a] == s.mem[a],
        spec_step_state(s).base == s.base,
        spec_step_state(s).outputs == s.outputs,
        spec_step_state(s).inputs == s.inputs.drop_first(),
        spec_step_state(s).pc == s.pc + 2,
{
    assert(write_ok(s, m1, s.mem[s.pc + 1]));
}

/// The relative-mode round trip. A program that adjusts the relative base
/// by `k`, stores its input through a relative-mode target at offset
/// `off`, and reads the same cell back through a relative-mode operand,
/// outputs exactly the value that was written — for any `k` and `off`
/// whose resolved address lies inside memory beyond the program text.
///
/// Program text: `109,k,203,off,204,off,99`.
pub proof fn lemma_relative_round_trip(s: State, k: i128, off: i128, v: i128)
    requires
        s.pc == 0,
        s.base == 0,
        s.mem.len() >= 7,
        s.mem[0] == 109 && s.mem[1] == k,
        s.mem[2] == 203 && s.mem[3] == off,
        s.mem[4] == 204 && s.mem[5] == off,
        s.mem[6] == 99,
        s.inputs == seq![v],
        6 < k + off < s.mem.len(),
    ensures
        ({
            let sf = State {
                pc: 6,
                base: k as int,
                mem: s.mem.update(k + off, v),
                inputs: Seq::<i128>::empty(),
                outputs: s.outputs.push(v),
            };
            &&& runs_to(s, sf, 3)
            &&& spec_step_res(sf) == Ok::<StepResult, VmError>(StepResult::Halted)
            &&& sf.mem[k + off] == v
            &&& sf.outputs.last() == v
        }),
{
    let s1 = State { pc: 2, base: k as int, ..s };
    let s2 = State {
        pc: 4,
        mem: s.mem.update(k + off, v),
        inputs: Seq::<i128>::empty(),
        ..s1
    };
    let sf = State {
        pc: 6,
        base: k as int,
        mem: s.mem.update(k + off, v),
        inputs: Seq::<i128>::empty(),
        outputs: s.outputs.push(v),
    };

    // Adjust the relative base by the immediate operand k.
    assert(spec_decode_word(109) == Ok::<(Op, ParamMode, ParamMode, ParamMode), VmError>(
        (Op::AdjustRelBase, ParamMode::Immediate, ParamMode::Position, ParamMode::Position),
    ));
    assert(spec_step_res(s) == Ok::<StepResult, VmError>(StepResult::Continued));
    assert(spec_step_state(s) =~= s1);

    // Store the queued input through the relative-mode target.
    assert(spec_decode_word(203) == Ok::<(Op, ParamMode, ParamMode, ParamMode), VmError>(
        (Op::Input, ParamMode::Relative, ParamMode::Position, ParamMode::Position),
    ));
    assert(s1.inputs.len() == 1 && s1.inputs[0] == v);
    assert(write_ok(s1, ParamMode::Relative, off));
    assert(s1.inputs.drop_first() =~= Seq::<i128>::empty());
    assert(spec_step_res(s1) == Ok::<StepResult, VmError>(StepResult::Continued));
    assert(spec_step_state(s1) =~= s2);

    // Read the same cell back and output it.
    assert(spec_decode_word(204) == Ok::<(Op, ParamMode, ParamMode, ParamMode), VmError>(
        (Op::Output, ParamMode::Relative, ParamMode::Position, ParamMode::Position),
    ));
    assert(s2.mem[2] == 203 && s2.mem[4] == 204 && s2.mem[5] == off && s2.mem[6] == 99);
    assert(read_ok(s2, ParamMode::Relative, off));
    assert(read_val(s2, ParamMode::Relative, off) == v);
    assert(spec_step_res(s2) == Ok::<StepResult, VmError>(StepResult::Continued));
    assert(spec_step_state(s2) =~= sf);

    // The machine now rests on the halt instruction.
    assert(sf.mem[6] == 99);
    assert(spec_step_res(sf) == Ok::<StepResult, VmError>(StepResult::Halted));

    assert(runs_to(s, s, 0));
    lemma_runs_to_extend(s, s, s1, 0);
    lemma_runs_to_extend(s, s1, s2, 1);
    lemma_runs_to_extend(s, s2, sf, 2);
}

} // verus!
