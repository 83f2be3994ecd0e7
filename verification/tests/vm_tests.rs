use intcode::vm::{Op, ParamMode, StepResult, VmError, CPU};

fn machine(prog: &[i128]) -> CPU {
    CPU::new(prog.to_vec())
}

#[test]
fn halt_only_program_stops_at_once() {
    let mut cpu = machine(&[99]);
    let r = cpu.run();
    assert_eq!(r, Ok(StepResult::Halted));
    assert!(cpu.is_halted());
    assert_eq!(cpu.outputs().len(), 0);
}

#[test]
fn self_referential_add_then_halt() {
    let mut cpu = machine(&[1, 0, 0, 0, 99]);
    let r = cpu.step();
    assert_eq!(r, Ok(StepResult::Continued));
    let expected: [i128; 5] = [2, 0, 0, 0, 99];
    for (addr, want) in expected.iter().enumerate() {
        assert_eq!(cpu.read_mem(addr), *want);
    }
    assert_eq!(cpu.run(), Ok(StepResult::Halted));
}

#[test]
fn add_writes_sum_of_cells() {
    // Adds cells 8 and 9 (11 and 31) into cell 10, then outputs cell 10.
    let mut cpu = machine(&[1, 8, 9, 10, 4, 10, 99, 0, 11, 31, 0]);
    assert_eq!(cpu.run(), Ok(StepResult::Halted));
    assert_eq!(*cpu.outputs(), vec![42i128]);
}

#[test]
fn immediate_multiply_writes_99() {
    // 1002,4,3,4,33: multiplies cell 4 (33) by 3 and stores 99 at cell 4;
    // the machine then rests on that 99 and halts.
    let mut cpu = machine(&[1002, 4, 3, 4, 33]);
    assert_eq!(cpu.run(), Ok(StepResult::Halted));
    assert_eq!(cpu.read_mem(4), 99);
    assert!(cpu.is_halted());
}

#[test]
fn input_output_identity() {
    let mut cpu = machine(&[3, 0, 4, 0, 99]);
    cpu.add_input(7);
    let r = cpu.run();
    assert_eq!(r, Ok(StepResult::Halted));
    assert_eq!(*cpu.outputs(), vec![7i128]);
}

#[test]
fn relative_mode_round_trip() {
    // Adjust the base by 7, store the input through relative offset 1
    // (cell 8), read it back through the same offset and output it.
    let mut cpu = machine(&[109, 7, 203, 1, 204, 1, 99, 0, 0, 0]);
    cpu.add_input(424242);
    let r = cpu.run();
    assert_eq!(r, Ok(StepResult::Halted));
    assert_eq!(*cpu.outputs(), vec![424242i128]);
}

#[test]
fn relative_mode_round_trip_other_offset() {
    let mut cpu = machine(&[109, 3, 203, 5, 204, 5, 99]);
    cpu.set_mem_size(16);
    cpu.add_input(-5);
    assert_eq!(cpu.run(), Ok(StepResult::Halted));
    assert_eq!(*cpu.outputs(), vec![-5i128]);
}

#[test]
fn quine_reproduces_itself() {
    let prog: Vec<i128> = vec![
        109, 1, 204, -1, 1001, 100, 1, 100, 1008, 100, 16, 101, 1006, 101, 0, 99,
    ];
    let mut cpu = CPU::new(prog.clone());
    cpu.set_mem_size(1000);
    let r = cpu.run();
    assert_eq!(r, Ok(StepResult::Halted));
    assert_eq!(*cpu.outputs(), prog);
}

#[test]
fn sixteen_digit_product() {
    let mut cpu = machine(&[1102, 34915192, 34915192, 7, 4, 7, 99, 0]);
    assert_eq!(cpu.run(), Ok(StepResult::Halted));
    assert_eq!(cpu.outputs().len(), 1);
    let out = cpu.outputs()[0];
    assert_eq!(out, 1219070632396864);
    assert_eq!(out.to_string().len(), 16);
}

#[test]
fn large_immediate_output() {
    let mut cpu = machine(&[104, 1125899906842624, 99]);
    assert_eq!(cpu.run(), Ok(StepResult::Halted));
    assert_eq!(*cpu.outputs(), vec![1125899906842624i128]);
}

#[test]
fn suspend_on_empty_input_and_resume() {
    let mut cpu = machine(&[3, 0, 4, 0, 99]);
    let r = cpu.run();
    assert_eq!(r, Ok(StepResult::Suspended));
    // The same instruction retries once data is available.
    cpu.add_input(5);
    let r2 = cpu.run();
    assert_eq!(r2, Ok(StepResult::Halted));
    assert_eq!(*cpu.outputs(), vec![5i128]);
}

#[test]
fn step_on_empty_input_suspends_without_advancing() {
    let mut cpu = machine(&[3, 0, 99]);
    assert_eq!(cpu.step(), Ok(StepResult::Suspended));
    assert_eq!(cpu.step(), Ok(StepResult::Suspended));
    cpu.add_input(1);
    assert_eq!(cpu.step(), Ok(StepResult::Continued));
    assert_eq!(cpu.step(), Ok(StepResult::Halted));
}

#[test]
fn unknown_opcode_is_fatal() {
    let mut cpu = machine(&[0, 0, 0]);
    assert_eq!(cpu.run(), Err(VmError::InvalidOpcode));
}

#[test]
fn negative_instruction_word_is_fatal() {
    let mut cpu = machine(&[-1]);
    assert_eq!(cpu.run(), Err(VmError::InvalidOpcode));
}

#[test]
fn unknown_mode_digit_is_fatal() {
    // 302 decodes to multiply with first mode digit 3.
    let mut cpu = machine(&[302, 0, 0, 0, 99]);
    assert_eq!(cpu.run(), Err(VmError::InvalidParameterMode));
}

#[test]
fn immediate_write_target_is_fatal() {
    // 11101 is an add whose write target is declared immediate.
    let mut cpu = machine(&[11101, 1, 1, 0, 99]);
    assert_eq!(cpu.run(), Err(VmError::InvalidParameterMode));
}

#[test]
fn address_out_of_range_is_fatal() {
    let mut cpu = machine(&[4, 100, 99]);
    assert_eq!(cpu.run(), Err(VmError::AddressOutOfRange));
}

#[test]
fn negative_address_is_fatal() {
    let mut cpu = machine(&[4, -1, 99]);
    assert_eq!(cpu.run(), Err(VmError::AddressOutOfRange));
}

#[test]
fn arithmetic_overflow_is_fatal() {
    let mut cpu = machine(&[1102, i128::MAX, 2, 0, 99]);
    assert_eq!(cpu.run(), Err(VmError::Overflow));
}

#[test]
fn jumps_and_comparisons() {
    // Outputs 0 when the input is 0, else 1 (position-mode jump test).
    let prog = vec![3, 12, 6, 12, 15, 1, 13, 14, 13, 4, 13, 99, -1, 0, 1, 9];
    let mut a = CPU::new(prog.clone());
    a.add_input(0);
    assert_eq!(a.run(), Ok(StepResult::Halted));
    assert_eq!(*a.outputs(), vec![0i128]);
    let mut b = CPU::new(prog);
    b.add_input(77);
    assert_eq!(b.run(), Ok(StepResult::Halted));
    assert_eq!(*b.outputs(), vec![1i128]);
}

#[test]
fn equal_and_less_than() {
    // Outputs 1 when input equals 8 (immediate mode), else 0.
    let prog = vec![3, 3, 1108, -1, 8, 3, 4, 3, 99];
    let mut a = CPU::new(prog.clone());
    a.add_input(8);
    assert_eq!(a.run(), Ok(StepResult::Halted));
    assert_eq!(*a.outputs(), vec![1i128]);
    let mut b = CPU::new(prog);
    b.add_input(9);
    assert_eq!(b.run(), Ok(StepResult::Halted));
    assert_eq!(*b.outputs(), vec![0i128]);
}

#[test]
fn opcode_decoding() {
    assert_eq!(Op::from_value(1), Some(Op::Add));
    assert_eq!(Op::from_value(2), Some(Op::Mul));
    assert_eq!(Op::from_value(1002), Some(Op::Mul));
    assert_eq!(Op::from_value(99), Some(Op::Halt));
    assert_eq!(Op::from_value(9), Some(Op::AdjustRelBase));
    assert_eq!(Op::from_value(42), None);
    assert_eq!(ParamMode::from_value(0), Some(ParamMode::Position));
    assert_eq!(ParamMode::from_value(1), Some(ParamMode::Immediate));
    assert_eq!(ParamMode::from_value(2), Some(ParamMode::Relative));
    assert_eq!(ParamMode::from_value(3), None);
}

#[test]
fn unpack_instr_reports_modes_and_op() {
    let cpu = machine(&[1002, 4, 3, 4, 33]);
    let unpacked = cpu.unpack_instr();
    assert_eq!(
        unpacked,
        Ok((
            (ParamMode::Position, ParamMode::Immediate, ParamMode::Position),
            Op::Mul
        ))
    );
}

#[test]
fn transfer_outputs_keeps_order() {
    // The program echoes its first two inputs in the order received.
    let mut cpu = machine(&[3, 9, 3, 10, 4, 9, 4, 10, 99, 0, 0]);
    cpu.transfer_outputs(&[7, 8]);
    assert_eq!(cpu.run(), Ok(StepResult::Halted));
    assert_eq!(*cpu.outputs(), vec![7i128, 8i128]);
}

#[test]
fn take_outputs_drains_the_store() {
    let mut cpu = machine(&[104, 5, 104, 6, 99]);
    assert_eq!(cpu.run(), Ok(StepResult::Halted));
    assert_eq!(cpu.last_output(), Some(6));
    let outs = cpu.take_outputs();
    assert_eq!(outs, vec![5i128, 6i128]);
    assert_eq!(cpu.outputs().len(), 0);
    assert_eq!(cpu.last_output(), None);
}

#[test]
fn get_value_resolves_all_modes() {
    let mut cpu = machine(&[109, 2, 99, 55, 0]);
    assert_eq!(cpu.step(), Ok(StepResult::Continued));
    assert_eq!(cpu.get_value(3, &ParamMode::Position), 55);
    assert_eq!(cpu.get_value(3, &ParamMode::Immediate), 3);
    assert_eq!(cpu.get_value(1, &ParamMode::Relative), 55);
}

#[test]
fn set_value_and_mem_growth() {
    let mut cpu = machine(&[1101, 2, 3, 7, 4, 7, 99, 0]);
    cpu.set_mem_size(64);
    assert_eq!(cpu.run(), Ok(StepResult::Halted));
    assert_eq!(*cpu.outputs(), vec![5i128]);
}
