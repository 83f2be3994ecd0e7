use intcode::network::{
    amp_output, chain_output, next_permutation, part1, part2, NetError, Network,
};
use intcode::vm::VmError;

#[test]
fn next_permutation_advances_lexicographically() {
    let mut v: Vec<i128> = vec![0, 1, 2];
    next_permutation(&mut v);
    assert_eq!(v, vec![0, 2, 1]);
    next_permutation(&mut v);
    assert_eq!(v, vec![1, 0, 2]);
    next_permutation(&mut v);
    assert_eq!(v, vec![1, 2, 0]);
    next_permutation(&mut v);
    assert_eq!(v, vec![2, 0, 1]);
    next_permutation(&mut v);
    assert_eq!(v, vec![2, 1, 0]);
}

#[test]
fn next_permutation_wraps_to_sorted() {
    let mut v: Vec<i128> = vec![2, 1, 0];
    next_permutation(&mut v);
    assert_eq!(v, vec![0, 1, 2]);
}

#[test]
fn amp_output_runs_one_stage() {
    // The amplifier multiplies its phase by 10 and adds the signal.
    let prog: Vec<i128> = vec![3, 15, 3, 16, 1002, 16, 10, 16, 1, 16, 15, 15, 4, 15, 99, 0, 0];
    let r = amp_output(&prog, 4, 0);
    assert_eq!(r, Ok(4));
}

#[test]
fn amp_output_reports_missing_output() {
    let prog: Vec<i128> = vec![3, 3, 99, 0];
    assert_eq!(amp_output(&prog, 1, 2), Err(NetError::NoOutput));
}

#[test]
fn amp_output_reports_faults() {
    let prog: Vec<i128> = vec![42];
    assert_eq!(amp_output(&prog, 1, 2), Err(NetError::Vm(VmError::InvalidOpcode)));
}

#[test]
fn chain_output_feeds_amplifiers_in_phase_order() {
    let prog: Vec<i128> = vec![3, 15, 3, 16, 1002, 16, 10, 16, 1, 16, 15, 15, 4, 15, 99, 0, 0];
    let phases: Vec<i128> = vec![4, 3, 2, 1, 0];
    assert_eq!(chain_output(&prog, &phases), Ok(43210));
}

#[test]
fn part1_finds_best_phase_order() {
    let prog: Vec<i128> = vec![3, 15, 3, 16, 1002, 16, 10, 16, 1, 16, 15, 15, 4, 15, 99, 0, 0];
    assert_eq!(part1(&prog), Ok(43210));
}

#[test]
fn part1_second_sample() {
    let prog: Vec<i128> = vec![
        3, 23, 3, 24, 1002, 24, 10, 24, 1002, 23, -1, 23, 101, 5, 23, 23, 1, 24, 23, 23, 4, 23,
        99, 0, 0,
    ];
    assert_eq!(part1(&prog), Ok(54321));
}

#[test]
fn feedback_network_runs_to_completion() {
    let prog: Vec<i128> = vec![
        3, 26, 1001, 26, -4, 26, 3, 27, 1002, 27, 2, 27, 1, 27, 26, 27, 4, 27, 1001, 28, -1, 28,
        1005, 28, 6, 99, 0, 0, 5,
    ];
    let phases: Vec<i128> = vec![9, 8, 7, 6, 5];
    let mut nw = Network::build(&prog, &phases);
    assert_eq!(nw.run_to_completion(), Ok(139629729));
}

#[test]
fn feedback_network_is_deterministic() {
    // Two independent runs of the same wiring give identical tap values.
    let prog: Vec<i128> = vec![
        3, 26, 1001, 26, -4, 26, 3, 27, 1002, 27, 2, 27, 1, 27, 26, 27, 4, 27, 1001, 28, -1, 28,
        1005, 28, 6, 99, 0, 0, 5,
    ];
    let phases: Vec<i128> = vec![9, 8, 7, 6, 5];
    let mut first = Network::build(&prog, &phases);
    let mut second = Network::build(&prog, &phases);
    let a = first.run_to_completion();
    let b = second.run_to_completion();
    assert_eq!(a, Ok(139629729));
    assert_eq!(a, b);
}

#[test]
fn part2_finds_best_feedback_order() {
    let prog: Vec<i128> = vec![
        3, 26, 1001, 26, -4, 26, 3, 27, 1002, 27, 2, 27, 1, 27, 26, 27, 4, 27, 1001, 28, -1, 28,
        1005, 28, 6, 99, 0, 0, 5,
    ];
    assert_eq!(part2(&prog), Ok(139629729));
}

#[test]
fn part1_reports_negative_maximum() {
    // Every chain result is -1; the maximum is -1, not a clamped 0.
    let prog: Vec<i128> = vec![104, -1, 99];
    assert_eq!(part1(&prog), Ok(-1));
}

#[test]
fn part2_reports_negative_maximum() {
    let prog: Vec<i128> = vec![104, -1, 99];
    assert_eq!(part2(&prog), Ok(-1));
}

#[test]
fn part1_reports_faulting_program() {
    let prog: Vec<i128> = vec![42];
    assert_eq!(part1(&prog), Err(NetError::Vm(VmError::InvalidOpcode)));
}

#[test]
fn part2_reports_faulting_program() {
    let prog: Vec<i128> = vec![42];
    assert_eq!(part2(&prog), Err(NetError::Vm(VmError::InvalidOpcode)));
}

#[test]
fn part2_second_sample() {
    let prog: Vec<i128> = vec![
        3, 52, 1001, 52, -5, 52, 3, 53, 1, 52, 56, 54, 1007, 54, 5, 55, 1005, 55, 26, 1001, 54,
        -5, 54, 1105, 1, 12, 1, 53, 54, 53, 1008, 54, 0, 55, 1001, 55, 1, 55, 2, 53, 55, 53, 4,
        53, 1001, 56, -1, 56, 1005, 56, 6, 99, 0, 0, 0, 0, 10,
    ];
    assert_eq!(part2(&prog), Ok(18216));
}
