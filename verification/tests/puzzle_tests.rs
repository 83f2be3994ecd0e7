use intcode::asteroids::{find_best_asteroid, gcd, Asteroid};
use intcode::fuel::calculate_fuel;
use intcode::gravity::{apply_op, find_inputs_for, get_output, process};
use intcode::image::{get_counts, part1 as image_part1, part2 as image_part2};
use intcode::orbits::{count_orbits, get_path, OrbitMap};
use intcode::password::{has_same_adjacent_digits, is_valid_password, never_decreases};
use intcode::robot::{part1 as robot_part1, run_painter, Direction, RobotError};
use intcode::vm::VmError;

#[test]
fn fuel_for_known_masses() {
    assert_eq!(calculate_fuel(12), 2);
    assert_eq!(calculate_fuel(14), 2);
    assert_eq!(calculate_fuel(1969), 654);
    assert_eq!(calculate_fuel(100756), 33583);
    assert_eq!(calculate_fuel(3), -1);
    assert_eq!(calculate_fuel(2), -2);
    assert_eq!(calculate_fuel(0), -2);
    assert_eq!(calculate_fuel(-7), -4);
}

#[test]
fn apply_op_adds_and_multiplies() {
    assert_eq!(apply_op(1, 2, 3), 5);
    assert_eq!(apply_op(2, 2, 3), 6);
}

#[test]
fn process_runs_position_program() {
    let mut mem: Vec<u32> = vec![1, 9, 10, 3, 2, 3, 11, 0, 99, 30, 40, 50];
    assert_eq!(process(&mut mem), Ok(()));
    assert_eq!(mem, vec![3500, 9, 10, 70, 2, 3, 11, 0, 99, 30, 40, 50]);
}

#[test]
fn process_rejects_unknown_opcode() {
    let mut mem: Vec<u32> = vec![5, 0, 0, 0, 99];
    assert_eq!(process(&mut mem), Err(VmError::InvalidOpcode));
}

#[test]
fn get_output_reports_cell_zero() {
    let init: Vec<u32> = vec![1, 0, 0, 0, 99];
    assert_eq!(get_output(0, 0, &init), Ok(2));
}

#[test]
fn find_inputs_for_first_match() {
    let init: Vec<u32> = vec![1, 0, 0, 0, 99];
    // Noun 0 / verb 0 already writes 2 to cell 0.
    assert_eq!(find_inputs_for(2, &init), Some((0, 0)));
}

#[test]
fn find_inputs_for_no_match() {
    let init: Vec<u32> = vec![1, 0, 0, 0, 99];
    // Cell 0 always ends up holding the sum of two cells indexed by the
    // noun and verb; 1 is never produced from this tiny program.
    assert_eq!(find_inputs_for(1000000, &init), None);
}

#[test]
fn adjacent_digit_rules() {
    assert!(has_same_adjacent_digits(111111, false));
    assert!(!has_same_adjacent_digits(123789, false));
    assert!(has_same_adjacent_digits(112233, true));
    assert!(!has_same_adjacent_digits(123444, true));
    assert!(has_same_adjacent_digits(111122, true));
}

#[test]
fn never_decreases_rule() {
    assert!(never_decreases(111123));
    assert!(never_decreases(135679));
    assert!(!never_decreases(223450));
}

#[test]
fn password_validity() {
    assert!(is_valid_password(144556, false));
    assert!(is_valid_password(144556, true));
    // Six digits and non-decreasing, but below the fixed range.
    assert!(!is_valid_password(111111, false));
    // In range but decreasing.
    assert!(!is_valid_password(223450, false));
    // A triple is not an exact pair.
    assert!(is_valid_password(144456, false));
    assert!(!is_valid_password(144457, true));
}

#[test]
fn layer_counts() {
    let mut layer: Vec<u32> = Vec::new();
    for _ in 0..75 {
        layer.push(0);
    }
    for _ in 0..50 {
        layer.push(1);
    }
    for _ in 0..25 {
        layer.push(2);
    }
    assert_eq!(get_counts(&layer), (75, 50, 25));
}

#[test]
fn image_checksum_uses_layer_with_fewest_zeros() {
    let mut digits: Vec<u32> = Vec::new();
    // First layer: 75 zeros, 50 ones, 25 twos.
    for _ in 0..75 {
        digits.push(0);
    }
    for _ in 0..50 {
        digits.push(1);
    }
    for _ in 0..25 {
        digits.push(2);
    }
    // Second layer: no zeros, 100 ones, 50 twos.
    for _ in 0..100 {
        digits.push(1);
    }
    for _ in 0..50 {
        digits.push(2);
    }
    assert_eq!(image_part1(&digits), 100 * 50);
}

#[test]
fn image_compositing_keeps_first_visible_pixel() {
    let mut digits: Vec<u32> = Vec::new();
    // First layer: pixel 0 is white, the rest transparent.
    digits.push(1);
    for _ in 1..150 {
        digits.push(2);
    }
    // Second layer: all black.
    for _ in 0..150 {
        digits.push(0);
    }
    let image = image_part2(&digits);
    assert_eq!(image.len(), 150);
    assert_eq!(image[0], 1);
    for t in 1..150 {
        assert_eq!(image[t], 0);
    }
}

fn sample_orbits() -> OrbitMap {
    // The twelve-body sample: COM)B B)C C)D D)E E)F B)G G)H D)I E)J J)K K)L,
    // with bodies numbered 0 (COM) through 11 (L) in that order of first
    // appearance: B=1 C=2 D=3 E=4 F=5 G=6 H=7 I=8 J=9 K=10 L=11.
    OrbitMap {
        children: vec![
            vec![1],
            vec![2, 6],
            vec![3],
            vec![4, 8],
            vec![5, 9],
            vec![],
            vec![7],
            vec![],
            vec![],
            vec![10],
            vec![11],
            vec![],
        ],
    }
}

#[test]
fn orbit_count_of_sample() {
    assert_eq!(count_orbits(&sample_orbits()), Some(42));
}

#[test]
fn path_from_centre_to_leaf() {
    let map = sample_orbits();
    assert_eq!(get_path(11, &map), Some(vec![0, 1, 2, 3, 4, 9, 10, 11]));
}

#[test]
fn no_path_to_disconnected_body() {
    let map = OrbitMap { children: vec![vec![], vec![]] };
    assert_eq!(get_path(1, &map), None);
}

#[test]
fn gcd_of_known_pairs() {
    assert_eq!(gcd(12, 8), 4);
    assert_eq!(gcd(0, 5), 5);
    assert_eq!(gcd(7, 0), 7);
    assert_eq!(gcd(21, 14), 7);
}

#[test]
fn line_of_sight_blocked_by_middle_asteroid() {
    let field = vec![
        Asteroid { x: 0, y: 0 },
        Asteroid { x: 1, y: 1 },
        Asteroid { x: 2, y: 2 },
    ];
    assert!(field[0].can_detect(&field[1], &field));
    assert!(!field[0].can_detect(&field[2], &field));
    assert!(field[1].can_detect(&field[0], &field));
    assert!(field[1].can_detect(&field[2], &field));
}

#[test]
fn best_asteroid_sees_the_most() {
    let field = vec![
        Asteroid { x: 0, y: 0 },
        Asteroid { x: 1, y: 1 },
        Asteroid { x: 2, y: 2 },
    ];
    assert_eq!(field[0].count_detections(&field), 1);
    assert_eq!(field[1].count_detections(&field), 2);
    assert_eq!(field[2].count_detections(&field), 1);
    assert_eq!(*find_best_asteroid(&field), Asteroid { x: 1, y: 1 });
}

#[test]
fn robot_turning_and_stepping() {
    assert_eq!(Direction::Up.turn(0), Direction::Left);
    assert_eq!(Direction::Up.turn(1), Direction::Right);
    assert_eq!(Direction::Left.turn(0), Direction::Down);
    assert_eq!(Direction::Down.turn(1), Direction::Left);
    assert_eq!(Direction::Up.step((0, 0)), (0, 1));
    assert_eq!(Direction::Right.step((2, 3)), (3, 3));
    assert_eq!(Direction::Down.step((0, 0)), (0, -1));
    assert_eq!(Direction::Left.step((2, 3)), (1, 3));
}

#[test]
fn robot_counts_panels_for_halting_program() {
    // The machine halts at once: the robot only ever scans the origin.
    let prog: Vec<i128> = vec![99];
    assert_eq!(robot_part1(&prog), Ok(1));
}

#[test]
fn robot_paints_once_then_halts() {
    // Read the camera, paint white, turn left, then wait for one more
    // camera reading before halting: two panels scanned in all.
    let prog: Vec<i128> = vec![3, 0, 104, 1, 104, 0, 3, 0, 99];
    assert_eq!(robot_part1(&prog), Ok(2));
}

#[test]
fn painter_reports_final_panel_colours() {
    // Paint the origin white, turn left, then wait before halting: the
    // grid holds the repainted origin and the panel stepped onto.
    let prog: Vec<i128> = vec![3, 0, 104, 1, 104, 0, 3, 0, 99];
    let mut grid = run_painter(&prog, 0).unwrap();
    grid.sort();
    assert_eq!(grid, vec![((-1, 0), 0), ((0, 0), 1)]);
}

#[test]
fn painter_keeps_unvisited_start_colour() {
    let prog: Vec<i128> = vec![99];
    assert_eq!(run_painter(&prog, 1).unwrap(), vec![((0, 0), 1)]);
}

#[test]
fn robot_reports_faulting_program() {
    let prog: Vec<i128> = vec![42];
    assert_eq!(robot_part1(&prog), Err(RobotError::Vm(VmError::InvalidOpcode)));
}

#[test]
fn robot_rejects_bad_turn_value() {
    let prog: Vec<i128> = vec![3, 0, 104, 1, 104, 7, 3, 0, 99];
    assert_eq!(robot_part1(&prog), Err(RobotError::Protocol));
}
