use intcode::wires::{
    find_closest_intersection, find_fewest_steps_to_intersection, manhattan_distance, next_point,
    Direction, Instr, Wire,
};

#[test]
fn direction_letters() {
    assert_eq!(Direction::from_char('U'), Some(Direction::Up));
    assert_eq!(Direction::from_char('R'), Some(Direction::Right));
    assert_eq!(Direction::from_char('D'), Some(Direction::Down));
    assert_eq!(Direction::from_char('L'), Some(Direction::Left));
    assert_eq!(Direction::from_char('X'), None);
}

#[test]
fn next_point_moves_one_cell() {
    assert_eq!(next_point(&(0, 0), &Direction::Up), (0, 1));
    assert_eq!(next_point(&(0, 0), &Direction::Right), (1, 0));
    assert_eq!(next_point(&(5, -2), &Direction::Down), (5, -3));
    assert_eq!(next_point(&(5, -2), &Direction::Left), (4, -2));
}

#[test]
fn manhattan_distance_sums_magnitudes() {
    assert_eq!(manhattan_distance(&(3, -4)), 7);
    assert_eq!(manhattan_distance(&(0, 0)), 0);
    assert_eq!(manhattan_distance(&(-6, -6)), 12);
}

#[test]
fn instruction_tokens() {
    let i = Instr::from_string("R75").unwrap();
    assert_eq!(i.dir, Direction::Right);
    assert_eq!(i.amt, 75);
    let j = Instr::from_string("U1").unwrap();
    assert_eq!(j.dir, Direction::Up);
    assert_eq!(j.amt, 1);
    assert_eq!(Instr::from_string("X5"), None);
    assert_eq!(Instr::from_string("R"), None);
    assert_eq!(Instr::from_string("R1x"), None);
    assert_eq!(Instr::from_string("R123456789"), None);
}

#[test]
fn wire_lines() {
    let w = Wire::from_string("R8,U5,L5,D3").unwrap();
    assert_eq!(w.instrs.len(), 4);
    assert_eq!(w.instrs[0].dir, Direction::Right);
    assert_eq!(w.instrs[0].amt, 8);
    assert_eq!(w.instrs[3].dir, Direction::Down);
    assert_eq!(w.instrs[3].amt, 3);
    assert!(Wire::from_string("R8,,U5").is_none());
    assert!(Wire::from_string("R8,U5x").is_none());
}

#[test]
fn traced_points_in_walking_order() {
    let w = Wire::from_string("R2,U2").unwrap();
    let pts = w.get_points();
    assert_eq!(pts, vec![(1, 0), (2, 0), (2, 1), (2, 2)]);
}

#[test]
fn steps_count_first_visit() {
    let w = Wire::from_string("R2,U2").unwrap();
    assert_eq!(w.steps_to_intersection(&(2, 1)), 3);
    // A point the wire misses costs the whole walk.
    assert_eq!(w.steps_to_intersection(&(9, 9)), 4);
}

#[test]
fn closest_crossing_by_distance() {
    let w = Wire::from_string("R8,U5,L5,D3").unwrap();
    let v = Wire::from_string("U7,R6,D4,L4").unwrap();
    assert_eq!(find_closest_intersection(&w, &v), Some(6));
}

#[test]
fn closest_crossing_by_steps() {
    let w = Wire::from_string("R8,U5,L5,D3").unwrap();
    let v = Wire::from_string("U7,R6,D4,L4").unwrap();
    assert_eq!(find_fewest_steps_to_intersection(&w, &v), Some(30));
}

#[test]
fn parallel_wires_never_cross() {
    let w = Wire::from_string("R3").unwrap();
    let v = Wire::from_string("U3").unwrap();
    assert_eq!(find_closest_intersection(&w, &v), None);
    assert_eq!(find_fewest_steps_to_intersection(&w, &v), None);
}
