//! The painting robot: a client of the machine that feeds the colour of
//! the panel under it as input, reads accumulated output pairs as (paint
//! colour, turn direction), and walks a grid until its machine halts.

use vstd::prelude::*;
use crate::vm::{
    is_terminal, lemma_run_deterministic, run_exhausts, run_terminal, runs_to, spec_is_halted,
    spec_step_res, CPU, State, StepResult, VmError,
};

verus! {

/// Memory capacity given to the robot's machine at construction.
pub const MEM_SIZE: usize = 100000;

/// Upper bound on robot iterations in one run; the budget exists so the
/// driving loop provably terminates.
pub const MAX_PAINT_STEPS: u64 = 0x1_0000_0000;

pub type Location = (i64, i64);

/// Failure of a robot run.
#[derive(Clone, Copy, PartialEq, Eq, Structural, Debug)]
pub enum RobotError {
    /// The machine faulted (or a step budget ran out).
    Vm(VmError),
    /// The machine broke the output protocol: it paused with fewer than
    /// two accumulated outputs, or reported a turn other than 0 or 1.
    Protocol,
}

#[derive(Clone, Copy, PartialEq, Eq, Structural, Debug)]
pub enum Direction {
    Up,
    Right,
    Down,
    Left,
}

/// The heading after turning left (0) or right (anything else).
pub open spec fn spec_turn(d: Direction, t: i128) -> Direction {
    if t == 0 {
        match d {
            Direction::Up => Direction::Left,
            Direction::Right => Direction::Up,
            Direction::Down => Direction::Right,
            Direction::Left => Direction::Down,
        }
    } else {
        match d {
            Direction::Up => Direction::Right,
            Direction::Right => Direction::Down,
            Direction::Down => Direction::Left,
            Direction::Left => Direction::Up,
        }
    }
}

/// One grid step along a heading, on mathematical coordinates.
pub open spec fn spec_move(d: Direction, pos: (int, int)) -> (int, int) {
    match d {
        Direction::Up => (pos.0, pos.1 + 1),
        Direction::Right => (pos.0 + 1, pos.1),
        Direction::Down => (pos.0, pos.1 - 1),
        Direction::Left => (pos.0 - 1, pos.1),
    }
}

impl Direction {
    /// The neighbouring grid cell along this heading.
    pub fn step(&self, pos: Location) -> (r: Location)
        requires
            i64::MIN < pos.0 < i64::MAX,
            i64::MIN < pos.1 < i64::MAX,
        ensures
            (r.0 as int, r.1 as int) == spec_move(*self, (pos.0 as int, pos.1 as int)),
    {
        let (x, y) = pos;
        match self {
            Direction::Up => (x, y + 1),
            Direction::Right => (x + 1, y),
            Direction::Down => (x, y - 1),
            Direction::Left => (x - 1, y),
        }
    }

    /// The heading after turning left (`dir == 0`) or right (`dir == 1`).
    pub fn turn(&self, dir: u8) -> (r: Direction)
        requires
            dir <= 1,
        ensures
            r == spec_turn(*self, dir as i128),
    {
        match dir {
            0 => match self {
                Direction::Up => Direction::Left,
                Direction::Right => Direction::Up,
                Direction::Down => Direction::Right,
                Direction::Left => Direction::Down,
            },
            _ => match self {
                Direction::Up => Direction::Right,
                Direction::Right => Direction::Down,
                Direction::Down => Direction::Left,
                Direction::Left => Direction::Up,
            },
        }
    }
}

/// The robot's whole configuration: its machine, its position and
/// heading, and every panel it has stood on with that panel's colour.
#[verifier::ext_equal]
pub ghost struct RobotState {
    pub vm: State,
    pub pos: (int, int),
    pub facing: Direction,
    pub panels: Map<(int, int), i128>,
}

/// The colour the camera reads: the panel's colour, or black.
pub open spec fn panel_color(panels: Map<(int, int), i128>, pos: (int, int)) -> i128 {
    if panels.dom().contains(pos) {
        panels[pos]
    } else {
        0
    }
}

/// The starting configuration: the program in a machine with `MEM_SIZE`
/// cells, the robot at the origin facing up over an unpainted grid.
pub open spec fn robot_init(prog: Seq<i128>) -> RobotState {
    RobotState {
        vm: State {
            pc: 0,
            base: 0,
            mem: prog + Seq::<i128>::new((MEM_SIZE - prog.len()) as nat, |i: int| 0i128),
            inputs: Seq::<i128>::empty(),
            outputs: Seq::<i128>::empty(),
        },
        pos: (0, 0),
        facing: Direction::Up,
        panels: Map::<(int, int), i128>::empty(),
    }
}

/// One continuing robot iteration: scan the current panel (which marks
/// it visited), run the machine on that colour, read the last two
/// accumulated outputs as paint colour and turn direction, paint, turn
/// and advance.
pub open spec fn robot_step(c1: RobotState, c2: RobotState) -> bool {
    let color = panel_color(c1.panels, c1.pos);
    let p1 = c1.panels.insert(c1.pos, color);
    let fed = State { inputs: c1.vm.inputs.push(color), ..c1.vm };
    exists|t: State|
        #[trigger] run_terminal(fed, t)
            && spec_step_res(t) is Ok
            && !spec_is_halted(t)
            && t.outputs.len() >= 2
            && (t.outputs[t.outputs.len() - 1] == 0 || t.outputs[t.outputs.len() - 1] == 1)
            && c2 == (RobotState {
            vm: t,
            pos: spec_move(spec_turn(c1.facing, t.outputs[t.outputs.len() - 1]), c1.pos),
            facing: spec_turn(c1.facing, t.outputs[t.outputs.len() - 1]),
            panels: p1.insert(c1.pos, t.outputs[t.outputs.len() - 2]),
        })
}

/// The machine halts at the next scan: `panels` is the final record of
/// every panel the robot ever stood on.
pub open spec fn robot_halts(c1: RobotState, panels: Map<(int, int), i128>) -> bool {
    let color = panel_color(c1.panels, c1.pos);
    let p1 = c1.panels.insert(c1.pos, color);
    let fed = State { inputs: c1.vm.inputs.push(color), ..c1.vm };
    exists|t: State|
        #[trigger] run_terminal(fed, t)
            && spec_step_res(t) is Ok
            && spec_is_halted(t)
            && panels == p1
}

/// `k` continuing robot iterations take `c1` to `c2`.
pub open spec fn robot_runs(c1: RobotState, c2: RobotState, k: nat) -> bool
    decreases k,
{
    if k == 0 {
        c1 == c2
    } else {
        exists|mid: RobotState| #[trigger] robot_step(c1, mid) && robot_runs(mid, c2, (k - 1) as nat)
    }
}

/// One more robot iteration at the end of a run.
pub proof fn lemma_robot_runs_extend(a: RobotState, b: RobotState, c: RobotState, k: nat)
    requires
        robot_runs(a, b, k),
        robot_step(b, c),
    ensures
        robot_runs(a, c, k + 1),
    decreases k,
{
    if k == 0 {
        assert(robot_runs(c, c, 0));
        assert(robot_runs(a, c, 1));
    } else {
        let mid = choose|mid: RobotState| #[trigger] robot_step(a, mid) && robot_runs(mid, b, (k - 1) as nat);
        lemma_robot_runs_extend(mid, b, c, (k - 1) as nat);
    }
}


/// The machine a robot configuration runs next: its machine with the
/// scanned colour queued.
pub open spec fn robot_fed(c1: RobotState) -> State {
    State { inputs: c1.vm.inputs.push(panel_color(c1.panels, c1.pos)), ..c1.vm }
}

/// The robot's iteration budget, as a mathematical count.
pub open spec fn paint_budget() -> nat {
    MAX_PAINT_STEPS as nat
}

/// The walk from `init` exhausted a budget: either the robot performed
/// its whole iteration budget, or a reachable configuration's machine
/// executes a whole instruction budget without coming to rest.
pub open spec fn robot_budget_stuck(init: RobotState) -> bool {
    (exists|c: RobotState| #[trigger] robot_runs(init, c, paint_budget())) || (exists|
        c: RobotState,
        k: nat,
    |
        #[trigger] robot_runs(init, c, k) && run_exhausts(robot_fed(c)))
}

/// One robot iteration has at most one outcome.
pub proof fn lemma_robot_step_deterministic(c1: RobotState, x: RobotState, y: RobotState)
    requires
        robot_step(c1, x),
        robot_step(c1, y),
    ensures
        x == y,
{
    let color = panel_color(c1.panels, c1.pos);
    let fed = State { inputs: c1.vm.inputs.push(color), ..c1.vm };
    let tx = choose|t: State|
        #[trigger] run_terminal(fed, t) && spec_step_res(t) is Ok && !spec_is_halted(t)
            && t.outputs.len() >= 2 && (t.outputs[t.outputs.len() - 1] == 0 || t.outputs[t.outputs.len() - 1] == 1) && x == (RobotState {
            vm: t,
            pos: spec_move(spec_turn(c1.facing, t.outputs[t.outputs.len() - 1]), c1.pos),
            facing: spec_turn(c1.facing, t.outputs[t.outputs.len() - 1]),
            panels: c1.panels.insert(c1.pos, color).insert(c1.pos, t.outputs[t.outputs.len() - 2]),
        });
    let ty = choose|t: State|
        #[trigger] run_terminal(fed, t) && spec_step_res(t) is Ok && !spec_is_halted(t)
            && t.outputs.len() >= 2 && (t.outputs[t.outputs.len() - 1] == 0 || t.outputs[t.outputs.len() - 1] == 1) && y == (RobotState {
            vm: t,
            pos: spec_move(spec_turn(c1.facing, t.outputs[t.outputs.len() - 1]), c1.pos),
            facing: spec_turn(c1.facing, t.outputs[t.outputs.len() - 1]),
            panels: c1.panels.insert(c1.pos, color).insert(c1.pos, t.outputs[t.outputs.len() - 2]),
        });
    let nx = choose|n: nat| #[trigger] runs_to(fed, tx, n) && is_terminal(tx);
    let ny = choose|n: nat| #[trigger] runs_to(fed, ty, n) && is_terminal(ty);
    lemma_run_deterministic(fed, tx, ty, nx, ny);
}

/// After exactly `k` iterations there is at most one configuration.
pub proof fn lemma_robot_runs_functional(a: RobotState, x: RobotState, y: RobotState, k: nat)
    requires
        robot_runs(a, x, k),
        robot_runs(a, y, k),
    ensures
        x == y,
    decreases k,
{
    if k != 0 {
        let mx = choose|mid: RobotState|
            #[trigger] robot_step(a, mid) && robot_runs(mid, x, (k - 1) as nat);
        let my = choose|mid: RobotState|
            #[trigger] robot_step(a, mid) && robot_runs(mid, y, (k - 1) as nat);
        lemma_robot_step_deterministic(a, mx, my);
        lemma_robot_runs_functional(mx, x, y, (k - 1) as nat);
    }
}

/// Runs of iterations from one configuration agree on their common
/// prefix.
pub proof fn lemma_robot_runs_prefix(a: RobotState, x: RobotState, kx: nat, y: RobotState, ky: nat)
    requires
        robot_runs(a, x, kx),
        robot_runs(a, y, ky),
        kx <= ky,
    ensures
        robot_runs(x, y, (ky - kx) as nat),
    decreases kx,
{
    if kx != 0 {
        let mx = choose|mid: RobotState|
            #[trigger] robot_step(a, mid) && robot_runs(mid, x, (kx - 1) as nat);
        let my = choose|mid: RobotState|
            #[trigger] robot_step(a, mid) && robot_runs(mid, y, (ky - 1) as nat);
        lemma_robot_step_deterministic(a, mx, my);
        lemma_robot_runs_prefix(mx, x, (kx - 1) as nat, y, (ky - 1) as nat);
    }
}

/// A configuration whose machine does not rest on a halt instruction
/// cannot be where the walk ends.
pub proof fn lemma_robot_no_halt(c1: RobotState, t0: State)
    requires
        run_terminal(robot_fed(c1), t0),
        spec_step_res(t0) is Err || !spec_is_halted(t0),
    ensures
        forall|panels: Map<(int, int), i128>| !robot_halts(c1, panels),
{
    let fed = robot_fed(c1);
    assert forall|panels: Map<(int, int), i128>| !robot_halts(c1, panels) by {
        if robot_halts(c1, panels) {
            let t = choose|t: State|
                #[trigger] run_terminal(fed, t) && spec_step_res(t) is Ok && spec_is_halted(t)
                    && panels == c1.panels.insert(c1.pos, panel_color(c1.panels, c1.pos));
            let n1 = choose|n: nat| #[trigger] runs_to(fed, t, n) && is_terminal(t);
            let n0 = choose|n: nat| #[trigger] runs_to(fed, t0, n) && is_terminal(t0);
            lemma_run_deterministic(fed, t, t0, n1, n0);
        }
    }
}

/// A configuration whose machine faults or breaks the output protocol
/// cannot take another iteration.
pub proof fn lemma_robot_no_step(c1: RobotState, t0: State)
    requires
        run_terminal(robot_fed(c1), t0),
        spec_step_res(t0) is Err || t0.outputs.len() < 2 || !(t0.outputs[t0.outputs.len() - 1]
            == 0 || t0.outputs[t0.outputs.len() - 1] == 1),
    ensures
        forall|c2: RobotState| !robot_step(c1, c2),
{
    let color = panel_color(c1.panels, c1.pos);
    let fed = robot_fed(c1);
    assert forall|c2: RobotState| !robot_step(c1, c2) by {
        if robot_step(c1, c2) {
            let t = choose|t: State|
                #[trigger] run_terminal(fed, t) && spec_step_res(t) is Ok && !spec_is_halted(t)
                    && t.outputs.len() >= 2 && (t.outputs[t.outputs.len() - 1] == 0 || t.outputs[t.outputs.len() - 1] == 1) && c2 == (RobotState {
                    vm: t,
                    pos: spec_move(spec_turn(c1.facing, t.outputs[t.outputs.len() - 1]), c1.pos),
                    facing: spec_turn(c1.facing, t.outputs[t.outputs.len() - 1]),
                    panels: c1.panels.insert(c1.pos, color).insert(
                        c1.pos,
                        t.outputs[t.outputs.len() - 2],
                    ),
                });
            let n1 = choose|n: nat| #[trigger] runs_to(fed, t, n) && is_terminal(t);
            let n0 = choose|n: nat| #[trigger] runs_to(fed, t0, n) && is_terminal(t0);
            lemma_run_deterministic(fed, t, t0, n1, n0);
        }
    }
}

/// The key of a grid entry, as mathematical coordinates.
pub open spec fn key_int(k: Location) -> (int, int) {
    (k.0 as int, k.1 as int)
}

/// The visited-panel store: distinct keys, sound and complete for the
/// ghost panel map, and as many entries as panels.
pub open spec fn grid_inv(g: Seq<(Location, i128)>, panels: Map<(int, int), i128>) -> bool {
    &&& panels.dom().finite()
    &&& g.len() == panels.dom().len()
    &&& (forall|i: int, j: int| 0 <= i < j < g.len() ==> key_int(g[i].0) != key_int(g[j].0))
    &&& (forall|i: int|
        0 <= i < g.len() ==> panels.dom().contains(key_int(#[trigger] g[i].0)) && panels[key_int(
            g[i].0,
        )] == g[i].1)
    &&& (forall|p: (int, int)|
        #[trigger] panels.dom().contains(p) ==> exists|i: int|
            0 <= i < g.len() && key_int(#[trigger] g[i].0) == p)
}

/// A walk that has reached a configuration that can neither take
/// another iteration nor halt never ends at all.
pub proof fn lemma_robot_walk_stuck(init: RobotState, c1: RobotState, steps: nat)
    requires
        robot_runs(init, c1, steps),
        forall|c2: RobotState, k: nat, panels: Map<(int, int), i128>|
            #![trigger robot_runs(init, c2, k), robot_halts(c2, panels)]
            k < steps && robot_runs(init, c2, k) ==> !robot_halts(c2, panels),
        forall|panels: Map<(int, int), i128>| !robot_halts(c1, panels),
        forall|c2: RobotState| !robot_step(c1, c2),
    ensures
        forall|c2: RobotState, k: nat, panels: Map<(int, int), i128>|
            #![trigger robot_runs(init, c2, k), robot_halts(c2, panels)]
            !(robot_runs(init, c2, k) && robot_halts(c2, panels)),
{
    assert forall|c2: RobotState, k: nat, panels: Map<(int, int), i128>|
        #![trigger robot_runs(init, c2, k), robot_halts(c2, panels)]
        !(robot_runs(init, c2, k) && robot_halts(c2, panels)) by {
        if robot_runs(init, c2, k) && robot_halts(c2, panels) {
            if k < steps {
            } else if k == steps {
                lemma_robot_runs_functional(init, c2, c1, k);
            } else {
                lemma_robot_runs_prefix(init, c1, steps, c2, k);
                let mid = choose|mid: RobotState|
                    #[trigger] robot_step(c1, mid) && robot_runs(mid, c2, (k - steps - 1) as nat);
            }
        }
    }
}

/// Linear scan for the entry holding `pos`.
fn find_panel(grid: &Vec<(Location, i128)>, pos: Location) -> (r: Option<usize>)
    ensures
        r matches Some(i) ==> i < grid@.len() && grid@[i as int].0 == pos,
        r is None ==> forall|i: int| 0 <= i < grid@.len() ==> grid@[i].0 != pos,
{
    let n = grid.len();
    for i in 0..n
        invariant
            n == grid@.len(),
            forall|j: int| 0 <= j < i ==> grid@[j].0 != pos,
    {
        let e = grid[i];
        if e.0.0 == pos.0 && e.0.1 == pos.1 {
            return Some(i);
        }
    }
    None
}

/// Drive the robot from the configuration `c0` (whose visited panels the
/// entries of `grid0` record) until its machine halts, and hand back the
/// final panel record as grid entries.
fn walk(instrs: &Vec<i128>, grid0: Vec<(Location, i128)>, Ghost(c0): Ghost<RobotState>) -> (r:
    Result<Vec<(Location, i128)>, RobotError>)
    requires
        instrs@.len() <= MEM_SIZE,
        c0.vm == (State {
            pc: 0,
            base: 0,
            mem: instrs@ + Seq::<i128>::new((MEM_SIZE - instrs@.len()) as nat, |i: int| 0i128),
            inputs: Seq::<i128>::empty(),
            outputs: Seq::<i128>::empty(),
        }),
        c0.pos == (0int, 0int),
        c0.facing == Direction::Up,
        grid_inv(grid0@, c0.panels),
    ensures
        r matches Ok(g) ==> exists|c2: RobotState, k: nat, panels: Map<(int, int), i128>|
            #![trigger robot_runs(c0, c2, k), robot_halts(c2, panels)]
            robot_runs(c0, c2, k) && robot_halts(c2, panels)
                && panels.dom().finite() && grid_inv(g@, panels),
        (r matches Err(e) && e != RobotError::Vm(VmError::StepLimitReached)) ==> forall|
            c2: RobotState,
            k: nat,
            panels: Map<(int, int), i128>,
        |
            #![trigger robot_runs(c0, c2, k), robot_halts(c2, panels)]
            !(robot_runs(c0, c2, k) && robot_halts(c2, panels)),
        r == Err::<Vec<(Location, i128)>, RobotError>(RobotError::Vm(VmError::StepLimitReached))
            ==> robot_budget_stuck(c0),
{
    let mut cpu = CPU::new(instrs.clone());
    cpu.set_mem_size(MEM_SIZE);
    let mut pos: Location = (0, 0);
    let mut dir = Direction::Up;
    let mut grid = grid0;
    let ghost mut conf = c0;
    let ghost mut steps: nat = 0;
    proof {
        assert(cpu@ =~= conf.vm);
        assert(robot_runs(c0, conf, 0));
    }
    let mut budget: u64 = 0;
    loop
        invariant_except_break
            budget < MAX_PAINT_STEPS,
            cpu@ == conf.vm,
            (pos.0 as int, pos.1 as int) == conf.pos,
            dir == conf.facing,
            -(budget as int) <= pos.0 as int <= budget as int,
            -(budget as int) <= pos.1 as int <= budget as int,
            grid_inv(grid@, conf.panels),
            robot_runs(c0, conf, steps),
            budget as nat == steps,
            forall|c2: RobotState, k: nat, panels: Map<(int, int), i128>|
                #![trigger robot_runs(c0, c2, k), robot_halts(c2, panels)]
                k < steps && robot_runs(c0, c2, k) ==> !robot_halts(c2, panels),
        decreases MAX_PAINT_STEPS - budget,
    {
        let ghost c1 = conf;
        let ghost g0 = grid@;
        // Scan the panel under the robot, recording it as visited.
        let found = find_panel(&grid, pos);
        let idx = match found {
            Some(i) => i,
            None => {
                grid.push((pos, 0));
                grid.len() - 1
            },
        };
        let color = grid[idx].1;
        let ghost p1 = c1.panels.insert(c1.pos, color);
        proof {
            if found is None {
                assert(!c1.panels.dom().contains(c1.pos)) by {
                    if c1.panels.dom().contains(c1.pos) {
                        let i = choose|i: int|
                            0 <= i < g0.len() && key_int(#[trigger] g0[i].0) == c1.pos;
                        assert(g0[i].0 != pos);
                        assert(false);
                    }
                }
                assert(color == 0 && color == panel_color(c1.panels, c1.pos));
                assert(c1.panels.dom().insert(c1.pos).len() == c1.panels.dom().len() + 1);
                assert(p1.dom() =~= c1.panels.dom().insert(c1.pos));
                assert(grid@.len() == g0.len() + 1 && grid@[g0.len() as int] == (pos, 0i128));
                assert forall|i: int, j: int|
                    0 <= i < j < grid@.len() implies key_int(grid@[i].0) != key_int(
                    grid@[j].0,
                ) by {
                    if j == g0.len() {
                        assert(g0[i].0 != pos);
                    }
                }
                assert forall|i: int|
                    0 <= i < grid@.len() implies p1.dom().contains(key_int(#[trigger] grid@[i].0))
                        && p1[key_int(grid@[i].0)] == grid@[i].1 by {
                    if i < g0.len() {
                        assert(g0[i].0 != pos);
                        assert(key_int(grid@[i].0) != c1.pos);
                    }
                }
                assert forall|p: (int, int)| #[trigger]
                    p1.dom().contains(p) implies exists|i: int|
                    0 <= i < grid@.len() && key_int(#[trigger] grid@[i].0) == p by {
                    if p == c1.pos {
                        assert(key_int(grid@[g0.len() as int].0) == p);
                    } else {
                        let i = choose|i: int|
                            0 <= i < g0.len() && key_int(#[trigger] g0[i].0) == p;
                        assert(key_int(grid@[i].0) == p);
                    }
                }
                assert(grid_inv(grid@, p1));
            } else {
                assert(grid@ == g0);
                assert(c1.panels.dom().contains(key_int(grid@[idx as int].0)));
                assert(key_int(grid@[idx as int].0) == c1.pos);
                assert(color == panel_color(c1.panels, c1.pos));
                assert(p1 =~= c1.panels);
                assert(grid_inv(grid@, p1));
            }
        }
        cpu.add_input(color);
        let ghost fed = State { inputs: c1.vm.inputs.push(color), ..c1.vm };
        proof {
            assert(cpu@ =~= fed);
        }
        match cpu.run() {
            Err(e) => {
                proof {
                    if e == VmError::StepLimitReached {
                        assert(robot_fed(c1) =~= fed);
                        assert(run_exhausts(robot_fed(c1)));
                        assert(robot_runs(c0, c1, steps) && run_exhausts(
                            robot_fed(c1),
                        ));
                        assert(robot_budget_stuck(c0));
                    }
                    if e != VmError::StepLimitReached {
                        let t0 = cpu@;
                        assert(robot_fed(c1) =~= fed);
                        assert(run_terminal(fed, t0));
                        lemma_robot_no_halt(c1, t0);
                        lemma_robot_no_step(c1, t0);
                        lemma_robot_walk_stuck(c0, c1, steps);
                    }
                }
                return Err(RobotError::Vm(e));
            },
            Ok(_) => {},
        }
        let ghost t = cpu@;
        if cpu.is_halted() {
            proof {
                assert(run_terminal(fed, t));
                assert(robot_halts(c1, p1));
            }
            return Ok(grid);
        }
        let outs = cpu.outputs();
        let len = outs.len();
        if len < 2 {
            proof {
                assert(robot_fed(c1) =~= fed);
                assert(run_terminal(fed, t));
                lemma_robot_no_halt(c1, t);
                lemma_robot_no_step(c1, t);
                lemma_robot_walk_stuck(c0, c1, steps);
            }
            return Err(RobotError::Protocol);
        }
        let c = outs[len - 2];
        let tv = outs[len - 1];
        if !(tv == 0 || tv == 1) {
            proof {
                assert(robot_fed(c1) =~= fed);
                assert(run_terminal(fed, t));
                assert(t.outputs[t.outputs.len() - 1] == tv);
                lemma_robot_no_halt(c1, t);
                lemma_robot_no_step(c1, t);
                lemma_robot_walk_stuck(c0, c1, steps);
            }
            return Err(RobotError::Protocol);
        }
        let tvu: u8 = if tv == 0 {
            0
        } else {
            1
        };
        dir = dir.turn(tvu);
        let ghost gm = grid@;
        grid[idx] = (pos, c);
        let ghost p2 = p1.insert(c1.pos, c);
        proof {
            assert(p1.dom().contains(c1.pos));
            assert(p2.dom() =~= p1.dom());
            assert(p2.dom().len() == p1.dom().len());
            assert(grid@ == gm.update(idx as int, (pos, c)));
            assert(key_int(gm[idx as int].0) == c1.pos);
            assert forall|i: int, j: int|
                0 <= i < j < grid@.len() implies key_int(grid@[i].0) != key_int(grid@[j].0) by {
                assert(key_int(gm[i].0) != key_int(gm[j].0));
                assert(grid@[i].0 == gm[i].0 && grid@[j].0 == gm[j].0);
            }
            assert forall|i: int|
                0 <= i < grid@.len() implies p2.dom().contains(key_int(#[trigger] grid@[i].0))
                    && p2[key_int(grid@[i].0)] == grid@[i].1 by {
                if i == idx as int {
                    assert(key_int(grid@[i].0) == c1.pos);
                } else {
                    assert(key_int(gm[i].0) != key_int(gm[idx as int].0));
                    assert(key_int(grid@[i].0) != c1.pos);
                }
            }
            assert forall|p: (int, int)| #[trigger]
                p2.dom().contains(p) implies exists|i: int|
                0 <= i < grid@.len() && key_int(#[trigger] grid@[i].0) == p by {
                let i = choose|i: int| 0 <= i < gm.len() && key_int(#[trigger] gm[i].0) == p;
                assert(key_int(grid@[i].0) == p);
            }
            assert(grid_inv(grid@, p2));
        }
        pos = dir.step(pos);
        proof {
            let c2 = RobotState { vm: t, pos: (pos.0 as int, pos.1 as int), facing: dir, panels: p2 };
            assert(run_terminal(fed, t));
            assert(robot_step(c1, c2));
            lemma_robot_runs_extend(c0, c1, c2, steps);
            assert(robot_fed(c1) =~= fed);
            lemma_robot_no_halt(c1, t);
            assert forall|cx: RobotState, k: nat, panels: Map<(int, int), i128>|
                #![trigger robot_runs(c0, cx, k), robot_halts(cx, panels)]
                k < steps + 1 && robot_runs(c0, cx, k) implies !robot_halts(
                cx,
                panels,
            ) by {
                if k == steps && robot_runs(c0, cx, k) {
                    lemma_robot_runs_functional(c0, cx, c1, k);
                }
            }
            steps = steps + 1;
            conf = c2;
        }
        budget = budget + 1;
        if budget == MAX_PAINT_STEPS {
            proof {
                assert(robot_runs(c0, conf, paint_budget()));
                assert(robot_budget_stuck(c0));
            }
            return Err(RobotError::Vm(VmError::StepLimitReached));
        }
    }
}

/// Drive the robot until its machine halts and report how many distinct
/// panels it stood on. On success the count is exactly the size of the
/// final panel record of a halting run from the starting configuration.
pub fn part1(instrs: &Vec<i128>) -> (r: Result<usize, RobotError>)
    requires
        instrs@.len() <= MEM_SIZE,
    ensures
        r matches Ok(cnt) ==> exists|c2: RobotState, k: nat, panels: Map<(int, int), i128>|
            #![trigger robot_runs(robot_init(instrs@), c2, k), robot_halts(c2, panels)]
            robot_runs(robot_init(instrs@), c2, k) && robot_halts(c2, panels)
                && panels.dom().finite() && cnt == panels.dom().len(),
        (r matches Err(e) && e != RobotError::Vm(VmError::StepLimitReached)) ==> forall|
            c2: RobotState,
            k: nat,
            panels: Map<(int, int), i128>,
        |
            #![trigger robot_runs(robot_init(instrs@), c2, k), robot_halts(c2, panels)]
            !(robot_runs(robot_init(instrs@), c2, k) && robot_halts(c2, panels)),
        r == Err::<usize, RobotError>(RobotError::Vm(VmError::StepLimitReached))
            ==> robot_budget_stuck(robot_init(instrs@)),
{
    proof {
        assert(grid_inv(Seq::<(Location, i128)>::empty(), robot_init(instrs@).panels));
    }
    match walk(instrs, Vec::new(), Ghost(robot_init(instrs@))) {
        Ok(g) => {
            proof {
                let (c2, k, panels) = choose|c2: RobotState, k: nat, panels: Map<(int, int), i128>|
                    #![trigger robot_runs(robot_init(instrs@), c2, k), robot_halts(c2, panels)]
                    robot_runs(robot_init(instrs@), c2, k) && robot_halts(c2, panels)
                        && panels.dom().finite() && grid_inv(g@, panels);
                assert(g@.len() == panels.dom().len());
            }
            Ok(g.len())
        },
        Err(e) => Err(e),
    }
}

/// The starting configuration of a walk whose first panel is already
/// painted `color`: the registration run starts on a white panel.
pub open spec fn robot_init_painted(prog: Seq<i128>, color: i128) -> RobotState {
    RobotState {
        panels: Map::<(int, int), i128>::empty().insert((0, 0), color),
        ..robot_init(prog)
    }
}

/// Drive the robot from an origin panel already painted `start_color`
/// until its machine halts, and hand back every visited panel with its
/// final colour — sound, complete and duplicate-free for the walk's
/// panel record (see [`grid_inv`]).
pub fn run_painter(instrs: &Vec<i128>, start_color: i128) -> (r: Result<
    Vec<(Location, i128)>,
    RobotError,
>)
    requires
        instrs@.len() <= MEM_SIZE,
    ensures
        r matches Ok(g) ==> exists|c2: RobotState, k: nat, panels: Map<(int, int), i128>|
            #![trigger robot_runs(robot_init_painted(instrs@, start_color), c2, k), robot_halts(c2, panels)]
            robot_runs(robot_init_painted(instrs@, start_color), c2, k) && robot_halts(c2, panels)
                && panels.dom().finite() && grid_inv(g@, panels),
        (r matches Err(e) && e != RobotError::Vm(VmError::StepLimitReached)) ==> forall|
            c2: RobotState,
            k: nat,
            panels: Map<(int, int), i128>,
        |
            #![trigger robot_runs(robot_init_painted(instrs@, start_color), c2, k), robot_halts(c2, panels)]
            !(robot_runs(robot_init_painted(instrs@, start_color), c2, k) && robot_halts(
                c2,
                panels,
            )),
        r == Err::<Vec<(Location, i128)>, RobotError>(RobotError::Vm(VmError::StepLimitReached))
            ==> robot_budget_stuck(robot_init_painted(instrs@, start_color)),
{
    let mut grid0: Vec<(Location, i128)> = Vec::new();
    grid0.push(((0, 0), start_color));
    proof {
        let panels0 = robot_init_painted(instrs@, start_color).panels;
        assert(panels0.dom() =~= Set::<(int, int)>::empty().insert((0int, 0int)));
        assert(panels0.dom().len() == 1);
        assert(key_int(grid0@[0].0) == (0int, 0int));
        assert forall|p: (int, int)| #[trigger]
            panels0.dom().contains(p) implies exists|i: int|
            0 <= i < grid0@.len() && key_int(#[trigger] grid0@[i].0) == p by {
            assert(key_int(grid0@[0].0) == p);
        }
        assert(grid_inv(grid0@, panels0));
    }
    walk(instrs, grid0, Ghost(robot_init_painted(instrs@, start_color)))
}

} // verus!
