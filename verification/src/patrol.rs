//! Grid patrol simulation with loop detection.
//!
//! A guard walks over a rectangular grid of cells, moving straight ahead
//! and turning clockwise whenever an obstruction blocks the way.  The
//! module answers two questions: how many distinct cells the guard visits
//! before leaving the grid, and how many single-obstruction placements
//! trap the guard in a loop.

use vstd::prelude::*;

verus! {

/// Heading of the guard: four cardinal directions, ordered clockwise for
/// turning (up, right, down, left, and back to up).
#[derive(Clone, Copy, PartialEq, Eq, Structural, Debug)]
pub enum Direction {
    Up,
    Right,
    Down,
    Left,
}

/// One cell of the grid.  A visited cell remembers the heading the guard
/// had when it first entered; later visits never overwrite it.
#[derive(Clone, Copy, PartialEq, Eq, Structural, Debug)]
pub enum Position {
    Empty,
    Visited(Direction),
    Obstructed,
}

/// Outcome of a single `advance` call.
#[derive(Clone, Copy, PartialEq, Eq, Structural, Debug)]
pub enum AdvanceResult {
    NewPosition,
    AlreadyVisited,
    Stuck,
    OutOfBounds,
}

impl Direction {
    /// The heading after one clockwise turn.
    pub open spec fn turned(self) -> Direction {
        match self {
            Direction::Up => Direction::Right,
            Direction::Right => Direction::Down,
            Direction::Down => Direction::Left,
            Direction::Left => Direction::Up,
        }
    }

    /// Turn the heading one step clockwise in place.
    pub fn turn(&mut self)
        ensures
            *final(self) == old(self).turned(),
    {
        *self = match *self {
            Direction::Up => Direction::Right,
            Direction::Right => Direction::Down,
            Direction::Down => Direction::Left,
            Direction::Left => Direction::Up,
        };
    }
}

/// The heading reached from `d` after `n` clockwise turns.
pub open spec fn turned_n(d: Direction, n: nat) -> Direction
    decreases n,
{
    if n == 0 {
        d
    } else {
        turned_n(d, (n - 1) as nat).turned()
    }
}

/// Mathematical model of a patrol state: the guard's position and
/// heading, and the grid cells in row-major order.
pub ghost struct LabModel {
    pub x: int,
    pub y: int,
    pub dir: Direction,
    pub width: int,
    pub cells: Seq<Position>,
}

impl LabModel {
    /// Number of rows of the grid.
    pub open spec fn height(self) -> int {
        self.cells.len() as int / self.width
    }

    /// Row-major index of the cell at column `x`, row `y`.
    pub open spec fn idx(self, x: int, y: int) -> int {
        y * self.width + x
    }

    /// The cell at column `x`, row `y`.
    pub open spec fn cell_at(self, x: int, y: int) -> Position {
        self.cells[self.idx(x, y)]
    }

    /// Whether `(x, y)` lies on the grid.
    pub open spec fn in_bounds(self, x: int, y: int) -> bool {
        0 <= x < self.width && 0 <= y < self.height()
    }

    /// Well-formedness: a non-empty rectangular grid whose cell count is a
    /// whole number of rows, with the guard on the grid and standing on a
    /// visited cell.
    pub open spec fn wf(self) -> bool {
        &&& self.width > 0
        &&& self.cells.len() as int % self.width == 0
        &&& self.in_bounds(self.x, self.y)
        &&& self.cell_at(self.x, self.y) is Visited
    }

    /// The same state with the heading replaced.
    pub open spec fn with_dir(self, d: Direction) -> LabModel {
        LabModel { x: self.x, y: self.y, dir: d, width: self.width, cells: self.cells }
    }

    /// The coordinates one step from the guard in direction `d`, or `None`
    /// if that step leaves the grid.
    pub open spec fn next_pos_from(self, d: Direction) -> Option<(int, int)> {
        match d {
            Direction::Up => if self.y >= 1 {
                Some((self.x, self.y - 1))
            } else {
                None
            },
            Direction::Right => if self.x + 1 < self.width {
                Some((self.x + 1, self.y))
            } else {
                None
            },
            Direction::Down => if self.y + 1 < self.height() {
                Some((self.x, self.y + 1))
            } else {
                None
            },
            Direction::Left => if self.x >= 1 {
                Some((self.x - 1, self.y))
            } else {
                None
            },
        }
    }

    /// The coordinates one step ahead in the current heading.
    pub open spec fn next_pos(self) -> Option<(int, int)> {
        self.next_pos_from(self.dir)
    }

    /// Whether the step in direction `d` stays on the grid and hits an
    /// obstruction.
    pub open spec fn blocked_toward(self, d: Direction) -> bool {
        match self.next_pos_from(d) {
            Some(p) => self.cell_at(p.0, p.1) is Obstructed,
            None => false,
        }
    }

    /// Whether the cell straight ahead is an on-grid obstruction.
    pub open spec fn blocked_ahead(self) -> bool {
        self.blocked_toward(self.dir)
    }

    /// Whether the guard is walled in: every neighbouring cell exists and
    /// is obstructed, so no advance can ever move or leave the grid.
    pub open spec fn enclosed(self) -> bool {
        &&& self.blocked_toward(Direction::Up)
        &&& self.blocked_toward(Direction::Right)
        &&& self.blocked_toward(Direction::Down)
        &&& self.blocked_toward(Direction::Left)
    }
}

/// One atomic transition of the patrol state machine: turn clockwise past
/// obstructions (consuming `fuel`, which bounds the in-place turns), then
/// either leave the grid, move onto a fresh cell and mark it, or move onto
/// an already visited cell, reporting `Stuck` when the guard re-enters a
/// cell on its recorded heading with an obstruction straight ahead.
/// `None` means the turn budget ran out (the guard is walled in).
pub open spec fn advance_spec(m: LabModel, fuel: nat) -> Option<(LabModel, AdvanceResult)>
    decreases fuel,
{
    if fuel == 0 {
        None
    } else {
        match m.next_pos() {
            None => Some((m, AdvanceResult::OutOfBounds)),
            Some(p) => match m.cell_at(p.0, p.1) {
                Position::Obstructed => advance_spec(m.with_dir(m.dir.turned()), (fuel - 1) as nat),
                Position::Empty => {
                    let marked = LabModel {
                        x: p.0,
                        y: p.1,
                        dir: m.dir,
                        width: m.width,
                        cells: m.cells.update(m.idx(p.0, p.1), Position::Visited(m.dir)),
                    };
                    Some((marked, AdvanceResult::NewPosition))
                },
                Position::Visited(prev) => {
                    let moved = LabModel {
                        x: p.0,
                        y: p.1,
                        dir: m.dir,
                        width: m.width,
                        cells: m.cells,
                    };
                    if prev == m.dir && moved.blocked_ahead() {
                        Some((moved, AdvanceResult::Stuck))
                    } else {
                        Some((moved, AdvanceResult::AlreadyVisited))
                    }
                },
            },
        }
    }
}

/// Errors surfaced by the two patrol algorithms.
#[derive(Clone, Copy, PartialEq, Eq, Structural, Debug)]
pub enum EngineError {
    /// The guard is surrounded by four obstructions and can never move.
    GuardEnclosed,
    /// The traversal of the unmodified grid reported `Stuck`, which the
    /// engine treats as an invariant violation.
    StuckOnTemplate,
    /// A traversal ran past its step budget without terminating.
    StepLimitExceeded,
}

/// A patrol state: the grid cells in row-major order together with the
/// guard's position `(column, row)` and heading.
pub struct Lab {
    pub position: (usize, usize),
    pub direction: Direction,
    pub width: usize,
    pub data: Vec<Position>,
}

impl View for Lab {
    type V = LabModel;

    open spec fn view(&self) -> LabModel {
        LabModel {
            x: self.position.0 as int,
            y: self.position.1 as int,
            dir: self.direction,
            width: self.width as int,
            cells: self.data@,
        }
    }
}

/// The grid of a well-formed state has exactly `width * height` cells.
pub proof fn lemma_grid_size(m: LabModel)
    requires
        m.wf(),
    ensures
        m.cells.len() == m.width * m.height(),
{
    vstd::arithmetic::div_mod::lemma_fundamental_div_mod(m.cells.len() as int, m.width);
}

/// A row-major index computed from in-bounds coordinates is itself in
/// bounds.
proof fn lemma_idx_in_bounds(w: int, h: int, x: int, y: int)
    by (nonlinear_arith)
    requires
        0 <= x < w,
        0 <= y < h,
    ensures
        0 <= y * w + x < w * h,
{
}

/// Distinct in-bounds coordinates have distinct row-major indices.
proof fn lemma_idx_injective(w: int, x1: int, y1: int, x2: int, y2: int)
    by (nonlinear_arith)
    requires
        0 <= x1 < w,
        0 <= x2 < w,
        0 <= y1,
        0 <= y2,
        y1 * w + x1 == y2 * w + x2,
    ensures
        x1 == x2 && y1 == y2,
{
}

impl Lab {
    /// The coordinates of the cell one step ahead of the guard, or `None`
    /// when that cell lies outside the grid.
    pub fn next_position(&self) -> (r: Option<(usize, usize)>)
        requires
            self@.wf(),
        ensures
            match r {
                Some(p) => self@.next_pos() == Some((p.0 as int, p.1 as int)),
                None => self@.next_pos() is None,
            },
    {
        self.target_from(self.direction)
    }

    /// The coordinates one step from the guard in direction `d`, or `None`
    /// when that step leaves the grid.
    pub fn target_from(&self, d: Direction) -> (r: Option<(usize, usize)>)
        requires
            self@.wf(),
        ensures
            match r {
                Some(p) => self@.next_pos_from(d) == Some((p.0 as int, p.1 as int)),
                None => self@.next_pos_from(d) is None,
            },
    {
        let (x, y) = self.position;
        let height = self.data.len() / self.width;
        match d {
            Direction::Up => if y >= 1 {
                Some((x, y - 1))
            } else {
                None
            },
            Direction::Right => if x + 1 < self.width {
                Some((x + 1, y))
            } else {
                None
            },
            Direction::Down => if y + 1 < height {
                Some((x, y + 1))
            } else {
                None
            },
            Direction::Left => if x >= 1 {
                Some((x - 1, y))
            } else {
                None
            },
        }
    }

    /// Read the cell at column `x`, row `y`.
    pub fn cell(&self, x: usize, y: usize) -> (r: Position)
        requires
            self@.wf(),
            self@.in_bounds(x as int, y as int),
        ensures
            r == self@.cell_at(x as int, y as int),
    {
        proof {
            lemma_grid_size(self@);
            lemma_idx_in_bounds(self@.width, self@.height(), x as int, y as int);
            assert(y * self.width + x < self.data@.len());
        }
        let n = self.data.len();
        assert(y * self.width + x < n);
        self.data[y * self.width + x]
    }

    /// Borrow the cell at column `x`, row `y` mutably; only that cell of
    /// the grid changes, and only to whatever the caller writes through
    /// the returned reference.
    pub fn cell_mut(&mut self, x: usize, y: usize) -> (r: &mut Position)
        requires
            old(self)@.wf(),
            old(self)@.in_bounds(x as int, y as int),
        ensures
            *r == old(self)@.cell_at(x as int, y as int),
            final(self)@.cells == old(self)@.cells.update(old(self)@.idx(x as int, y as int), *final(r)),
            final(self).position == old(self).position,
            final(self).direction == old(self).direction,
            final(self).width == old(self).width,
    {
        proof {
            lemma_grid_size(self@);
            lemma_idx_in_bounds(self@.width, self@.height(), x as int, y as int);
            assert(y * self.width + x < self.data@.len());
        }
        let n = self.data.len();
        assert(y * self.width + x < n);
        &mut self.data[y * self.width + x]
    }

    /// One atomic state transition: turn clockwise while obstructed, then
    /// leave the grid, move onto a fresh cell, or move onto a visited one,
    /// reporting `Stuck` when the loop-detection heuristic fires.
    pub fn advance(&mut self) -> (r: AdvanceResult)
        requires
            old(self)@.wf(),
            !old(self)@.enclosed(),
        ensures
            advance_spec(old(self)@, 4) == Some((final(self)@, r)),
            final(self)@.wf(),
            final(self)@.width == old(self)@.width,
            final(self)@.cells.len() == old(self)@.cells.len(),
            (r is NewPosition || r is AlreadyVisited) ==> !final(self)@.enclosed(),
    {
        let ghost orig: LabModel = self@;
        let mut turns: u64 = 0;
        loop
            invariant
                orig == old(self)@,
                self@.wf(),
                !orig.enclosed(),
                orig.wf(),
                self@.x == orig.x,
                self@.y == orig.y,
                self@.width == orig.width,
                self@.cells == orig.cells,
                turns <= 3,
                self@.dir == turned_n(orig.dir, turns as nat),
                forall|j: nat| j < turns ==> orig.blocked_toward(#[trigger] turned_n(orig.dir, j)),
                advance_spec(orig, 4) == advance_spec(self@, (4 - turns) as nat),
            decreases 4 - turns,
        {
            match self.next_position() {
                None => {
                    proof {
                        assert(advance_spec(self@, (4 - turns) as nat)
                            == Some((self@, AdvanceResult::OutOfBounds)));
                    }
                    return AdvanceResult::OutOfBounds;
                },
                Some((x, y)) => {
                    proof {
                        lemma_next_pos_in_bounds(self@, self@.dir);
                    }
                    match self.cell(x, y) {
                        Position::Empty => {
                            let ghost pre: LabModel = self@;
                            let d = self.direction;
                            *self.cell_mut(x, y) = Position::Visited(d);
                            self.position = (x, y);
                            proof {
                                lemma_grid_size(pre);
                                lemma_next_pos_in_bounds(pre, pre.dir);
                                lemma_idx_in_bounds(pre.width, pre.height(), x as int, y as int);
                                lemma_move_keeps_open(pre, orig, self@, x as int, y as int);
                                assert(self@.cells.len() == orig.cells.len());
                            }
                            return AdvanceResult::NewPosition;
                        },
                        Position::Visited(prev) => {
                            let ghost pre: LabModel = self@;
                            self.position = (x, y);
                            proof {
                                lemma_move_keeps_open(pre, orig, self@, x as int, y as int);
                            }
                            let stuck = if prev == self.direction {
                                match self.next_position() {
                                    Some((x2, y2)) => {
                                        proof {
                                            lemma_next_pos_in_bounds(self@, self@.dir);
                                        }
                                        matches!(self.cell(x2, y2), Position::Obstructed)
                                    },
                                    None => false,
                                }
                            } else {
                                false
                            };
                            if stuck {
                                return AdvanceResult::Stuck;
                            } else {
                                return AdvanceResult::AlreadyVisited;
                            }
                        },
                        Position::Obstructed => {
                            proof {
                                if turns == 3 {
                                    lemma_all_dirs_blocked(orig);
                                    assert(false);
                                }
                            }
                            self.direction.turn();
                            turns = turns + 1;
                        },
                    }
                },
            }
        }
    }
}

/// A traversal run from state `m` with at most `fuel` calls of the step
/// machine: the final state, the number of `NewPosition` results, and the
/// terminal result (`OutOfBounds` or `Stuck`).  `None` means the budget
/// ran out, or the guard was walled in, before a terminal result.
pub open spec fn run_spec(m: LabModel, fuel: nat) -> Option<(LabModel, nat, AdvanceResult)>
    decreases fuel,
{
    if fuel == 0 {
        None
    } else {
        match advance_spec(m, 4) {
            None => None,
            Some((m2, r)) => match r {
                AdvanceResult::OutOfBounds => Some((m2, 0, r)),
                AdvanceResult::Stuck => Some((m2, 0, r)),
                AdvanceResult::NewPosition => match run_spec(m2, (fuel - 1) as nat) {
                    None => None,
                    Some((mf, c, t)) => Some((mf, c + 1, t)),
                },
                AdvanceResult::AlreadyVisited => run_spec(m2, (fuel - 1) as nat),
            },
        }
    }
}

/// The step budget granted to a traversal: four advance calls per grid
/// cell, with a little slack.  A traversal that is still running after
/// this many steps is treated as an invariant violation.
pub open spec fn step_budget(m: LabModel) -> nat {
    (4 * m.cells.len() + 4) as nat
}

/// The same traversal result with `k` added to the visit count.
pub open spec fn shift_count(o: Option<(LabModel, nat, AdvanceResult)>, k: nat) -> Option<
    (LabModel, nat, AdvanceResult),
> {
    match o {
        None => None,
        Some((m, c, t)) => Some((m, (c + k) as nat, t)),
    }
}

/// Terminal result of the budgeted traversal from `m`, if it settles.
pub open spec fn patrol_outcome(m: LabModel) -> Option<AdvanceResult> {
    match run_spec(m, step_budget(m)) {
        None => None,
        Some((mf, c, t)) => Some(t),
    }
}

/// Number of distinct cells visited by the budgeted traversal from `m`:
/// the starting cell plus one per `NewPosition` result.
pub open spec fn patrol_visits(m: LabModel) -> nat {
    match run_spec(m, step_budget(m)) {
        None => 0,
        Some((mf, c, t)) => c + 1,
    }
}

/// The state `m` with one obstruction added at flat cell index `i`.
pub open spec fn candidate_model(m: LabModel, i: int) -> LabModel {
    LabModel {
        x: m.x,
        y: m.y,
        dir: m.dir,
        width: m.width,
        cells: m.cells.update(i, Position::Obstructed),
    }
}

/// Whether obstructing the empty cell `i` makes the budgeted traversal
/// report `Stuck` instead of leaving the grid.
pub open spec fn is_loop_candidate(m: LabModel, i: int) -> bool {
    m.cells[i] is Empty && patrol_outcome(candidate_model(m, i)) == Some(AdvanceResult::Stuck)
}

/// Whether the candidate simulation at cell `i` fails to settle within
/// the budget (including the case of a walled-in guard).
pub open spec fn candidate_bad(m: LabModel, i: int) -> bool {
    m.cells[i] is Empty && patrol_outcome(candidate_model(m, i)) is None
}

/// Number of loop-causing obstruction candidates among the flat cell
/// indices below `n`.
pub open spec fn loop_count(m: LabModel, n: int) -> int
    decreases n,
{
    if n <= 0 {
        0
    } else {
        loop_count(m, n - 1) + if is_loop_candidate(m, n - 1) {
            1 as int
        } else {
            0
        }
    }
}

/// Number of loop-causing candidates among the indices from `n` up to the
/// end of the grid, evaluated from the high end downwards.
pub open spec fn loop_count_rev(m: LabModel, n: int) -> int
    decreases m.cells.len() - n,
{
    if n < 0 || n >= m.cells.len() {
        0
    } else {
        loop_count_rev(m, n + 1) + if is_loop_candidate(m, n) {
            1 as int
        } else {
            0
        }
    }
}

/// The first candidate index whose simulation fails to settle, among the
/// indices below `n`.
pub open spec fn first_bad(m: LabModel, n: int) -> Option<int>
    decreases n,
{
    if n <= 0 {
        None
    } else {
        match first_bad(m, n - 1) {
            Some(j) => Some(j),
            None => if candidate_bad(m, n - 1) {
                Some(n - 1)
            } else {
                None
            },
        }
    }
}

/// Result of running one simulation to its terminal result: the guard
/// left the grid, the loop heuristic fired, or the step budget ran out.
/// The payload is the distinct-visited-cell count so far.
#[derive(Clone, Copy, PartialEq, Eq, Structural, Debug)]
enum SimOutcome {
    Exited(usize),
    Looped(usize),
    OutOfBudget,
}

/// An element-wise copy of a cell buffer.
fn clone_cells(v: &Vec<Position>) -> (r: Vec<Position>)
    ensures
        r@ == v@,
{
    let mut r: Vec<Position> = Vec::new();
    let mut i: usize = 0;
    while i < v.len()
        invariant
            i <= v@.len(),
            r@.len() == i,
            forall|j: int| 0 <= j < i ==> r@[j] == v@[j],
        decreases v@.len() - i,
    {
        r.push(v[i]);
        i = i + 1;
    }
    proof {
        assert(r@ =~= v@);
    }
    r
}

impl Lab {
    /// Whether the step in direction `d` stays on the grid and hits an
    /// obstruction.
    fn dir_blocked(&self, d: Direction) -> (r: bool)
        requires
            self@.wf(),
        ensures
            r == self@.blocked_toward(d),
    {
        match self.target_from(d) {
            Some((x, y)) => {
                proof {
                    lemma_next_pos_in_bounds(self@, d);
                }
                matches!(self.cell(x, y), Position::Obstructed)
            },
            None => false,
        }
    }

    /// Whether the guard is surrounded by four on-grid obstructions.
    pub fn is_enclosed(&self) -> (r: bool)
        requires
            self@.wf(),
        ensures
            r == self@.enclosed(),
    {
        self.dir_blocked(Direction::Up) && self.dir_blocked(Direction::Right) && self.dir_blocked(
            Direction::Down,
        ) && self.dir_blocked(Direction::Left)
    }

    /// An independent copy of this state.
    fn duplicate(&self) -> (r: Lab)
        ensures
            r@ == self@,
    {
        Lab {
            position: self.position,
            direction: self.direction,
            width: self.width,
            data: clone_cells(&self.data),
        }
    }
}

impl Lab {
    /// Algorithm A: the patrol length.  Runs the traversal on a private
    /// copy of this state and reports the number of distinct cells the
    /// guard visits before leaving the grid (the starting cell counts).
    /// A walled-in guard, a `Stuck` result on the unmodified grid, and a
    /// traversal that outlives its step budget are reported as errors.
    pub fn patrol_length(&self) -> (r: Result<usize, EngineError>)
        requires
            self@.wf(),
            self@.cells.len() <= usize::MAX / 8,
        ensures
            r == Err::<usize, EngineError>(EngineError::GuardEnclosed) <==> self@.enclosed(),
            !self@.enclosed() ==> match r {
                Ok(n) => patrol_outcome(self@) == Some(AdvanceResult::OutOfBounds) && n
                    == patrol_visits(self@),
                Err(e) => (e == EngineError::StuckOnTemplate <==> patrol_outcome(self@) == Some(
                    AdvanceResult::Stuck,
                )) && (e == EngineError::StepLimitExceeded <==> patrol_outcome(self@) is None),
            },
    {
        if self.is_enclosed() {
            return Err(EngineError::GuardEnclosed);
        }
        match run_to_end(self.duplicate()) {
            SimOutcome::Exited(n) => Ok(n),
            SimOutcome::Looped(_) => Err(EngineError::StuckOnTemplate),
            SimOutcome::OutOfBudget => Err(EngineError::StepLimitExceeded),
        }
    }

    /// Algorithm B: the obstruction loop search.  For every empty cell of
    /// this template grid, clones the template, obstructs that one cell,
    /// and re-runs the traversal; returns how many placements make the
    /// loop-detection heuristic fire.  The first candidate simulation that
    /// fails to settle (walled-in guard, or step budget exhausted) aborts
    /// the search with the matching error.
    pub fn count_loop_obstructions(&self) -> (r: Result<usize, EngineError>)
        requires
            self@.wf(),
            self@.cells.len() <= usize::MAX / 8,
        ensures
            match r {
                Ok(n) => first_bad(self@, self@.cells.len() as int) is None && n == loop_count(
                    self@,
                    self@.cells.len() as int,
                ),
                Err(e) => match first_bad(self@, self@.cells.len() as int) {
                    Some(j) => (e == EngineError::GuardEnclosed <==> candidate_model(
                        self@,
                        j,
                    ).enclosed()) && (e == EngineError::StepLimitExceeded <==> !candidate_model(
                        self@,
                        j,
                    ).enclosed()),
                    None => false,
                },
            },
    {
        let ghost m: LabModel = self@;
        let n = self.data.len();
        let mut count: usize = 0;
        let mut i: usize = 0;
        while i < n
            invariant
                m == self@,
                self@.wf(),
                n == self@.cells.len(),
                self@.cells.len() <= usize::MAX / 8,
                i <= n,
                count <= i,
                count == loop_count(m, i as int),
                first_bad(m, i as int) is None,
            decreases n - i,
        {
            if matches!(self.data[i], Position::Empty) {
                let mut cand = self.duplicate();
                cand.data[i] = Position::Obstructed;
                proof {
                    assert(cand@ =~= candidate_model(m, i as int));
                    lemma_candidate_wf(m, i as int);
                }
                if cand.is_enclosed() {
                    proof {
                        lemma_enclosed_stalls(cand@);
                        lemma_first_bad_found(m, i as int, n as int);
                    }
                    return Err(EngineError::GuardEnclosed);
                }
                match run_to_end(cand) {
                    SimOutcome::Exited(_) => {},
                    SimOutcome::Looped(_) => {
                        count = count + 1;
                    },
                    SimOutcome::OutOfBudget => {
                        proof {
                            lemma_first_bad_found(m, i as int, n as int);
                        }
                        return Err(EngineError::StepLimitExceeded);
                    },
                }
            }
            i = i + 1;
        }
        Ok(count)
    }

    /// The obstruction loop search with the candidates evaluated in
    /// reverse order.  When every candidate simulation settles it returns
    /// the same total as `count_loop_obstructions`: the outcome of one
    /// placement does not depend on the order in which the candidates are
    /// tried.
    pub fn count_loop_obstructions_reversed(&self) -> (r: Result<usize, EngineError>)
        requires
            self@.wf(),
            self@.cells.len() <= usize::MAX / 8,
        ensures
            match r {
                Ok(n) => n == loop_count(self@, self@.cells.len() as int),
                Err(e) => first_bad(self@, self@.cells.len() as int) is Some && (e
                    == EngineError::GuardEnclosed || e == EngineError::StepLimitExceeded),
            },
    {
        let ghost m: LabModel = self@;
        let n = self.data.len();
        let mut count: usize = 0;
        let mut i: usize = n;
        while i > 0
            invariant
                m == self@,
                self@.wf(),
                n == self@.cells.len(),
                self@.cells.len() <= usize::MAX / 8,
                i <= n,
                count <= n - i,
                count == loop_count_rev(m, i as int),
            decreases i,
        {
            i = i - 1;
            if matches!(self.data[i], Position::Empty) {
                let mut cand = self.duplicate();
                cand.data[i] = Position::Obstructed;
                proof {
                    assert(cand@ =~= candidate_model(m, i as int));
                    lemma_candidate_wf(m, i as int);
                }
                if cand.is_enclosed() {
                    proof {
                        lemma_enclosed_stalls(cand@);
                        lemma_bad_implies_first_bad(m, i as int, n as int);
                    }
                    return Err(EngineError::GuardEnclosed);
                }
                match run_to_end(cand) {
                    SimOutcome::Exited(_) => {},
                    SimOutcome::Looped(_) => {
                        count = count + 1;
                    },
                    SimOutcome::OutOfBudget => {
                        proof {
                            lemma_bad_implies_first_bad(m, i as int, n as int);
                        }
                        return Err(EngineError::StepLimitExceeded);
                    },
                }
            }
        }
        proof {
            lemma_loop_count_split(m, 0);
        }
        Ok(count)
    }
}

/// Number of visited cells among the first `n` cells of a buffer.
pub open spec fn visited_cells(cells: Seq<Position>, n: int) -> int
    decreases n,
{
    if n <= 0 {
        0
    } else {
        visited_cells(cells, n - 1) + if cells[n - 1] is Visited {
            1 as int
        } else {
            0
        }
    }
}

/// A prefix of `n` cells holds between zero and `n` visited cells.
pub proof fn lemma_visited_cells_bounds(cells: Seq<Position>, n: int)
    ensures
        0 <= visited_cells(cells, n),
        visited_cells(cells, n) <= n || n < 0,
    decreases n,
{
    if n > 0 {
        lemma_visited_cells_bounds(cells, n - 1);
    }
}

/// Marking one unvisited cell raises the visited count of a prefix by
/// one exactly when the cell lies in that prefix.
proof fn lemma_visited_mark(cells: Seq<Position>, i: int, d: Direction, n: int)
    requires
        0 <= i < cells.len(),
        !(cells[i] is Visited),
        n <= cells.len(),
    ensures
        visited_cells(cells.update(i, Position::Visited(d)), n) == visited_cells(cells, n) + if i
            < n {
            1 as int
        } else {
            0
        },
    decreases n,
{
    if n > 0 {
        lemma_visited_mark(cells, i, d, n - 1);
    }
}

/// Monotonicity of the distinct-visited-cell count over one transition:
/// a single step of the machine preserves well-formedness and raises the
/// number of visited cells by exactly one on a `NewPosition` result and
/// by nothing otherwise — the count never decreases as the traversal
/// proceeds.
pub proof fn lemma_advance_visits(m: LabModel, fuel: nat)
    requires
        m.wf(),
    ensures
        match advance_spec(m, fuel) {
            Some((m2, r)) => m2.wf() && m2.width == m.width && m2.cells.len() == m.cells.len()
                && visited_cells(m2.cells, m2.cells.len() as int) == visited_cells(
                m.cells,
                m.cells.len() as int,
            ) + if r is NewPosition {
                1 as int
            } else {
                0
            },
            None => true,
        },
    decreases fuel,
{
    if fuel > 0 {
        match m.next_pos() {
            None => {},
            Some(p) => {
                lemma_grid_size(m);
                lemma_next_pos_in_bounds(m, m.dir);
                lemma_idx_in_bounds(m.width, m.height(), p.0, p.1);
                match m.cell_at(p.0, p.1) {
                    Position::Obstructed => {
                        lemma_advance_visits(m.with_dir(m.dir.turned()), (fuel - 1) as nat);
                    },
                    Position::Empty => {
                        lemma_visited_mark(m.cells, m.idx(p.0, p.1), m.dir, m.cells.len() as int);
                    },
                    Position::Visited(prev) => {},
                }
            },
        }
    }
}

/// Over a whole traversal the visited count stabilizes at the starting
/// count plus the number of `NewPosition` results, and that sum never
/// exceeds the number of grid cells: a traversal can mark each cell as
/// newly visited at most once.
pub proof fn lemma_run_visits(m: LabModel, fuel: nat)
    requires
        m.wf(),
    ensures
        match run_spec(m, fuel) {
            Some((mf, c, t)) => visited_cells(mf.cells, mf.cells.len() as int) == visited_cells(
                m.cells,
                m.cells.len() as int,
            ) + c && visited_cells(m.cells, m.cells.len() as int) + c <= m.cells.len(),
            None => true,
        },
    decreases fuel,
{
    lemma_visited_cells_bounds(m.cells, m.cells.len() as int);
    if fuel > 0 {
        lemma_advance_visits(m, 4);
        match advance_spec(m, 4) {
            None => {},
            Some((m2, r)) => {
                lemma_run_visits(m2, (fuel - 1) as nat);
                match run_spec(m2, (fuel - 1) as nat) {
                    None => {},
                    Some((mf, c, t)) => {
                        lemma_visited_cells_bounds(mf.cells, mf.cells.len() as int);
                    },
                }
            },
        }
    }
}

/// Determinism: the patrol answers are functions of the loaded state
/// alone, so equal states give equal patrol lengths and equal
/// obstruction counts on every run.
pub proof fn lemma_answers_deterministic(a: LabModel, b: LabModel)
    requires
        a == b,
    ensures
        patrol_outcome(a) == patrol_outcome(b),
        patrol_visits(a) == patrol_visits(b),
        loop_count(a, a.cells.len() as int) == loop_count(b, b.cells.len() as int),
{
}

/// Non-self-obstruction: the guard's own starting cell is marked
/// visited, never empty, so the obstruction search never tries it as a
/// candidate.
pub proof fn lemma_start_never_candidate(m: LabModel)
    requires
        m.wf(),
    ensures
        !(m.cells[m.idx(m.x, m.y)] is Empty),
        !is_loop_candidate(m, m.idx(m.x, m.y)),
{
}

/// Errors raised while building a patrol state from text lines.
#[derive(Clone, Copy, PartialEq, Eq, Structural, Debug)]
pub enum LoadError {
    /// No `'^'` marker anywhere in the input.
    NoGuard,
    /// More than one `'^'` marker.
    MultipleGuards,
    /// Two rows of different lengths.
    RaggedRows,
}

/// The character rows as mathematical sequences.
pub open spec fn lines_model(lines: Seq<Vec<char>>) -> Seq<Seq<char>> {
    Seq::new(lines.len(), |i: int| lines[i]@)
}

/// Whether every row has the length of the first row.
pub open spec fn rows_uniform(ls: Seq<Seq<char>>) -> bool {
    forall|i: int| 0 <= i < ls.len() ==> (#[trigger] ls[i]).len() == ls[0].len()
}

/// Number of guard markers among the first `n` characters of a row.
pub open spec fn guards_in_row(row: Seq<char>, n: int) -> int
    decreases n,
{
    if n <= 0 {
        0
    } else {
        guards_in_row(row, n - 1) + if row[n - 1] == '^' {
            1 as int
        } else {
            0
        }
    }
}

/// Number of guard markers in the first `n` rows.
pub open spec fn guards_total(ls: Seq<Seq<char>>, n: int) -> int
    decreases n,
{
    if n <= 0 {
        0
    } else {
        guards_total(ls, n - 1) + guards_in_row(ls[n - 1], ls[n - 1].len() as int)
    }
}

/// The cell loaded for one input character: `'#'` an obstruction, `'^'`
/// the guard's starting cell (pre-marked visited, heading up), anything
/// else empty.
pub open spec fn loaded_cell(c: char) -> Position {
    if c == '^' {
        Position::Visited(Direction::Up)
    } else if c == '#' {
        Position::Obstructed
    } else {
        Position::Empty
    }
}

/// Guard-marker counts grow with the scanned prefix of a row.
proof fn lemma_guards_in_row_monotone(row: Seq<char>, k: int, n: int)
    requires
        k <= n,
    ensures
        guards_in_row(row, k) <= guards_in_row(row, n),
    decreases n,
{
    if n > k && n > 0 {
        lemma_guards_in_row_monotone(row, k, n - 1);
    }
}

/// Guard-marker counts grow with the scanned prefix of the grid, and a
/// partially scanned row contributes at least its own prefix count.
proof fn lemma_guards_total_monotone(ls: Seq<Seq<char>>, k: int, c: int, n: int)
    requires
        0 <= k < n,
        0 <= c <= ls[k].len(),
    ensures
        guards_total(ls, k) + guards_in_row(ls[k], c) <= guards_total(ls, n),
        guards_total(ls, k) >= 0,
    decreases n,
{
    lemma_guards_nonneg(ls, k);
    if n == k + 1 {
        lemma_guards_in_row_monotone(ls[k], c, ls[k].len() as int);
    } else {
        lemma_guards_total_monotone(ls, k, c, n - 1);
        lemma_row_nonneg(ls[n - 1], ls[n - 1].len() as int);
    }
}

/// A row's guard count is never negative.
proof fn lemma_row_nonneg(row: Seq<char>, n: int)
    ensures
        guards_in_row(row, n) >= 0,
    decreases n,
{
    if n > 0 {
        lemma_row_nonneg(row, n - 1);
    }
}

/// A grid's guard count is never negative.
proof fn lemma_guards_nonneg(ls: Seq<Seq<char>>, n: int)
    ensures
        guards_total(ls, n) >= 0,
    decreases n,
{
    if n > 0 {
        lemma_guards_nonneg(ls, n - 1);
        lemma_row_nonneg(ls[n - 1], ls[n - 1].len() as int);
    }
}

impl Lab {
    /// Build a patrol state from text lines: one line per grid row, all
    /// of equal length, with exactly one `'^'` marking the guard's
    /// starting cell (heading up).  Rejects ragged rows, a missing
    /// guard marker and duplicate guard markers.
    pub fn from_lines(lines: &Vec<Vec<char>>) -> (r: Result<Lab, LoadError>)
        ensures
            r == Err::<Lab, LoadError>(LoadError::RaggedRows) <==> !rows_uniform(
                lines_model(lines@),
            ),
            r == Err::<Lab, LoadError>(LoadError::NoGuard) <==> rows_uniform(lines_model(lines@))
                && guards_total(lines_model(lines@), lines@.len() as int) == 0,
            r == Err::<Lab, LoadError>(LoadError::MultipleGuards) <==> rows_uniform(
                lines_model(lines@),
            ) && guards_total(lines_model(lines@), lines@.len() as int) >= 2,
            match r {
                Ok(lab) => {
                    let ls = lines_model(lines@);
                    &&& rows_uniform(ls)
                    &&& guards_total(ls, ls.len() as int) == 1
                    &&& lab@.wf()
                    &&& lab@.dir == Direction::Up
                    &&& lab@.width == ls[0].len()
                    &&& lab@.height() == ls.len()
                    &&& ls[lab@.y][lab@.x] == '^'
                    &&& forall|rr: int, cc: int|
                        0 <= rr < ls.len() && 0 <= cc < ls[0].len() ==> lab@.cell_at(cc, rr)
                            == loaded_cell(ls[rr][cc])
                },
                Err(e) => true,
            },
    {
        let ghost ls: Seq<Seq<char>> = lines_model(lines@);
        let h = lines.len();
        let w = if h == 0 {
            0
        } else {
            lines[0].len()
        };
        let mut i: usize = 0;
        while i < h
            invariant
                ls == lines_model(lines@),
                h == lines@.len(),
                h > 0 ==> w == ls[0].len(),
                i <= h,
                forall|j: int| 0 <= j < i ==> (#[trigger] ls[j]).len() == w,
            decreases h - i,
        {
            if lines[i].len() != w {
                proof {
                    assert(ls[i as int].len() != ls[0].len());
                }
                return Err(LoadError::RaggedRows);
            }
            i = i + 1;
        }
        proof {
            assert(rows_uniform(ls));
        }
        let mut guard: Option<(usize, usize)> = None;
        let mut row: usize = 0;
        while row < h
            invariant
                ls == lines_model(lines@),
                h == lines@.len(),
                rows_uniform(ls),
                forall|j: int| 0 <= j < h ==> (#[trigger] ls[j]).len() == w,
                row <= h,
                match guard {
                    None => guards_total(ls, row as int) == 0,
                    Some(g) => guards_total(ls, row as int) == 1 && g.1 < row && g.0 < w
                        && ls[g.1 as int][g.0 as int] == '^',
                },
            decreases h - row,
        {
            let line = &lines[row];
            let mut col: usize = 0;
            while col < line.len()
                invariant
                    ls == lines_model(lines@),
                    h == lines@.len(),
                    rows_uniform(ls),
                    forall|j: int| 0 <= j < h ==> (#[trigger] ls[j]).len() == w,
                    row < h,
                    line@ == ls[row as int],
                    col <= line@.len(),
                    match guard {
                        None => guards_total(ls, row as int) + guards_in_row(
                            ls[row as int],
                            col as int,
                        ) == 0,
                        Some(g) => guards_total(ls, row as int) + guards_in_row(
                            ls[row as int],
                            col as int,
                        ) == 1 && (g.1 < row || (g.1 == row && g.0 < col)) && g.0 < w
                            && ls[g.1 as int][g.0 as int] == '^',
                    },
                decreases line@.len() - col,
            {
                if line[col] == '^' {
                    match guard {
                        None => {
                            guard = Some((col, row));
                        },
                        Some(_) => {
                            proof {
                                lemma_guards_total_monotone(ls, row as int, col as int + 1, h as int);
                            }
                            return Err(LoadError::MultipleGuards);
                        },
                    }
                }
                col = col + 1;
            }
            row = row + 1;
        }
        let (gx, gy) = match guard {
            None => {
                return Err(LoadError::NoGuard);
            },
            Some(g) => g,
        };
        let mut data: Vec<Position> = Vec::new();
        let mut r2: usize = 0;
        while r2 < h
            invariant
                ls == lines_model(lines@),
                h == lines@.len(),
                forall|j: int| 0 <= j < h ==> (#[trigger] ls[j]).len() == w,
                r2 <= h,
                data@.len() == r2 * w,
                forall|k: int|
                    0 <= k < data@.len() ==> data@[k] == loaded_cell(ls[k / w as int][k % w as int]),
                w > 0,
            decreases h - r2,
        {
            let line = &lines[r2];
            let mut col: usize = 0;
            while col < w
                invariant
                    ls == lines_model(lines@),
                    h == lines@.len(),
                    forall|j: int| 0 <= j < h ==> (#[trigger] ls[j]).len() == w,
                    r2 < h,
                    line@ == ls[r2 as int],
                    col <= w,
                    data@.len() == r2 * w + col,
                    forall|k: int|
                        0 <= k < data@.len() ==> data@[k] == loaded_cell(
                            ls[k / w as int][k % w as int],
                        ),
                    w > 0,
                decreases w - col,
            {
                let c = line[col];
                let cell = if c == '^' {
                    Position::Visited(Direction::Up)
                } else if c == '#' {
                    Position::Obstructed
                } else {
                    Position::Empty
                };
                proof {
                    vstd::arithmetic::div_mod::lemma_fundamental_div_mod_converse(
                        r2 as int * w as int + col as int,
                        w as int,
                        r2 as int,
                        col as int,
                    );
                }
                data.push(cell);
                col = col + 1;
            }
            proof {
                assert((r2 + 1) * w == r2 * w + w) by (nonlinear_arith);
            }
            r2 = r2 + 1;
        }
        let lab = Lab { position: (gx, gy), direction: Direction::Up, width: w, data };
        proof {
            vstd::arithmetic::div_mod::lemma_mod_multiples_basic(h as int, w as int);
            vstd::arithmetic::div_mod::lemma_div_multiples_vanish(h as int, w as int);
            assert((h as int) * (w as int) == (w as int) * (h as int)) by (nonlinear_arith);
            assert(lab@.cells.len() as int == (w as int) * (h as int));
            assert(lab@.height() == h);
            lemma_fill_covers(lab@, ls, w as int, h as int);
            assert(lab@.cell_at(gx as int, gy as int) == loaded_cell(ls[gy as int][gx as int]));
            assert(lab@.wf());
        }
        Ok(lab)
    }
}

/// Flat cells filled row by row agree with the two-dimensional reading.
proof fn lemma_fill_covers(m: LabModel, ls: Seq<Seq<char>>, w: int, h: int)
    requires
        m.width == w,
        w > 0,
        m.cells.len() == h * w,
        m.height() == h,
        forall|k: int| 0 <= k < m.cells.len() ==> m.cells[k] == loaded_cell(ls[k / w][k % w]),
    ensures
        forall|rr: int, cc: int|
            0 <= rr < h && 0 <= cc < w ==> m.cell_at(cc, rr) == loaded_cell(ls[rr][cc]),
{
    assert forall|rr: int, cc: int| 0 <= rr < h && 0 <= cc < w implies m.cell_at(cc, rr)
        == loaded_cell(ls[rr][cc]) by {
        lemma_idx_in_bounds(w, h, cc, rr);
        vstd::arithmetic::div_mod::lemma_fundamental_div_mod_converse(rr * w + cc, w, rr, cc);
        let k = rr * w + cc;
        assert(h * w == w * h) by (nonlinear_arith);
        assert(0 <= k < m.cells.len());
        assert(m.cells[k] == loaded_cell(ls[k / w][k % w]));
        assert(m.cell_at(cc, rr) == m.cells[k]);
    }
}

/// Obstructing an empty cell keeps the state well-formed: the guard
/// stands on a visited cell, so its own cell is never the one obstructed.
proof fn lemma_candidate_wf(m: LabModel, i: int)
    requires
        m.wf(),
        0 <= i < m.cells.len(),
        m.cells[i] is Empty,
    ensures
        candidate_model(m, i).wf(),
        candidate_model(m, i).cells.len() == m.cells.len(),
{
    lemma_grid_size(m);
    lemma_idx_in_bounds(m.width, m.height(), m.x, m.y);
}

/// Once a non-settling candidate is found at `i` with none below it, it
/// is the first bad candidate of the whole grid.
proof fn lemma_first_bad_found(m: LabModel, i: int, n: int)
    requires
        0 <= i < n,
        first_bad(m, i) is None,
        candidate_bad(m, i),
    ensures
        first_bad(m, n) == Some(i),
    decreases n,
{
    if n > i + 1 {
        lemma_first_bad_found(m, i, n - 1);
    }
}

/// Any non-settling candidate below `n` means the first bad candidate
/// exists.
proof fn lemma_bad_implies_first_bad(m: LabModel, i: int, n: int)
    requires
        0 <= i < n,
        candidate_bad(m, i),
    ensures
        first_bad(m, n) is Some,
    decreases n,
{
    if n > i + 1 {
        lemma_bad_implies_first_bad(m, i, n - 1);
    }
}

/// The loop-candidate total splits at any index `k`: the candidates
/// below `k` plus the candidates from `k` upward.  Evaluating the
/// placements forwards or backwards therefore yields the same total.
pub proof fn lemma_loop_count_split(m: LabModel, k: int)
    requires
        0 <= k <= m.cells.len(),
    ensures
        loop_count(m, m.cells.len() as int) == loop_count(m, k) + loop_count_rev(m, k),
    decreases m.cells.len() - k,
{
    if k == m.cells.len() {
    } else {
        lemma_loop_count_split(m, k + 1);
    }
}

/// Run the stepping machine until a terminal result or until the step
/// budget runs out.
fn run_to_end(lab: Lab) -> (r: SimOutcome)
    requires
        lab@.wf(),
        !lab@.enclosed(),
        lab@.cells.len() <= usize::MAX / 8,
    ensures
        match run_spec(lab@, step_budget(lab@)) {
            Some((mf, c, t)) => c + 1 <= usize::MAX && (t is OutOfBounds || t is Stuck) && (t
                is OutOfBounds ==> r == SimOutcome::Exited((c + 1) as usize)) && (t is Stuck ==> r
                == SimOutcome::Looped((c + 1) as usize)),
            None => r == SimOutcome::OutOfBudget,
        },
{
    let budget: usize = 4 * lab.data.len() + 4;
    let mut cur = lab;
    let ghost m0: LabModel = cur@;
    let mut visits: usize = 1;
    let mut steps: usize = 0;
    while steps < budget
        invariant
            m0 == lab@,
            cur@.wf(),
            !cur@.enclosed(),
            cur@.cells.len() == m0.cells.len(),
            budget == 4 * m0.cells.len() + 4,
            m0.cells.len() <= usize::MAX / 8,
            step_budget(m0) == budget,
            steps <= budget,
            1 <= visits,
            visits <= steps + 1,
            run_spec(m0, step_budget(m0)) == shift_count(
                run_spec(cur@, (budget - steps) as nat),
                (visits - 1) as nat,
            ),
        decreases budget - steps,
    {
        let ghost pre: LabModel = cur@;
        let ghost fuel: nat = (budget - steps) as nat;
        let r = cur.advance();
        steps = steps + 1;
        proof {
            assert(advance_spec(pre, 4) == Some((cur@, r)));
            assert(fuel >= 1);
        }
        match r {
            AdvanceResult::OutOfBounds => {
                proof {
                    assert(run_spec(pre, fuel) == Some((cur@, 0 as nat, r)));
                    assert(run_spec(m0, step_budget(m0)) == Some(
                        (cur@, (visits - 1) as nat, r),
                    ));
                }
                return SimOutcome::Exited(visits);
            },
            AdvanceResult::Stuck => {
                proof {
                    assert(run_spec(pre, fuel) == Some((cur@, 0 as nat, r)));
                    assert(run_spec(m0, step_budget(m0)) == Some(
                        (cur@, (visits - 1) as nat, r),
                    ));
                }
                return SimOutcome::Looped(visits);
            },
            AdvanceResult::NewPosition => {
                proof {
                    assert(run_spec(pre, fuel) == shift_count(
                        run_spec(cur@, (fuel - 1) as nat),
                        1,
                    ));
                }
                visits = visits + 1;
            },
            AdvanceResult::AlreadyVisited => {
                proof {
                    assert(run_spec(pre, fuel) == run_spec(cur@, (fuel - 1) as nat));
                }
            },
        }
    }
    proof {
        assert(run_spec(cur@, 0) is None);
    }
    SimOutcome::OutOfBudget
}

/// A walled-in guard exhausts the turn budget: the step machine yields
/// no transition.
proof fn lemma_enclosed_stalls(m: LabModel)
    requires
        m.enclosed(),
    ensures
        forall|fuel: nat| fuel <= 4 ==> advance_spec(m, fuel) is None,
        forall|fuel: nat| run_spec(m, fuel) is None,
{
    assert forall|fuel: nat| fuel <= 4 implies advance_spec(m, fuel) is None by {
        lemma_enclosed_stalls_step(m, fuel);
    }
    assert forall|fuel: nat| run_spec(m, fuel) is None by {
        if fuel > 0 {
            lemma_enclosed_stalls_step(m, 4);
        }
    }
}

/// Helper for `lemma_enclosed_stalls`: turning never escapes a walled-in
/// guard.
proof fn lemma_enclosed_stalls_step(m: LabModel, fuel: nat)
    requires
        m.enclosed(),
        fuel <= 4,
    ensures
        advance_spec(m, fuel) is None,
    decreases fuel,
{
    if fuel > 0 {
        lemma_enclosed_stalls_step(m.with_dir(m.dir.turned()), (fuel - 1) as nat);
    }
}

/// A step that stays on the grid lands on an in-bounds cell.
proof fn lemma_next_pos_in_bounds(m: LabModel, d: Direction)
    requires
        m.wf(),
    ensures
        match m.next_pos_from(d) {
            Some(p) => m.in_bounds(p.0, p.1),
            None => true,
        },
{
}

/// If the guard is blocked after zero, one, two and three clockwise
/// turns, it is blocked in all four directions.
proof fn lemma_all_dirs_blocked(m: LabModel)
    requires
        forall|j: nat| j < 4 ==> m.blocked_toward(#[trigger] turned_n(m.dir, j)),
    ensures
        m.enclosed(),
{
    reveal_with_fuel(turned_n, 5);
    assert(m.blocked_toward(turned_n(m.dir, 0)));
    assert(m.blocked_toward(turned_n(m.dir, 1)));
    assert(m.blocked_toward(turned_n(m.dir, 2)));
    assert(m.blocked_toward(turned_n(m.dir, 3)));
}

/// After the guard moves one step (the grid changed at most at the cell
/// it moved onto, which is now visited), the cell it came from is still
/// visited, so the guard is neither walled in nor off a visited cell.
proof fn lemma_move_keeps_open(pre: LabModel, orig: LabModel, post: LabModel, x: int, y: int)
    requires
        pre.wf(),
        pre.next_pos() == Some((x, y)),
        post.width == pre.width,
        post.x == x,
        post.y == y,
        (post.cells == pre.cells && pre.cell_at(x, y) is Visited) || post.cells
            == pre.cells.update(pre.idx(x, y), Position::Visited(pre.dir)),
        orig.x == pre.x,
        orig.y == pre.y,
    ensures
        post.wf(),
        !post.enclosed(),
{
    lemma_grid_size(pre);
    lemma_next_pos_in_bounds(pre, pre.dir);
    lemma_idx_in_bounds(pre.width, pre.height(), x, y);
    lemma_idx_in_bounds(pre.width, pre.height(), pre.x, pre.y);
    assert((x, y) != (pre.x, pre.y));
    if pre.idx(x, y) == pre.idx(pre.x, pre.y) {
        lemma_idx_injective(pre.width, x, y, pre.x, pre.y);
        assert(false);
    }
    assert(post.cells[post.idx(pre.x, pre.y)] is Visited);
    let back = match pre.dir {
        Direction::Up => Direction::Down,
        Direction::Right => Direction::Left,
        Direction::Down => Direction::Up,
        Direction::Left => Direction::Right,
    };
    assert(post.next_pos_from(back) == Some((pre.x, pre.y)));
    assert(!post.blocked_toward(back));
}

} // verus!
