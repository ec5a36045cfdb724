//! Solving session: on/off control, a scan cursor, a flag for "another pass is
//! needed", and a per-update step budget, driven by discrete events.

use vstd::prelude::*;
use vstd::string::StringExecFns;

use crate::picgrid::{
    keeps_hints, keeps_solved, lemma_solves_onward_trans, solves_onward, CellState, GridView,
    PictureGrid,
};
use crate::solver::{
    apply_rule, deduce, fires, fixpoint, full_pass, lemma_deduce, lemma_pass_from, pass_changes,
    pass_fires_from, pass_from,
};

verus! {

/// Mathematical model of a solving session.
pub struct SessionView {
    /// The grid being solved.
    pub grid: GridView,
    /// The scan cursor while solving; the cell under the pointer otherwise.
    pub cell_pos: Option<(int, int)>,
    /// Whether the solver is running.
    pub solving: bool,
    /// Whether the current pass made a deduction, so that another is needed.
    pub needs_pass: bool,
    /// Cell steps per update.
    pub steps: nat,
}

/// The session at the end of a pass over `g`: another pass from (0, 0) if
/// `dirty`, otherwise the solver stops.
pub open spec fn end_of_pass(s: SessionView, g: GridView, dirty: bool) -> SessionView {
    if dirty {
        SessionView { grid: g, cell_pos: Some((0, 0)), needs_pass: false, ..s }
    } else {
        SessionView { grid: g, cell_pos: None, solving: false, needs_pass: false, ..s }
    }
}

/// One cell step. While solving: find the next incomplete cell from the cursor,
/// apply the deduction rule there, note whether it made a deduction, and move
/// the cursor one cell further in row-major order; past the last cell (or when
/// no incomplete cell is left), end the pass. While idle: forget the cursor.
pub open spec fn session_step(s: SessionView) -> SessionView {
    if !s.solving {
        SessionView { cell_pos: None, ..s }
    } else {
        match s.cell_pos {
            None => s,
            Some((cx, cy)) => match s.grid.next_incomplete_from(cx, cy) {
                Some((a, b)) => {
                    let g = deduce(s.grid, a, b);
                    let dirty = s.needs_pass || fires(s.grid, a, b);
                    let nx = if a + 1 < s.grid.width {
                        a + 1
                    } else {
                        0
                    };
                    let ny = if a + 1 < s.grid.width {
                        b
                    } else {
                        b + 1
                    };
                    if ny < s.grid.height {
                        SessionView { grid: g, cell_pos: Some((nx, ny)), needs_pass: dirty, ..s }
                    } else {
                        end_of_pass(s, g, dirty)
                    }
                },
                None => end_of_pass(s, s.grid, s.needs_pass),
            },
        }
    }
}

/// The session after `n` cell steps.
pub open spec fn run_steps(s: SessionView, n: nat) -> SessionView
    decreases n,
{
    if n == 0 {
        s
    } else {
        run_steps(session_step(s), (n - 1) as nat)
    }
}

/// The grid cell cycled by a click: unsolved, shaded, unshaded, and round again.
pub open spec fn cycled(c: CellState) -> CellState {
    match c {
        CellState::Unsolved(v) => CellState::Shaded(v),
        CellState::Shaded(v) => CellState::Unshaded(v),
        CellState::Unshaded(v) => CellState::Unsolved(v),
    }
}

/// The step budget a session starts with: twice the grid width, at least 1
/// and at most `u16::MAX`.
pub open spec fn initial_steps(width: nat) -> nat {
    if width == 0 {
        1
    } else if 2 * width > u16::MAX {
        u16::MAX as nat
    } else {
        2 * width
    }
}

/// The character of a decimal digit.
pub open spec fn digit_char(d: nat) -> char {
    seq!['0', '1', '2', '3', '4', '5', '6', '7', '8', '9'][d as int]
}

/// The decimal digits of `n`, most significant first, without leading zeros.
pub open spec fn digits(n: nat) -> Seq<char>
    decreases n,
{
    if n < 10 {
        seq![digit_char(n)]
    } else {
        digits(n / 10) + seq![digit_char(n % 10)]
    }
}

/// `n` written in decimal, with a leading '-' when negative.
pub open spec fn decimal(n: int) -> Seq<char> {
    if n < 0 {
        seq!['-'] + digits((-n) as nat)
    } else {
        digits(n as nat)
    }
}

/// Relies on `<i64 as ToString>::to_string` (std's `Display` for integers):
/// the decimal digits of `n`, after a '-' when `n` is negative.
#[verifier::external_body]
fn decimal_string(n: i64) -> (r: String)
    ensures
        r@ == decimal(n as int),
{
    n.to_string()
}

/// Handles events for a Fill-a-Pix grid.
pub struct PictureGridController {
    picgrid: PictureGrid,
    cell_pos: Option<[isize; 2]>,
    is_solving: bool,
    algorithm_needs_pass: bool,
    steps_per_update: u16,
}

impl View for PictureGridController {
    type V = SessionView;

    closed spec fn view(&self) -> SessionView {
        SessionView {
            grid: self.picgrid@,
            cell_pos: match self.cell_pos {
                Some(p) => Some((p@[0] as int, p@[1] as int)),
                None => None,
            },
            solving: self.is_solving,
            needs_pass: self.algorithm_needs_pass,
            steps: self.steps_per_update as nat,
        }
    }
}

impl PictureGridController {
    /// Creates a new, idle controller for `picgrid`.
    pub fn new(picgrid: PictureGrid) -> (r: PictureGridController)
        ensures
            r@ == (SessionView {
                grid: picgrid@,
                cell_pos: None,
                solving: false,
                needs_pass: false,
                steps: initial_steps(picgrid@.width),
            }),
    {
        let width = picgrid.width();
        let initial_steps: u16 = if width == 0 {
            1
        } else if width > u16::MAX / 2 {
            u16::MAX
        } else {
            width * 2
        };
        PictureGridController {
            picgrid,
            cell_pos: None,
            is_solving: false,
            algorithm_needs_pass: false,
            steps_per_update: initial_steps,
        }
    }

    /// The grid being solved.
    pub fn picgrid(&self) -> (r: &PictureGrid)
        ensures
            r@ == self@.grid,
    {
        &self.picgrid
    }

    /// The scan cursor while solving; the cell under the pointer otherwise.
    pub fn cell_pos(&self) -> (r: Option<[isize; 2]>)
        ensures
            self@.cell_pos == match r {
                Some(p) => Some((p@[0] as int, p@[1] as int)),
                None => None,
            },
    {
        self.cell_pos
    }

    /// Whether the solver is running.
    pub fn is_solving(&self) -> (r: bool)
        ensures
            r == self@.solving,
    {
        self.is_solving
    }

    /// Cell steps per update.
    pub fn steps_per_update(&self) -> (r: u16)
        ensures
            r == self@.steps,
    {
        self.steps_per_update
    }

    /// Returns messages to display: the key to toggle the solver, the step
    /// budget, and the cell being processed, if any.
    pub fn get_messages(&self) -> (r: Vec<String>)
        ensures
            r@.len() == if self@.cell_pos is Some {
                3int
            } else {
                2int
            },
            r@[0]@ == "Press 'x' to toggle algorithm"@,
            r@[1]@ == "Steps per Update: "@ + decimal(self@.steps as int) + " ('+'/'-')"@,
            self@.cell_pos matches Some((x, y)) ==> r@[2]@ == "Processing ("@ + decimal(x) + ","@
                + decimal(y) + ")"@,
    {
        let mut ret_val: Vec<String> = Vec::new();
        ret_val.push("Press 'x' to toggle algorithm".to_owned());
        let mut steps = "Steps per Update: ".to_owned();
        steps.append(decimal_string(self.steps_per_update as i64).as_str());
        steps.append(" ('+'/'-')");
        ret_val.push(steps);
        if let Some(pos) = self.cell_pos {
            let mut processing = "Processing (".to_owned();
            processing.append(decimal_string(pos[0] as i64).as_str());
            processing.append(",");
            processing.append(decimal_string(pos[1] as i64).as_str());
            processing.append(")");
            ret_val.push(processing);
        }
        ret_val
    }

    /// The pointer is over `pos` (a cell position, or outside the grid); ignored
    /// while solving.
    pub fn hover(&mut self, pos: Option<[isize; 2]>)
        ensures
            final(self)@ == if old(self)@.solving {
                old(self)@
            } else {
                SessionView {
                    cell_pos: match pos {
                        Some(p) => Some((p@[0] as int, p@[1] as int)),
                        None => None,
                    },
                    ..old(self)@
                }
            },
    {
        if !self.is_solving {
            self.cell_pos = pos;
        }
    }

    /// A click on the cell under the pointer cycles its state, keeping its hint;
    /// ignored while solving.
    pub fn click(&mut self)
        ensures
            final(self)@ == match old(self)@.cell_pos {
                Some((x, y)) if !old(self)@.solving => SessionView {
                    grid: old(self)@.grid.set_cell(x, y, cycled(old(self)@.grid.cell(x, y))),
                    ..old(self)@
                },
                _ => old(self)@,
            },
    {
        if !self.is_solving {
            if let Some(pos) = self.cell_pos {
                if let Some(cell) = self.picgrid.get(pos[0], pos[1]) {
                    let new_state = match cell {
                        CellState::Unsolved(val) => CellState::Shaded(val),
                        CellState::Shaded(val) => CellState::Unshaded(val),
                        CellState::Unshaded(val) => CellState::Unsolved(val),
                    };
                    self.picgrid.set(pos[0], pos[1], new_state);
                }
            }
        }
    }

    /// Starts the solver at (0, 0) with a fresh pass, or stops it; a stop keeps
    /// every deduction made so far.
    pub fn toggle_solving(&mut self)
        ensures
            final(self)@ == if old(self)@.solving {
                SessionView {
                    cell_pos: None,
                    solving: false,
                    needs_pass: false,
                    ..old(self)@
                }
            } else {
                SessionView {
                    cell_pos: Some((0, 0)),
                    solving: true,
                    needs_pass: false,
                    ..old(self)@
                }
            },
    {
        self.is_solving = !self.is_solving;
        self.algorithm_needs_pass = false;
        if self.is_solving {
            self.cell_pos = Some([0, 0]);
        } else {
            self.cell_pos = None;
        }
    }

    /// One more cell step per update (up to `u16::MAX`).
    pub fn increase_steps(&mut self)
        ensures
            final(self)@ == (SessionView {
                steps: if old(self)@.steps < u16::MAX {
                    old(self)@.steps + 1
                } else {
                    old(self)@.steps
                },
                ..old(self)@
            }),
    {
        if self.steps_per_update < u16::MAX {
            self.steps_per_update = self.steps_per_update + 1;
        }
    }

    /// One cell step fewer per update, but never below 1.
    pub fn decrease_steps(&mut self)
        ensures
            final(self)@ == (SessionView {
                steps: if old(self)@.steps > 1 {
                    (old(self)@.steps - 1) as nat
                } else {
                    1
                },
                ..old(self)@
            }),
    {
        if self.steps_per_update > 1 {
            self.steps_per_update = self.steps_per_update - 1;
        } else {
            self.steps_per_update = 1;
        }
    }

    /// The end of a pass: another from (0, 0) if it made a deduction, otherwise stop.
    fn end_pass(&mut self, dirty: bool)
        ensures
            final(self)@ == end_of_pass(old(self)@, old(self)@.grid, dirty),
    {
        if dirty {
            self.cell_pos = Some([0, 0]);
            self.algorithm_needs_pass = false;
        } else {
            self.cell_pos = None;
            self.is_solving = false;
            self.algorithm_needs_pass = false;
        }
    }

    /// One cell step (see `session_step`).
    fn step(&mut self)
        ensures
            final(self)@ == session_step(old(self)@),
    {
        if !self.is_solving {
            self.cell_pos = None;
            return;
        }
        if let Some(pos) = self.cell_pos {
            let (nx, ny, ncell) = self.picgrid.next_incomplete(pos[0], pos[1]);
            match ncell {
                Some(_) => {
                    let ghost g = self.picgrid@;
                    proof {
                        lemma_next_in_bounds(g, pos@[0] as int, pos@[1] as int);
                    }
                    let changed = apply_rule(&mut self.picgrid, nx, ny);
                    let dirty = self.algorithm_needs_pass || changed;
                    let width = self.picgrid.width() as isize;
                    let height = self.picgrid.height() as isize;
                    let mut x = nx + 1;
                    let mut y = ny;
                    if x >= width {
                        x = 0;
                        y = y + 1;
                    }
                    if y < height {
                        self.cell_pos = Some([x, y]);
                        self.algorithm_needs_pass = dirty;
                    } else {
                        self.end_pass(dirty);
                    }
                },
                None => {
                    let dirty = self.algorithm_needs_pass;
                    self.end_pass(dirty);
                },
            }
        }
    }

    /// Handles an update: `steps_per_update` cell steps. These only solve
    /// cells: every hint and every solved cell stays.
    pub fn update(&mut self)
        ensures
            final(self)@ == run_steps(old(self)@, old(self)@.steps),
            keeps_hints(old(self)@.grid, final(self)@.grid),
            keeps_solved(old(self)@.grid, final(self)@.grid),
    {
        proof {
            self.picgrid.lemma_view();
            lemma_run_solves_onward(self@, self@.steps);
        }
        let n = self.steps_per_update;
        let ghost s0 = self@;
        let mut i: u16 = 0;
        while i < n
            invariant
                i <= n,
                n == s0.steps,
                self@ == run_steps(s0, i as nat),
            decreases n - i,
        {
            proof {
                lemma_run_steps_split(s0, i as nat);
            }
            self.step();
            i = i + 1;
        }
    }
}

/// Cell steps only solve cells of the session's grid.
proof fn lemma_run_solves_onward(s: SessionView, n: nat)
    requires
        s.grid.wf(),
    ensures
        solves_onward(s.grid, run_steps(s, n).grid),
    decreases n,
{
    if n == 0 {
        assert(solves_onward(s.grid, s.grid));
    } else {
        let next = session_step(s);
        if s.solving && s.cell_pos is Some {
            let (cx, cy) = s.cell_pos->0;
            if let Some((a, b)) = s.grid.next_incomplete_from(cx, cy) {
                lemma_deduce(s.grid, a, b);
            } else {
                assert(solves_onward(s.grid, s.grid));
            }
        } else {
            assert(solves_onward(s.grid, s.grid));
        }
        lemma_run_solves_onward(next, (n - 1) as nat);
        lemma_solves_onward_trans(s.grid, next.grid, run_steps(s, n).grid);
    }
}

/// A found cell lies in the grid.
proof fn lemma_next_in_bounds(g: GridView, x: int, y: int)
    ensures
        g.next_incomplete_from(x, y) matches Some((a, b)) ==> g.in_bounds(a, b),
{
    let (sx, sy) = if y < 0 {
        (0, 0)
    } else if x < 0 {
        (0, y)
    } else {
        (x, y)
    };
    lemma_first_incomplete_in_bounds(g, sx, sy);
}

proof fn lemma_first_incomplete_in_bounds(g: GridView, x: int, y: int)
    ensures
        g.first_incomplete(x, y) matches Some((a, b)) ==> g.in_bounds(a, b),
    decreases g.height - y, g.width - x,
{
    if g.in_bounds(x, y) && !g.incomplete_at(x, y) {
        if x + 1 < g.width {
            lemma_first_incomplete_in_bounds(g, x + 1, y);
        } else {
            lemma_first_incomplete_in_bounds(g, 0, y + 1);
        }
    }
}

/// `n + 1` steps are `n` steps and one more.
proof fn lemma_run_steps_split(s: SessionView, n: nat)
    ensures
        run_steps(s, n + 1) == session_step(run_steps(s, n)),
    decreases n,
{
    if n > 0 {
        lemma_run_steps_split(session_step(s), (n - 1) as nat);
        assert(run_steps(s, n) == run_steps(session_step(s), (n - 1) as nat));
    } else {
        assert(run_steps(session_step(s), 0) == session_step(s));
    }
    assert(run_steps(s, n + 1) == run_steps(session_step(s), n));
}

/// What the full-pass engine makes of `g` when the current pass stands at
/// (x, y): the rest of the pass, then, if this pass made a deduction (before,
/// as `dirty` says, or in its rest), more passes up to the fixpoint.
pub open spec fn finish_from(g: GridView, x: int, y: int, dirty: bool) -> GridView {
    if dirty || pass_fires_from(g, x, y) {
        fixpoint(pass_from(g, x, y))
    } else {
        pass_from(g, x, y)
    }
}

/// A session that began on `g0` is on track: its grid is well formed; while
/// solving, its cursor is (0, 0) or a cell and finishing its pass the way the
/// engine does leads to the fixpoint of `g0`; once stopped, it holds that fixpoint.
pub open spec fn on_track(s: SessionView, g0: GridView) -> bool {
    &&& s.grid.wf()
    &&& if s.solving {
        &&& s.cell_pos matches Some((x, y))
        &&& (x == 0 && y == 0) || s.grid.in_bounds(x, y)
        &&& finish_from(s.grid, x, y, s.needs_pass) == fixpoint(g0)
    } else {
        s.grid == fixpoint(g0)
    }
}

/// A scan skips cells where the rule cannot apply, so the rest of a pass from
/// (x, y) is the rest from the first incomplete cell, which lies at or after (x, y).
proof fn lemma_skip_to_incomplete(g: GridView, x: int, y: int)
    requires
        g.wf(),
    ensures
        match g.first_incomplete(x, y) {
            Some((a, b)) => {
                &&& g.in_bounds(a, b)
                &&& b > y || (b == y && a >= x)
                &&& pass_from(g, x, y) == pass_from(g, a, b)
                &&& pass_fires_from(g, x, y) == pass_fires_from(g, a, b)
            },
            None => pass_from(g, x, y) == g && !pass_fires_from(g, x, y),
        },
    decreases g.height - y, g.width - x,
{
    if g.in_bounds(x, y) && !g.incomplete_at(x, y) {
        assert(deduce(g, x, y) == g);
        if x + 1 < g.width {
            lemma_skip_to_incomplete(g, x + 1, y);
        } else {
            lemma_skip_to_incomplete(g, 0, y + 1);
        }
    }
}

/// Finishing a pass that has not started yet, with nothing pending, is the fixpoint.
proof fn lemma_finish_fresh_pass(g: GridView)
    requires
        g.wf(),
    ensures
        finish_from(g, 0, 0, false) == fixpoint(g),
{
    lemma_pass_from(g, 0, 0);
}

/// The end of a pass over `g` keeps a session on track when finishing it from
/// there would have led to the fixpoint.
proof fn lemma_end_of_pass_on_track(s: SessionView, g: GridView, dirty: bool, g0: GridView)
    requires
        s.solving,
        g.wf(),
        (if dirty { fixpoint(g) } else { g }) == fixpoint(g0),
    ensures
        on_track(end_of_pass(s, g, dirty), g0),
{
    lemma_finish_fresh_pass(g);
}

/// One cell step keeps a session on track.
proof fn lemma_step_on_track(s: SessionView, g0: GridView)
    requires
        on_track(s, g0),
    ensures
        on_track(session_step(s), g0),
{
    if s.solving {
        let g = s.grid;
        let (cx, cy) = s.cell_pos->0;
        if g.in_bounds(cx, cy) {
            lemma_skip_to_incomplete(g, cx, cy);
        }
        match g.next_incomplete_from(cx, cy) {
            Some((a, b)) => {
                let g2 = deduce(g, a, b);
                lemma_deduce(g, a, b);
                let dirty = s.needs_pass || fires(g, a, b);
                if a + 1 < g.width {
                    assert(finish_from(g, cx, cy, s.needs_pass) == finish_from(g2, a + 1, b, dirty));
                } else {
                    assert(finish_from(g, cx, cy, s.needs_pass) == finish_from(g2, 0, b + 1, dirty));
                    if b + 1 >= g.height {
                        lemma_end_of_pass_on_track(s, g2, dirty, g0);
                    }
                }
            },
            None => {
                lemma_end_of_pass_on_track(s, g, s.needs_pass, g0);
            },
        }
    }
}

/// Any number of cell steps keeps a session on track.
proof fn lemma_run_on_track(s: SessionView, g0: GridView, n: nat)
    requires
        on_track(s, g0),
    ensures
        on_track(run_steps(s, n), g0),
    decreases n,
{
    if n > 0 {
        lemma_step_on_track(s, g0);
        lemma_run_on_track(session_step(s), g0, (n - 1) as nat);
    }
}

/// Resumable equivalence: a session started on `g` (cursor at (0, 0), no pass
/// pending), driven one cell step at a time, holds exactly the grid that the
/// full-pass engine reaches at its fixpoint as soon as it has stopped solving.
pub proof fn lemma_session_matches_engine(s: SessionView, n: nat)
    requires
        s.grid.wf(),
        s.solving,
        s.cell_pos == Some((0int, 0int)),
        !s.needs_pass,
    ensures
        !run_steps(s, n).solving ==> run_steps(s, n).grid == fixpoint(s.grid),
{
    lemma_finish_fresh_pass(s.grid);
    lemma_run_on_track(s, s.grid, n);
}

/// Work a session has left, in the first place: twice the unsolved cells, plus
/// one for a pending pass.
spec fn effort(s: SessionView) -> int {
    2 * s.grid.unsolved_total() + if s.needs_pass {
        1int
    } else {
        0int
    }
}

/// Rows left below the cursor.
spec fn rows_left(s: SessionView) -> int {
    match s.cell_pos {
        Some((_x, y)) => s.grid.height - y,
        None => 0,
    }
}

/// Columns left right of the cursor.
spec fn cols_left(s: SessionView) -> int {
    match s.cell_pos {
        Some((x, _y)) => s.grid.width - x,
        None => 0,
    }
}

/// A session on track stops after finitely many cell steps.
proof fn lemma_stops_from(s: SessionView, g0: GridView) -> (n: nat)
    requires
        on_track(s, g0),
    ensures
        !run_steps(s, n).solving,
    decreases effort(s), rows_left(s), cols_left(s),
{
    if !s.solving {
        return 0;
    }
    let next = session_step(s);
    lemma_step_on_track(s, g0);
    if !next.solving {
        assert(run_steps(s, 1) == run_steps(next, 0));
        return 1;
    }
    let g = s.grid;
    let (cx, cy) = s.cell_pos->0;
    if g.in_bounds(cx, cy) {
        lemma_skip_to_incomplete(g, cx, cy);
    }
    match g.next_incomplete_from(cx, cy) {
        Some((a, b)) => {
            lemma_deduce(g, a, b);
        },
        None => {},
    }
    let m = lemma_stops_from(next, g0);
    assert(run_steps(s, m + 1) == run_steps(next, m));
    m + 1
}

/// The session stops: a session started on `g` (cursor at (0, 0), no pass
/// pending) is idle again after some number of cell steps.
pub proof fn lemma_session_stops(s: SessionView) -> (n: nat)
    requires
        s.grid.wf(),
        s.solving,
        s.cell_pos == Some((0int, 0int)),
        !s.needs_pass,
    ensures
        !run_steps(s, n).solving,
        run_steps(s, n).grid == fixpoint(s.grid),
{
    lemma_finish_fresh_pass(s.grid);
    let n = lemma_stops_from(s, s.grid);
    lemma_session_matches_engine(s, n);
    n
}

} // verus!
