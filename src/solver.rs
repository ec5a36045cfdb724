//! Propagation engine: the single-cell deduction rule, full row-major passes,
//! and repeated passes up to a fixpoint.

use vstd::prelude::*;

use crate::picgrid::{
    keeps_hints, keeps_solved, lemma_count_bound, lemma_count_partition, lemma_count_zero, lemma_filled, lemma_solves_onward_trans,
    lemma_unsolved_total_bound, lemma_unsolved_total_mono, is_hint, near, solves_onward, with_variant,
    CellState, GridView, PictureGrid,
};

verus! {

/// The deduction rule makes a deduction at (x, y): the cell there carries a hint
/// `h`, its block still has unsolved cells, and `h` equals either the number of
/// shaded cells of the block, or that number plus the number of unsolved ones.
pub open spec fn fires(g: GridView, x: int, y: int) -> bool {
    &&& g.incomplete_at(x, y)
    &&& {
        let h = g.cell(x, y).hint_of() as int;
        let shaded = g.shaded_around(x, y) as int;
        h == shaded || h == shaded + g.unsolved_around(x, y)
    }
}

/// The grid after applying the deduction rule at (x, y): when the hint is already
/// met by the shaded cells, every unsolved cell of the block becomes unshaded;
/// when it needs every unsolved cell shaded, they all become shaded; otherwise,
/// and at a cell without a hint or with a complete block, nothing changes.
pub open spec fn deduce(g: GridView, x: int, y: int) -> GridView {
    if g.incomplete_at(x, y) {
        let h = g.cell(x, y).hint_of() as int;
        let shaded = g.shaded_around(x, y) as int;
        if h == shaded {
            g.filled(x, y, CellState::Unshaded(0))
        } else if h == shaded + g.unsolved_around(x, y) {
            g.filled(x, y, CellState::Shaded(0))
        } else {
            g
        }
    } else {
        g
    }
}

/// The rest of a pass: the rule applied at (x, y) and at every later cell in
/// row-major order.
pub open spec fn pass_from(g: GridView, x: int, y: int) -> GridView
    decreases g.height - y, g.width - x,
{
    if !g.in_bounds(x, y) {
        g
    } else {
        let next = deduce(g, x, y);
        if x + 1 < g.width {
            pass_from(next, x + 1, y)
        } else {
            pass_from(next, 0, y + 1)
        }
    }
}

/// Whether the rule makes a deduction anywhere in the rest of a pass.
pub open spec fn pass_fires_from(g: GridView, x: int, y: int) -> bool
    decreases g.height - y, g.width - x,
{
    if !g.in_bounds(x, y) {
        false
    } else {
        let next = deduce(g, x, y);
        fires(g, x, y) || if x + 1 < g.width {
            pass_fires_from(next, x + 1, y)
        } else {
            pass_fires_from(next, 0, y + 1)
        }
    }
}

/// The grid after one full pass over every cell in row-major order.
pub open spec fn full_pass(g: GridView) -> GridView {
    pass_from(g, 0, 0)
}

/// Whether a full pass makes any deduction.
pub open spec fn pass_changes(g: GridView) -> bool {
    pass_fires_from(g, 0, 0)
}

/// The grid after repeating full passes until one makes no deduction.
pub open spec fn fixpoint(g: GridView) -> GridView
    decreases g.unsolved_total(),
    when g.wf()
{
    if pass_changes(g) {
        proof {
            lemma_pass_from(g, 0, 0);
        }
        fixpoint(full_pass(g))
    } else {
        g
    }
}

/// Number of passes that make a deduction before the fixpoint is reached.
pub open spec fn productive_passes(g: GridView) -> nat
    decreases g.unsolved_total(),
    when g.wf()
{
    if pass_changes(g) {
        proof {
            lemma_pass_from(g, 0, 0);
        }
        1 + productive_passes(full_pass(g))
    } else {
        0
    }
}

/// The rule only solves cells; when it fires it solves at least one, and when
/// it does not fire the grid stays as it is.
pub proof fn lemma_deduce(g: GridView, x: int, y: int)
    requires
        g.wf(),
    ensures
        solves_onward(g, deduce(g, x, y)),
        deduce(g, x, y).unsolved_total() <= g.unsolved_total(),
        fires(g, x, y) ==> deduce(g, x, y).unsolved_total() < g.unsolved_total(),
        !fires(g, x, y) ==> deduce(g, x, y) == g,
{
    let r = deduce(g, x, y);
    if fires(g, x, y) {
        let h = g.cell(x, y).hint_of() as int;
        let v = if h == g.shaded_around(x, y) {
            CellState::Unshaded(0)
        } else {
            CellState::Shaded(0)
        };
        assert(r == g.filled(x, y, v));
        lemma_filled(g, x, y, v);
        let nb = g.neighborhood(x, y);
        let k = choose|k: int| 0 <= k < 9 && (#[trigger] nb[k] is Unsolved);
        let a = x - 1 + k / 3;
        let b = y - 1 + k % 3;
        assert(g.cell(a, b) is Unsolved);
        assert(near(a, b, x, y));
        assert(!(r.cell(a, b) is Unsolved));
        lemma_unsolved_total_mono(g, r);
    } else {
        assert(r == g);
    }
    assert(solves_onward(g, r));
    lemma_unsolved_total_mono(g, r);
}

/// The rest of a pass only solves cells, solves at least one if the rule fires
/// somewhere in it, and leaves the grid as it is otherwise.
pub proof fn lemma_pass_from(g: GridView, x: int, y: int)
    requires
        g.wf(),
    ensures
        solves_onward(g, pass_from(g, x, y)),
        pass_from(g, x, y).unsolved_total() <= g.unsolved_total(),
        pass_fires_from(g, x, y) ==> pass_from(g, x, y).unsolved_total() < g.unsolved_total(),
        !pass_fires_from(g, x, y) ==> pass_from(g, x, y) == g,
    decreases g.height - y, g.width - x,
{
    if g.in_bounds(x, y) {
        let next = deduce(g, x, y);
        lemma_deduce(g, x, y);
        if x + 1 < g.width {
            lemma_pass_from(next, x + 1, y);
        } else {
            lemma_pass_from(next, 0, y + 1);
        }
        lemma_solves_onward_trans(g, next, pass_from(g, x, y));
    } else {
        assert(solves_onward(g, g));
    }
}

/// Applies the deduction rule at (x, y); returns whether it made a deduction.
pub fn apply_rule(grid: &mut PictureGrid, x: isize, y: isize) -> (changed: bool)
    ensures
        final(grid)@ == deduce(old(grid)@, x as int, y as int),
        changed == fires(old(grid)@, x as int, y as int),
        keeps_hints(old(grid)@, final(grid)@),
        keeps_solved(old(grid)@, final(grid)@),
{
    proof {
        grid.lemma_view();
        lemma_deduce(grid@, x as int, y as int);
    }
    let cell = grid.get(x, y).unwrap();
    let hint = cell.hint();
    if hint >= PictureGrid::EMPTY || grid.is_complete(x, y) {
        return false;
    }
    let shaded = grid.num_shaded(x, y);
    let unsolved = grid.num_unsolved(x, y);
    proof {
        lemma_count_bound(grid@.neighborhood(x as int, y as int), CellState::Shaded(0));
        lemma_count_bound(grid@.neighborhood(x as int, y as int), CellState::Unsolved(0));
        lemma_count_zero(grid@.neighborhood(x as int, y as int), CellState::Unsolved(0));
    }
    if hint == shaded {
        grid.fill_unshaded(x, y);
        true
    } else if hint == shaded + unsolved {
        grid.fill_shaded(x, y);
        true
    } else {
        false
    }
}

/// Runs one full pass: the rule at every cell in row-major order. Returns
/// whether any deduction was made.
pub fn run_pass(grid: &mut PictureGrid) -> (changed: bool)
    ensures
        final(grid)@ == full_pass(old(grid)@),
        changed == pass_changes(old(grid)@),
        keeps_hints(old(grid)@, final(grid)@),
        keeps_solved(old(grid)@, final(grid)@),
{
    proof {
        grid.lemma_view();
    }
    let width = grid.width() as isize;
    let height = grid.height() as isize;
    proof {
        lemma_pass_from(grid@, 0, 0);
    }
    if width == 0 {
        return false;
    }
    let ghost g0 = grid@;
    let mut changed = false;
    let mut x: isize = 0;
    let mut y: isize = 0;
    while y < height
        invariant
            width == grid@.width,
            height == grid@.height,
            grid@.wf(),
            0 <= x < width,
            0 <= y,
            pass_from(grid@, x as int, y as int) == full_pass(g0),
            (changed || pass_fires_from(grid@, x as int, y as int)) == pass_changes(g0),
        decreases height - y, width - x,
    {
        proof {
            lemma_deduce(grid@, x as int, y as int);
        }
        let c = apply_rule(grid, x, y);
        changed = changed || c;
        x = x + 1;
        if x >= width {
            x = 0;
            y = y + 1;
        }
    }
    changed
}

/// Repeats full passes until one makes no deduction. Returns the number of
/// passes that made one.
pub fn solve(grid: &mut PictureGrid) -> (passes: usize)
    ensures
        final(grid)@ == fixpoint(old(grid)@),
        passes == productive_passes(old(grid)@),
        passes <= old(grid)@.width * old(grid)@.height,
        keeps_hints(old(grid)@, final(grid)@),
        keeps_solved(old(grid)@, final(grid)@),
{
    proof {
        grid.lemma_view();
        lemma_fixpoint(grid@);
        lemma_productive_passes_bound(grid@);
        lemma_unsolved_total_bound(grid@);
    }
    let ghost g0 = grid@;
    let mut passes: usize = 0;
    loop
        invariant
            grid@.wf(),
            fixpoint(grid@) == fixpoint(g0),
            passes + productive_passes(grid@) == productive_passes(g0),
            productive_passes(g0) <= g0.width * g0.height,
            g0.width <= u16::MAX,
            g0.height <= u16::MAX,
        ensures
            grid@ == fixpoint(g0),
            passes == productive_passes(g0),
        decreases grid@.unsolved_total(),
    {
        let ghost before = grid@;
        proof {
            lemma_pass_from(before, 0, 0);
        }
        let changed = run_pass(grid);
        if !changed {
            break;
        }
        proof {
            assert(g0.width * g0.height <= u16::MAX * u16::MAX) by (nonlinear_arith)
                requires
                    g0.width <= u16::MAX,
                    g0.height <= u16::MAX,
            ;
        }
        passes = passes + 1;
    }
    passes
}

/// The number of productive passes is at most the number of unsolved cells.
pub proof fn lemma_productive_passes_bound(g: GridView)
    requires
        g.wf(),
    ensures
        productive_passes(g) <= g.unsolved_total(),
    decreases g.unsolved_total(),
{
    if pass_changes(g) {
        lemma_pass_from(g, 0, 0);
        lemma_productive_passes_bound(full_pass(g));
    }
}

/// A grid reached by passes, and the fixpoint, solve onward from where they started.
pub proof fn lemma_fixpoint(g: GridView)
    requires
        g.wf(),
    ensures
        solves_onward(g, fixpoint(g)),
        !pass_changes(fixpoint(g)),
    decreases g.unsolved_total(),
{
    lemma_pass_from(g, 0, 0);
    if pass_changes(g) {
        lemma_fixpoint(full_pass(g));
        lemma_solves_onward_trans(g, full_pass(g), fixpoint(g));
    } else {
        assert(solves_onward(g, g));
    }
}

/// Hints never change: the rule at any cell, a full pass and the run to the
/// fixpoint keep every cell's hint; only the variant of a cell changes.
pub proof fn lemma_hints_immutable(g: GridView, x: int, y: int)
    requires
        g.wf(),
    ensures
        keeps_hints(g, deduce(g, x, y)),
        keeps_hints(g, full_pass(g)),
        keeps_hints(g, fixpoint(g)),
{
    lemma_deduce(g, x, y);
    lemma_pass_from(g, 0, 0);
    lemma_fixpoint(g);
}

/// Monotonicity: once shaded or unshaded, a cell stays exactly as it is under
/// the rule at any cell, a full pass and the run to the fixpoint.
pub proof fn lemma_solved_cells_stay(g: GridView, x: int, y: int)
    requires
        g.wf(),
    ensures
        keeps_solved(g, deduce(g, x, y)),
        keeps_solved(g, full_pass(g)),
        keeps_solved(g, fixpoint(g)),
{
    lemma_deduce(g, x, y);
    lemma_pass_from(g, 0, 0);
    lemma_fixpoint(g);
}

/// Deduction correctness, cell by cell: with hint `h` at (x, y), `shaded` and
/// `unsolved` cells in its block, every unsolved cell of the block becomes
/// unshaded when `h == shaded`, shaded when `h == shaded + unsolved`, and stays
/// otherwise; no other cell changes. Each keeps its hint.
pub proof fn lemma_deduction_rule(g: GridView, x: int, y: int, a: int, b: int)
    requires
        g.wf(),
    ensures
        ({
            let h = g.cell(x, y).hint_of() as int;
            let shaded = g.shaded_around(x, y) as int;
            let unsolved = g.unsolved_around(x, y) as int;
            let c = g.cell(a, b);
            deduce(g, x, y).cell(a, b) == if near(a, b, x, y) && c is Unsolved {
                if h == shaded {
                    CellState::Unshaded(c.hint_of())
                } else if h == shaded + unsolved {
                    CellState::Shaded(c.hint_of())
                } else {
                    c
                }
            } else {
                c
            }
        }),
{
    let nb = g.neighborhood(x, y);
    lemma_count_partition(nb);
    lemma_count_zero(nb, CellState::Unsolved(0));
    let h = g.cell(x, y).hint_of() as int;
    if g.incomplete_at(x, y) {
        lemma_filled(g, x, y, CellState::Unshaded(0));
        lemma_filled(g, x, y, CellState::Shaded(0));
    } else if near(a, b, x, y) && g.cell(a, b) is Unsolved {
        let k = 3 * (a - x + 1) + (b - y + 1);
        assert(k / 3 == a - x + 1 && k % 3 == b - y + 1);
        assert(nb[k] == g.cell(a, b));
        assert(g.in_bounds(a, b));
        if g.in_bounds(x, y) && is_hint(g.cell(x, y).hint_of()) {
            assert(!g.complete_at(x, y));
        }
    }
}

/// Idempotence at the fixpoint: a full pass that makes no deduction leaves the
/// grid identical, and the fixpoint is such a grid.
pub proof fn lemma_idempotent_at_fixpoint(g: GridView)
    requires
        g.wf(),
    ensures
        !pass_changes(g) ==> full_pass(g) == g,
        !pass_changes(fixpoint(g)),
        full_pass(fixpoint(g)) == fixpoint(g),
{
    lemma_pass_from(g, 0, 0);
    lemma_fixpoint(g);
    lemma_pass_from(fixpoint(g), 0, 0);
}

/// Termination bound: the number of passes that make a deduction before the
/// fixpoint is at most the number of cells.
pub proof fn lemma_pass_count_bound(g: GridView)
    requires
        g.wf(),
    ensures
        productive_passes(g) <= g.width * g.height,
{
    lemma_productive_passes_bound(g);
    lemma_unsolved_total_bound(g);
}

} // verus!
