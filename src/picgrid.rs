//! Grid for picture: cell states, the grid storage and its neighbourhood queries.

use vstd::prelude::*;

verus! {

/// State of one cell, each carrying the cell's hint.
#[derive(Clone, Copy, Debug, PartialEq, Eq, Structural)]
pub enum CellState {
    /// Cell is not solved yet.
    Unsolved(u8),
    /// Cell is solved and should be shaded.
    Shaded(u8),
    /// Cell is solved and should be unshaded.
    Unshaded(u8),
}

impl CellState {
    /// The hint carried by any variant.
    pub open spec fn hint_of(self) -> u8 {
        match self {
            CellState::Unsolved(h) => h,
            CellState::Shaded(h) => h,
            CellState::Unshaded(h) => h,
        }
    }

    /// Returns the common hint value in the enumeration.
    pub fn hint(self) -> (r: u8)
        ensures
            r == self.hint_of(),
    {
        match self {
            CellState::Unsolved(val) => val,
            CellState::Shaded(val) => val,
            CellState::Unshaded(val) => val,
        }
    }
}

/// Whether two cell states are the same variant, whatever their hints.
pub open spec fn same_variant(c: CellState, v: CellState) -> bool {
    ||| (c is Unsolved && v is Unsolved)
    ||| (c is Shaded && v is Shaded)
    ||| (c is Unshaded && v is Unshaded)
}

/// The variant of `v` carrying the hint of `c`.
pub open spec fn with_variant(c: CellState, v: CellState) -> CellState {
    match v {
        CellState::Unsolved(_) => CellState::Unsolved(c.hint_of()),
        CellState::Shaded(_) => CellState::Shaded(c.hint_of()),
        CellState::Unshaded(_) => CellState::Unshaded(c.hint_of()),
    }
}

/// Whether a hint value is a real hint (below the "no hint" sentinel).
pub open spec fn is_hint(h: u8) -> bool {
    h < PictureGrid::EMPTY
}

/// Number of cells of `s` that are the same variant as `v`.
pub open spec fn count_of(s: Seq<CellState>, v: CellState) -> nat
    decreases s.len(),
{
    if s.len() == 0 {
        0
    } else {
        count_of(s.drop_last(), v) + if same_variant(s.last(), v) {
            1nat
        } else {
            0nat
        }
    }
}

/// Number of cells over all rows that are the same variant as `v`.
pub open spec fn count_rows(rows: Seq<Seq<CellState>>, v: CellState) -> nat
    decreases rows.len(),
{
    if rows.len() == 0 {
        0
    } else {
        count_rows(rows.drop_last(), v) + count_of(rows.last(), v)
    }
}

/// Mathematical model of a grid: its size and its cells, row by row.
pub struct GridView {
    pub width: nat,
    pub height: nat,
    pub rows: Seq<Seq<CellState>>,
}

impl GridView {
    /// The grid of the given size whose cells are `cells` in row-major order.
    pub open spec fn from_cells(width: nat, height: nat, cells: Seq<CellState>) -> GridView {
        GridView {
            width,
            height,
            rows: Seq::new(height, |b: int| Seq::new(width, |a: int| cells[b * width + a])),
        }
    }

    /// The grid of the given size whose cells are all `Unsolved(EMPTY)`.
    pub open spec fn blank(width: nat, height: nat) -> GridView {
        GridView {
            width,
            height,
            rows: Seq::new(
                height,
                |b: int| Seq::new(width, |a: int| CellState::Unsolved(PictureGrid::EMPTY)),
            ),
        }
    }

    /// Every row holds `width` cells and there are `height` rows.
    pub open spec fn wf(self) -> bool {
        &&& self.rows.len() == self.height
        &&& forall|b: int| 0 <= b < self.height ==> #[trigger] self.rows[b].len() == self.width
    }

    /// (x, y) is a stored cell.
    pub open spec fn in_bounds(self, x: int, y: int) -> bool {
        0 <= x < self.width && 0 <= y < self.height
    }

    /// The cell at (x, y); outside the grid, the virtual border `Unshaded(EMPTY)`.
    pub open spec fn cell(self, x: int, y: int) -> CellState {
        if self.in_bounds(x, y) {
            self.rows[y][x]
        } else {
            CellState::Unshaded(PictureGrid::EMPTY)
        }
    }

    /// The nine cells of the 3x3 block centred on (x, y), column by column.
    pub open spec fn neighborhood(self, x: int, y: int) -> Seq<CellState> {
        Seq::new(9, |k: int| self.cell(x - 1 + k / 3, y - 1 + k % 3))
    }

    /// Shaded cells of the block centred on (x, y).
    pub open spec fn shaded_around(self, x: int, y: int) -> nat {
        count_of(self.neighborhood(x, y), CellState::Shaded(0))
    }

    /// Unshaded cells of the block centred on (x, y), the border included.
    pub open spec fn unshaded_around(self, x: int, y: int) -> nat {
        count_of(self.neighborhood(x, y), CellState::Unshaded(0))
    }

    /// Unsolved cells of the block centred on (x, y).
    pub open spec fn unsolved_around(self, x: int, y: int) -> nat {
        count_of(self.neighborhood(x, y), CellState::Unsolved(0))
    }

    /// No cell of the 3x3 block centred on (x, y) is unsolved.
    pub open spec fn complete_at(self, x: int, y: int) -> bool {
        forall|k: int| 0 <= k < 9 ==> !(#[trigger] self.neighborhood(x, y)[k] is Unsolved)
    }

    /// The cell at (x, y) carries a hint and its block is not complete yet.
    pub open spec fn incomplete_at(self, x: int, y: int) -> bool {
        &&& self.in_bounds(x, y)
        &&& is_hint(self.cell(x, y).hint_of())
        &&& !self.complete_at(x, y)
    }

    /// The first cell, from (x, y) on in row-major order, that is incomplete
    /// (see `incomplete_at`); `None` if no such cell follows.
    pub open spec fn first_incomplete(self, x: int, y: int) -> Option<(int, int)>
        decreases self.height - y, self.width - x,
    {
        if !self.in_bounds(x, y) {
            None
        } else if self.incomplete_at(x, y) {
            Some((x, y))
        } else if x + 1 < self.width {
            self.first_incomplete(x + 1, y)
        } else {
            self.first_incomplete(0, y + 1)
        }
    }

    /// Where a row-major scan that starts at (x, y) finds its first incomplete cell.
    /// Positions left of or above the grid hold no hint, so a scan that starts there
    /// goes on at the first stored cell after them; one that starts right of or below
    /// the grid finds nothing.
    pub open spec fn next_incomplete_from(self, x: int, y: int) -> Option<(int, int)> {
        if x >= self.width || y >= self.height {
            None
        } else if y < 0 {
            self.first_incomplete(0, 0)
        } else if x < 0 {
            self.first_incomplete(0, y)
        } else {
            self.first_incomplete(x, y)
        }
    }

    /// Number of unsolved cells in the whole grid.
    pub open spec fn unsolved_total(self) -> nat {
        count_rows(self.rows, CellState::Unsolved(0))
    }

    /// The grid with the cell at (x, y) replaced by `c`; unchanged when (x, y) is outside.
    pub open spec fn set_cell(self, x: int, y: int, c: CellState) -> GridView {
        if self.in_bounds(x, y) {
            GridView { rows: self.rows.update(y, self.rows[y].update(x, c)), ..self }
        } else {
            self
        }
    }

    /// The grid with the cell at (x, y) turned to the variant of `v`, keeping its hint,
    /// if that cell is unsolved; unchanged otherwise.
    pub open spec fn set_unsolved_cell(self, x: int, y: int, v: CellState) -> GridView {
        if self.cell(x, y) is Unsolved {
            self.set_cell(x, y, with_variant(self.cell(x, y), v))
        } else {
            self
        }
    }

    /// `set_unsolved_cell` applied to the nine positions of the block centred on (x, y).
    pub open spec fn filled(self, x: int, y: int, v: CellState) -> GridView {
        self.set_unsolved_cell(x - 1, y - 1, v).set_unsolved_cell(x, y - 1, v).set_unsolved_cell(
            x + 1,
            y - 1,
            v,
        ).set_unsolved_cell(x - 1, y, v).set_unsolved_cell(x, y, v).set_unsolved_cell(
            x + 1,
            y,
            v,
        ).set_unsolved_cell(x - 1, y + 1, v).set_unsolved_cell(x, y + 1, v).set_unsolved_cell(
            x + 1,
            y + 1,
            v,
        )
    }
}

/// `count_of` never exceeds the length.
pub proof fn lemma_count_bound(s: Seq<CellState>, v: CellState)
    ensures
        count_of(s, v) <= s.len(),
    decreases s.len(),
{
    if s.len() > 0 {
        lemma_count_bound(s.drop_last(), v);
    }
}

/// `count_of` is zero exactly when no cell is the variant of `v`.
pub proof fn lemma_count_zero(s: Seq<CellState>, v: CellState)
    ensures
        (count_of(s, v) == 0) == (forall|k: int| 0 <= k < s.len() ==> !same_variant(#[trigger] s[k], v)),
    decreases s.len(),
{
    if s.len() > 0 {
        lemma_count_zero(s.drop_last(), v);
        if count_of(s, v) == 0 {
            assert forall|k: int| 0 <= k < s.len() implies !same_variant(#[trigger] s[k], v) by {
                if k < s.len() - 1 {
                    assert(s[k] == s.drop_last()[k]);
                }
            }
        }
        if forall|k: int| 0 <= k < s.len() ==> !same_variant(#[trigger] s[k], v) {
            assert forall|k: int| 0 <= k < s.drop_last().len() implies !same_variant(
                #[trigger] s.drop_last()[k],
                v,
            ) by {
                assert(s[k] == s.drop_last()[k]);
            }
        }
    }
}

/// Each cell is exactly one of the three variants.
pub proof fn lemma_count_partition(s: Seq<CellState>)
    ensures
        count_of(s, CellState::Unsolved(0)) + count_of(s, CellState::Shaded(0)) + count_of(
            s,
            CellState::Unshaded(0),
        ) == s.len(),
    decreases s.len(),
{
    if s.len() > 0 {
        lemma_count_partition(s.drop_last());
    }
}

/// Counting over a sequence that, cell by cell, has no more of `v`'s variant
/// than another gives no more; strictly fewer if one cell lost it.
pub proof fn lemma_count_mono(s1: Seq<CellState>, s2: Seq<CellState>, v: CellState)
    requires
        s1.len() == s2.len(),
        forall|k: int| 0 <= k < s1.len() && same_variant(#[trigger] s2[k], v) ==> same_variant(s1[k], v),
    ensures
        count_of(s2, v) <= count_of(s1, v),
        (exists|k: int| 0 <= k < s1.len() && same_variant(s1[k], v) && !same_variant(#[trigger] s2[k], v))
            ==> count_of(s2, v) < count_of(s1, v),
    decreases s1.len(),
{
    if s1.len() > 0 {
        let n = s1.len() - 1;
        assert forall|k: int| 0 <= k < s1.drop_last().len() && same_variant(#[trigger] s2.drop_last()[k], v)
            implies same_variant(s1.drop_last()[k], v) by {
            assert(s2.drop_last()[k] == s2[k]);
        }
        lemma_count_mono(s1.drop_last(), s2.drop_last(), v);
        if exists|k: int| 0 <= k < s1.len() && same_variant(s1[k], v) && !same_variant(#[trigger] s2[k], v) {
            let k = choose|k: int| 0 <= k < s1.len() && same_variant(s1[k], v) && !same_variant(#[trigger] s2[k], v);
            if k < n {
                assert(s1.drop_last()[k] == s1[k]);
                assert(s2.drop_last()[k] == s2[k]);
            }
        }
    }
}

/// Row-wise form of `lemma_count_mono` over sequences of equally long rows.
pub proof fn lemma_count_rows_mono(r1: Seq<Seq<CellState>>, r2: Seq<Seq<CellState>>, v: CellState)
    requires
        r1.len() == r2.len(),
        forall|b: int| 0 <= b < r1.len() ==> (#[trigger] r1[b]).len() == r2[b].len(),
        forall|b: int, a: int|
            0 <= b < r1.len() && 0 <= a < r1[b].len() && same_variant(#[trigger] r2[b][a], v)
                ==> same_variant(r1[b][a], v),
    ensures
        count_rows(r2, v) <= count_rows(r1, v),
        (exists|b: int, a: int|
            0 <= b < r1.len() && 0 <= a < r1[b].len() && same_variant(r1[b][a], v) && !same_variant(
                #[trigger] r2[b][a],
                v,
            )) ==> count_rows(r2, v) < count_rows(r1, v),
    decreases r1.len(),
{
    if r1.len() > 0 {
        let n = r1.len() - 1;
        lemma_count_rows_mono(r1.drop_last(), r2.drop_last(), v);
        lemma_count_mono(r1[n], r2[n], v);
        if exists|b: int, a: int|
            0 <= b < r1.len() && 0 <= a < r1[b].len() && same_variant(r1[b][a], v) && !same_variant(
                #[trigger] r2[b][a],
                v,
            ) {
            let (b, a) = choose|b: int, a: int|
                0 <= b < r1.len() && 0 <= a < r1[b].len() && same_variant(r1[b][a], v)
                    && !same_variant(#[trigger] r2[b][a], v);
            if b < n {
                assert(r1.drop_last()[b] == r1[b]);
                assert(r2.drop_last()[b] == r2[b]);
            }
        }
    }
}

/// Whether `c` is the variant of `v`.
fn is_same_variant(c: CellState, v: CellState) -> (r: bool)
    ensures
        r == same_variant(c, v),
{
    match (c, v) {
        (CellState::Unsolved(_), CellState::Unsolved(_)) => true,
        (CellState::Shaded(_), CellState::Shaded(_)) => true,
        (CellState::Unshaded(_), CellState::Unshaded(_)) => true,
        _ => false,
    }
}

/// Whether (a, b) lies in the 3x3 block centred on (x, y).
pub open spec fn near(a: int, b: int, x: int, y: int) -> bool {
    x - 1 <= a <= x + 1 && y - 1 <= b <= y + 1
}

/// `b` has the size of `a` and every cell keeps its hint.
pub open spec fn keeps_hints(a: GridView, b: GridView) -> bool {
    &&& a.width == b.width
    &&& a.height == b.height
    &&& forall|x: int, y: int| (#[trigger] b.cell(x, y)).hint_of() == a.cell(x, y).hint_of()
}

/// Every cell that is solved in `a` is the same in `b`.
pub open spec fn keeps_solved(a: GridView, b: GridView) -> bool {
    forall|x: int, y: int| !(a.cell(x, y) is Unsolved) ==> #[trigger] b.cell(x, y) == a.cell(x, y)
}

/// `b` is a well-formed grid that `a` becomes by solving cells only.
pub open spec fn solves_onward(a: GridView, b: GridView) -> bool {
    &&& b.wf()
    &&& keeps_hints(a, b)
    &&& keeps_solved(a, b)
}

/// Solving onward is transitive.
pub proof fn lemma_solves_onward_trans(a: GridView, b: GridView, c: GridView)
    requires
        solves_onward(a, b),
        solves_onward(b, c),
    ensures
        solves_onward(a, c),
{
    assert forall|x: int, y: int| (#[trigger] c.cell(x, y)).hint_of() == a.cell(x, y).hint_of() by {
        assert(b.cell(x, y).hint_of() == a.cell(x, y).hint_of());
    }
    assert forall|x: int, y: int| !(a.cell(x, y) is Unsolved) implies #[trigger] c.cell(x, y) == a.cell(
        x,
        y,
    ) by {
        assert(b.cell(x, y) == a.cell(x, y));
    }
}

/// What `set_unsolved_cell` does, cell by cell.
pub proof fn lemma_set_unsolved_cell(g: GridView, x: int, y: int, v: CellState)
    requires
        g.wf(),
    ensures
        g.set_unsolved_cell(x, y, v).wf(),
        g.set_unsolved_cell(x, y, v).width == g.width,
        g.set_unsolved_cell(x, y, v).height == g.height,
        forall|a: int, b: int| #[trigger]
            g.set_unsolved_cell(x, y, v).cell(a, b) == if a == x && b == y && g.cell(x, y) is Unsolved {
                with_variant(g.cell(x, y), v)
            } else {
                g.cell(a, b)
            },
{
    let r = g.set_unsolved_cell(x, y, v);
    assert forall|b: int| 0 <= b < r.height implies #[trigger] r.rows[b].len() == r.width by {
        assert(g.rows[b].len() == g.width);
    }
}

/// What `filled` does, cell by cell: each unsolved cell of the block takes the
/// variant of `v` and keeps its hint; every other cell stays.
pub proof fn lemma_filled(g: GridView, x: int, y: int, v: CellState)
    requires
        g.wf(),
    ensures
        g.filled(x, y, v).wf(),
        g.filled(x, y, v).width == g.width,
        g.filled(x, y, v).height == g.height,
        forall|a: int, b: int| #[trigger]
            g.filled(x, y, v).cell(a, b) == if near(a, b, x, y) && g.cell(a, b) is Unsolved {
                with_variant(g.cell(a, b), v)
            } else {
                g.cell(a, b)
            },
{
    let g1 = g.set_unsolved_cell(x - 1, y - 1, v);
    let g2 = g1.set_unsolved_cell(x, y - 1, v);
    let g3 = g2.set_unsolved_cell(x + 1, y - 1, v);
    let g4 = g3.set_unsolved_cell(x - 1, y, v);
    let g5 = g4.set_unsolved_cell(x, y, v);
    let g6 = g5.set_unsolved_cell(x + 1, y, v);
    let g7 = g6.set_unsolved_cell(x - 1, y + 1, v);
    let g8 = g7.set_unsolved_cell(x, y + 1, v);
    let g9 = g8.set_unsolved_cell(x + 1, y + 1, v);
    lemma_set_unsolved_cell(g, x - 1, y - 1, v);
    lemma_set_unsolved_cell(g1, x, y - 1, v);
    lemma_set_unsolved_cell(g2, x + 1, y - 1, v);
    lemma_set_unsolved_cell(g3, x - 1, y, v);
    lemma_set_unsolved_cell(g4, x, y, v);
    lemma_set_unsolved_cell(g5, x + 1, y, v);
    lemma_set_unsolved_cell(g6, x - 1, y + 1, v);
    lemma_set_unsolved_cell(g7, x, y + 1, v);
    lemma_set_unsolved_cell(g8, x + 1, y + 1, v);
    assert forall|a: int, b: int| #[trigger]
        g9.cell(a, b) == if near(a, b, x, y) && g.cell(a, b) is Unsolved {
            with_variant(g.cell(a, b), v)
        } else {
            g.cell(a, b)
        } by {
        assert(g1.cell(a, b) == g.set_unsolved_cell(x - 1, y - 1, v).cell(a, b));
        assert(g2.cell(a, b) == g1.set_unsolved_cell(x, y - 1, v).cell(a, b));
        assert(g3.cell(a, b) == g2.set_unsolved_cell(x + 1, y - 1, v).cell(a, b));
        assert(g4.cell(a, b) == g3.set_unsolved_cell(x - 1, y, v).cell(a, b));
        assert(g5.cell(a, b) == g4.set_unsolved_cell(x, y, v).cell(a, b));
        assert(g6.cell(a, b) == g5.set_unsolved_cell(x + 1, y, v).cell(a, b));
        assert(g7.cell(a, b) == g6.set_unsolved_cell(x - 1, y + 1, v).cell(a, b));
        assert(g8.cell(a, b) == g7.set_unsolved_cell(x, y + 1, v).cell(a, b));
        assert(g9.cell(a, b) == g8.set_unsolved_cell(x + 1, y + 1, v).cell(a, b));
    }
}

/// A grid that solves onward from another has no more unsolved cells, and
/// strictly fewer if one of its cells got solved.
pub proof fn lemma_unsolved_total_mono(g1: GridView, g2: GridView)
    requires
        g1.wf(),
        solves_onward(g1, g2),
    ensures
        g2.unsolved_total() <= g1.unsolved_total(),
        (exists|a: int, b: int|
            g1.in_bounds(a, b) && g1.cell(a, b) is Unsolved && !(#[trigger] g2.cell(a, b) is Unsolved))
            ==> g2.unsolved_total() < g1.unsolved_total(),
{
    let u = CellState::Unsolved(0);
    assert forall|b: int, a: int|
        0 <= b < g1.rows.len() && 0 <= a < g1.rows[b].len() && same_variant(
            #[trigger] g2.rows[b][a],
            u,
        ) implies same_variant(g1.rows[b][a], u) by {
        assert(g2.cell(a, b) == g2.rows[b][a]);
    }
    assert forall|b: int| 0 <= b < g1.rows.len() implies (#[trigger] g1.rows[b]).len()
        == g2.rows[b].len() by {
        assert(g2.rows[b].len() == g2.width);
    }
    lemma_count_rows_mono(g1.rows, g2.rows, u);
    if exists|a: int, b: int|
        g1.in_bounds(a, b) && g1.cell(a, b) is Unsolved && !(#[trigger] g2.cell(a, b) is Unsolved) {
        let (a, b) = choose|a: int, b: int|
            g1.in_bounds(a, b) && g1.cell(a, b) is Unsolved && !(#[trigger] g2.cell(a, b) is Unsolved);
        assert(same_variant(g1.rows[b][a], u) && !same_variant(g2.rows[b][a], u));
    }
}

/// No grid has more unsolved cells than cells.
pub proof fn lemma_unsolved_total_bound(g: GridView)
    requires
        g.wf(),
    ensures
        g.unsolved_total() <= g.width * g.height,
{
    lemma_count_rows_bound(g.rows, g.width, CellState::Unsolved(0));
}

proof fn lemma_count_rows_bound(rows: Seq<Seq<CellState>>, w: nat, v: CellState)
    requires
        forall|b: int| 0 <= b < rows.len() ==> (#[trigger] rows[b]).len() == w,
    ensures
        count_rows(rows, v) <= w * rows.len(),
    decreases rows.len(),
{
    if rows.len() > 0 {
        let n = rows.len() - 1;
        lemma_count_rows_bound(rows.drop_last(), w, v);
        lemma_count_bound(rows[n], v);
        let m: int = rows.len() as int;
        let wi: int = w as int;
        assert(wi * n + wi == wi * m) by (nonlinear_arith)
            requires
                n + 1 == m,
        ;
    }
}

/// Boundary counting at the corner (0, 0) of a grid of at least one cell: the
/// five positions left of or above it are the border, `Unshaded(EMPTY)`. They
/// add to the unshaded count only, never to the shaded or unsolved counts, and
/// completeness depends on the four stored positions alone.
pub proof fn lemma_corner_counts(g: GridView)
    requires
        g.wf(),
        g.width >= 1,
        g.height >= 1,
    ensures
        ({
            let nb = g.neighborhood(0, 0);
            let inner = seq![g.cell(0, 0), g.cell(0, 1), g.cell(1, 0), g.cell(1, 1)];
            &&& nb[0] == CellState::Unshaded(PictureGrid::EMPTY)
            &&& nb[1] == CellState::Unshaded(PictureGrid::EMPTY)
            &&& nb[2] == CellState::Unshaded(PictureGrid::EMPTY)
            &&& nb[3] == CellState::Unshaded(PictureGrid::EMPTY)
            &&& nb[6] == CellState::Unshaded(PictureGrid::EMPTY)
            &&& g.shaded_around(0, 0) == count_of(inner, CellState::Shaded(0))
            &&& g.unsolved_around(0, 0) == count_of(inner, CellState::Unsolved(0))
            &&& g.unshaded_around(0, 0) == 5 + count_of(inner, CellState::Unshaded(0))
            &&& g.complete_at(0, 0) == (forall|k: int| 0 <= k < 4 ==> !(#[trigger] inner[k] is Unsolved))
        }),
{
    let nb = g.neighborhood(0, 0);
    let e = CellState::Unshaded(PictureGrid::EMPTY);
    let inner = seq![g.cell(0, 0), g.cell(0, 1), g.cell(1, 0), g.cell(1, 1)];
    let full = seq![e, e, e, e, g.cell(0, 0), g.cell(0, 1), e, g.cell(1, 0), g.cell(1, 1)];
    assert(nb =~= full);
    reveal_with_fuel(count_of, 10);
    assert(full.drop_last() =~= seq![e, e, e, e, g.cell(0, 0), g.cell(0, 1), e, g.cell(1, 0)]);
    assert(full.drop_last().drop_last() =~= seq![e, e, e, e, g.cell(0, 0), g.cell(0, 1), e]);
    assert(full.drop_last().drop_last().drop_last() =~= seq![e, e, e, e, g.cell(0, 0), g.cell(0, 1)]);
    assert(seq![e, e, e, e, g.cell(0, 0), g.cell(0, 1)].drop_last() =~= seq![e, e, e, e, g.cell(0, 0)]);
    assert(seq![e, e, e, e, g.cell(0, 0)].drop_last() =~= seq![e, e, e, e]);
    assert(seq![e, e, e, e].drop_last() =~= seq![e, e, e]);
    assert(seq![e, e, e].drop_last() =~= seq![e, e]);
    assert(seq![e, e].drop_last() =~= seq![e]);
    assert(seq![e].drop_last() =~= Seq::<CellState>::empty());
    assert(inner.drop_last() =~= seq![g.cell(0, 0), g.cell(0, 1), g.cell(1, 0)]);
    assert(seq![g.cell(0, 0), g.cell(0, 1), g.cell(1, 0)].drop_last() =~= seq![g.cell(0, 0), g.cell(0, 1)]);
    assert(seq![g.cell(0, 0), g.cell(0, 1)].drop_last() =~= seq![g.cell(0, 0)]);
    assert(seq![g.cell(0, 0)].drop_last() =~= Seq::<CellState>::empty());
    if g.complete_at(0, 0) {
        assert forall|k: int| 0 <= k < 4 implies !(#[trigger] inner[k] is Unsolved) by {
            if k == 0 {
                assert(nb[4] == inner[0]);
            } else if k == 1 {
                assert(nb[5] == inner[1]);
            } else if k == 2 {
                assert(nb[7] == inner[2]);
            } else {
                assert(nb[8] == inner[3]);
            }
        }
    }
    if forall|k: int| 0 <= k < 4 ==> !(#[trigger] inner[k] is Unsolved) {
        assert(!(inner[0] is Unsolved) && !(inner[1] is Unsolved) && !(inner[2] is Unsolved) && !(inner[3] is Unsolved));
        assert forall|k: int| 0 <= k < 9 implies !(#[trigger] nb[k] is Unsolved) by {
            assert(nb[k] == full[k]);
        }
    }
}

proof fn lemma_index_in_range(x: int, y: int, w: int, h: int)
    requires
        0 <= x < w,
        0 <= y < h,
    ensures
        0 <= y * w + x < w * h,
{
    assert(0 <= y * w + x < w * h) by (nonlinear_arith)
        requires
            0 <= x < w,
            0 <= y < h,
    ;
}

proof fn lemma_index_injective(x1: int, y1: int, x2: int, y2: int, w: int)
    requires
        0 <= x1 < w,
        0 <= x2 < w,
        0 <= y1,
        0 <= y2,
        y1 * w + x1 == y2 * w + x2,
    ensures
        x1 == x2,
        y1 == y2,
{
    if y1 < y2 {
        assert(y1 * w + w <= y2 * w) by (nonlinear_arith)
            requires
                y1 < y2,
                0 <= w,
        ;
    } else if y2 < y1 {
        assert(y2 * w + w <= y1 * w) by (nonlinear_arith)
            requires
                y2 < y1,
                0 <= w,
        ;
    }
}

/// Stores picture grid data: `width * height` cells in row-major order.
pub struct PictureGrid {
    width: u16,
    height: u16,
    cells: Vec<CellState>,
}

impl View for PictureGrid {
    type V = GridView;

    closed spec fn view(&self) -> GridView {
        GridView::from_cells(self.width as nat, self.height as nat, self.cells@)
    }
}

impl PictureGrid {
    /// Signifies that cell has no hint.
    pub const EMPTY: u8 = 10;

    #[verifier::type_invariant]
    spec fn dense(self) -> bool {
        self.cells@.len() == self.width as int * self.height as int
    }

    /// Every grid's model is well formed and its sides fit in `u16`.
    pub proof fn lemma_view(&self)
        ensures
            self@.wf(),
            self@.width <= u16::MAX,
            self@.height <= u16::MAX,
    {
    }

    /// Width of grid.
    pub fn width(&self) -> (r: u16)
        ensures
            r == self@.width,
    {
        self.width
    }

    /// Height of grid.
    pub fn height(&self) -> (r: u16)
        ensures
            r == self@.height,
    {
        self.height
    }

    /// Creates a new picture grid whose cells are all `Unsolved(EMPTY)`.
    pub fn new(width: u16, height: u16) -> (r: PictureGrid)
        ensures
            r@ == GridView::blank(width as nat, height as nat),
    {
        assert(width as int * height as int <= u16::MAX as int * u16::MAX as int)
            by (nonlinear_arith);
        let n: usize = (width as usize) * (height as usize);
        let mut cells: Vec<CellState> = Vec::with_capacity(n);
        let mut i: usize = 0;
        while i < n
            invariant
                i <= n,
                cells@.len() == i,
                forall|j: int| 0 <= j < i ==> cells@[j] == CellState::Unsolved(PictureGrid::EMPTY),
            decreases n - i,
        {
            cells.push(CellState::Unsolved(PictureGrid::EMPTY));
            i = i + 1;
        }
        let r = PictureGrid { width, height, cells };
        assert(r@.rows =~~= GridView::blank(width as nat, height as nat).rows) by {
            assert forall|b: int, a: int| 0 <= b < height && 0 <= a < width implies #[trigger] r@.rows[b][a]
                == CellState::Unsolved(PictureGrid::EMPTY) by {
                lemma_index_in_range(a, b, width as int, height as int);
            }
        }
        r
    }

    /// Sets all cell values, in row-major order.
    pub fn with_values(&mut self, values: Vec<CellState>)
        requires
            values@.len() == old(self)@.width * old(self)@.height,
        ensures
            final(self)@ == GridView::from_cells(old(self)@.width, old(self)@.height, values@),
    {
        self.cells = values;
    }

    /// Get individual cell value; outside the grid, the border `Unshaded(EMPTY)`.
    pub fn get(&self, x: isize, y: isize) -> (r: Option<CellState>)
        ensures
            r == Some(self@.cell(x as int, y as int)),
    {
        proof {
            use_type_invariant(self);
        }
        let mut ret_val = Some(CellState::Unshaded(PictureGrid::EMPTY));
        if x >= 0 && x < self.width as isize && y >= 0 && y < self.height as isize {
            let n = self.cells.len();
            proof {
                lemma_index_in_range(x as int, y as int, self.width as int, self.height as int);
            }
            ret_val = Some(self.cells[(y as usize) * (self.width as usize) + (x as usize)]);
        }
        ret_val
    }

    /// Set individual cell value, hint included; no-op outside the grid.
    pub fn set(&mut self, x: isize, y: isize, value: CellState)
        ensures
            final(self)@ == old(self)@.set_cell(x as int, y as int, value),
        no_unwind
    {
        proof {
            use_type_invariant(&*self);
        }
        if x >= 0 && x < self.width as isize && y >= 0 && y < self.height as isize {
            let w = self.width as usize;
            let n = self.cells.len();
            proof {
                lemma_index_in_range(x as int, y as int, self.width as int, self.height as int);
            }
            let i = (y as usize) * w + (x as usize);
            let ghost before = self@;
            self.cells[i] = value;
            proof {
                let expected = before.set_cell(x as int, y as int, value);
                assert forall|b: int, a: int|
                    0 <= b < self.height && 0 <= a < self.width implies #[trigger] self@.rows[b][a]
                    == expected.rows[b][a] by {
                    lemma_index_in_range(a, b, self.width as int, self.height as int);
                    if b * w + a == i {
                        lemma_index_injective(a, b, x as int, y as int, w as int);
                    }
                }
                assert(self@.rows =~~= expected.rows);
            }
        }
    }

    /// Set individual cell value state only (the hint is kept); when `unsolved_only`,
    /// only an unsolved cell changes.
    fn internal_set_state(&mut self, x: isize, y: isize, value: CellState, unsolved_only: bool)
        ensures
            final(self)@ == if unsolved_only {
                old(self)@.set_unsolved_cell(x as int, y as int, value)
            } else {
                old(self)@.set_cell(
                    x as int,
                    y as int,
                    with_variant(old(self)@.cell(x as int, y as int), value),
                )
            },
    {
        if x >= 0 && x < self.width as isize && y >= 0 && y < self.height as isize {
            let existing = self.get(x, y).unwrap();
            let mut existing_hint: Option<u8> = None;
            match existing {
                CellState::Unsolved(hint) => existing_hint = Some(hint),
                CellState::Shaded(hint) => {
                    if !unsolved_only {
                        existing_hint = Some(hint);
                    }
                },
                CellState::Unshaded(hint) => {
                    if !unsolved_only {
                        existing_hint = Some(hint);
                    }
                },
            }
            if let Some(hint) = existing_hint {
                let new_value = match value {
                    CellState::Unsolved(_hint) => CellState::Unsolved(hint),
                    CellState::Shaded(_hint) => CellState::Shaded(hint),
                    CellState::Unshaded(_hint) => CellState::Unshaded(hint),
                };
                self.set(x, y, new_value);
            }
        }
    }

    /// Set individual cell value state only (the hint is kept).
    pub fn set_state(&mut self, x: isize, y: isize, value: CellState)
        ensures
            final(self)@ == old(self)@.set_cell(
                x as int,
                y as int,
                with_variant(old(self)@.cell(x as int, y as int), value),
            ),
    {
        self.internal_set_state(x, y, value, false)
    }

    /// Set individual cell value state only (the hint is kept), for an unsolved cell only.
    pub fn set_unsolved_state(&mut self, x: isize, y: isize, value: CellState)
        ensures
            final(self)@ == old(self)@.set_unsolved_cell(x as int, y as int, value),
    {
        self.internal_set_state(x, y, value, true)
    }

    /// Fills the unsolved cells of the surrounding 3x3 block with `value`'s variant.
    fn fill(&mut self, x: isize, y: isize, value: CellState)
        ensures
            final(self)@ == old(self)@.filled(x as int, y as int, value),
    {
        if x >= -1 && x <= self.width as isize && y >= -1 && y <= self.height as isize {
            self.set_unsolved_state(x - 1, y - 1, value);
            self.set_unsolved_state(x, y - 1, value);
            self.set_unsolved_state(x + 1, y - 1, value);
            self.set_unsolved_state(x - 1, y, value);
            self.set_unsolved_state(x, y, value);
            self.set_unsolved_state(x + 1, y, value);
            self.set_unsolved_state(x - 1, y + 1, value);
            self.set_unsolved_state(x, y + 1, value);
            self.set_unsolved_state(x + 1, y + 1, value);
        }
    }

    /// Fills surrounding grid with shaded cells (unsolved ones only).
    pub fn fill_shaded(&mut self, x: isize, y: isize)
        ensures
            final(self)@ == old(self)@.filled(x as int, y as int, CellState::Shaded(0)),
    {
        self.fill(x, y, CellState::Shaded(0))
    }

    /// Fills surrounding grid with unshaded cells (unsolved ones only).
    pub fn fill_unshaded(&mut self, x: isize, y: isize)
        ensures
            final(self)@ == old(self)@.filled(x as int, y as int, CellState::Unshaded(0)),
    {
        self.fill(x, y, CellState::Unshaded(0))
    }

    /// The `k`-th cell of the 3x3 block centred on (x, y).
    fn neighbor(&self, x: isize, y: isize, k: usize) -> (r: CellState)
        requires
            k < 9,
        ensures
            r == self@.neighborhood(x as int, y as int)[k as int],
    {
        if x < -1 || x > self.width as isize || y < -1 || y > self.height as isize {
            CellState::Unshaded(PictureGrid::EMPTY)
        } else {
            let dx = (k / 3) as isize;
            let dy = (k % 3) as isize;
            self.get(x - 1 + dx, y - 1 + dy).unwrap()
        }
    }

    /// Number of cells of the 3x3 block centred on (x, y) that are `v`'s variant.
    fn count_around(&self, x: isize, y: isize, v: CellState) -> (r: u8)
        ensures
            r == count_of(self@.neighborhood(x as int, y as int), v),
    {
        let ghost nb = self@.neighborhood(x as int, y as int);
        let mut num: u8 = 0;
        let mut k: usize = 0;
        while k < 9
            invariant
                k <= 9,
                nb == self@.neighborhood(x as int, y as int),
                num == count_of(nb.take(k as int), v),
            decreases 9 - k,
        {
            let c = self.neighbor(x, y, k);
            proof {
                assert(nb.take(k + 1).drop_last() =~= nb.take(k as int));
                lemma_count_bound(nb.take(k as int), v);
            }
            if is_same_variant(c, v) {
                num = num + 1;
            }
            k = k + 1;
        }
        proof {
            assert(nb.take(9) =~= nb);
        }
        num
    }

    /// Finds number of known shaded cells in surrounding grid.
    pub fn num_shaded(&self, x: isize, y: isize) -> (r: u8)
        ensures
            r == self@.shaded_around(x as int, y as int),
    {
        self.count_around(x, y, CellState::Shaded(0))
    }

    /// Finds number of known unshaded cells in surrounding grid (the border counts).
    pub fn num_unshaded(&self, x: isize, y: isize) -> (r: u8)
        ensures
            r == self@.unshaded_around(x as int, y as int),
    {
        self.count_around(x, y, CellState::Unshaded(0))
    }

    /// Finds number of unsolved cells in surrounding grid.
    pub fn num_unsolved(&self, x: isize, y: isize) -> (r: u8)
        ensures
            r == self@.unsolved_around(x as int, y as int),
    {
        self.count_around(x, y, CellState::Unsolved(0))
    }

    /// Finds if surrounding grid is complete (no unsolved).
    pub fn is_complete(&self, x: isize, y: isize) -> (r: bool)
        ensures
            r == self@.complete_at(x as int, y as int),
    {
        let n = self.count_around(x, y, CellState::Unsolved(0));
        proof {
            lemma_count_zero(self@.neighborhood(x as int, y as int), CellState::Unsolved(0));
        }
        n == 0
    }

    /// Get next incomplete cell, starting at (x,y) (without wrapping around): its
    /// position and state, or the start position and `None` if there is none.
    pub fn next_incomplete(&self, x: isize, y: isize) -> (r: (isize, isize, Option<CellState>))
        ensures
            match self@.next_incomplete_from(x as int, y as int) {
                Some((a, b)) => r.0 == a && r.1 == b && r.2 == Some(self@.cell(a, b)),
                None => r.0 == x && r.1 == y && r.2 is None,
            },
    {
        let width = self.width as isize;
        let height = self.height as isize;
        if x >= width || y >= height || width == 0 {
            return (x, y, None);
        }
        let mut next_x: isize = if y < 0 || x < 0 { 0 } else { x };
        let mut next_y: isize = if y < 0 { 0 } else { y };
        let ghost target = self@.next_incomplete_from(x as int, y as int);
        while next_y < height
            invariant
                width == self@.width,
                height == self@.height,
                0 <= next_x,
                0 <= next_y,
                next_y < height ==> next_x < width,
                target == self@.next_incomplete_from(x as int, y as int),
                target == self@.first_incomplete(next_x as int, next_y as int),
            decreases height - next_y, width - next_x,
        {
            let cell = self.get(next_x, next_y).unwrap();
            if cell.hint() < PictureGrid::EMPTY && !self.is_complete(next_x, next_y) {
                return (next_x, next_y, Some(cell));
            }
            next_x = next_x + 1;
            if next_x >= width {
                next_x = 0;
                next_y = next_y + 1;
            }
        }
        (x, y, None)
    }
}

} // verus!
