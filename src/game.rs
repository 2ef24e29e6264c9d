use rand::Rng;
use vstd::prelude::*;

verus! {

/// The visible state of one cell.
#[derive(Debug, PartialEq, Eq, Structural, PartialOrd, Ord, Clone, Copy)]
pub enum CellState {
    Uncovered,
    Covered,
    Flagged,
}

/// One grid position: its visible state and whether it hides a mine.
#[derive(Debug, PartialEq, Eq, Structural, PartialOrd, Ord, Clone, Copy)]
pub struct GameCell {
    pub state: CellState,
    pub mine: bool,
}

/// The outcome of the whole board.
#[derive(Debug, PartialEq, Eq, Structural, PartialOrd, Ord, Hash, Clone, Copy)]
pub enum GameState {
    Won,
    Continue,
    Lost,
}

/// Odds that a freshly drawn cell holds a mine: one in four.
pub const MINE_NUMERATOR: u32 = 1;

pub const MINE_DENOMINATOR: u32 = 4;

/// Relies on rand's `Rng::gen_ratio` on the thread-local generator: it is
/// `true` with probability `numerator / denominator`, never `true` when the
/// numerator is zero and always `true` when both are equal; it panics when
/// the denominator is zero or below the numerator.
#[verifier::external_body]
fn random_ratio(numerator: u32, denominator: u32) -> (r: bool)
    requires
        0 < denominator,
        numerator <= denominator,
    ensures
        numerator == 0 ==> !r,
        numerator == denominator ==> r,
{
    rand::thread_rng().gen_ratio(numerator, denominator)
}

impl Default for GameCell {
    fn default() -> (r: Self)
        ensures
            r.state == CellState::Covered,
            !r.mine,
    {
        GameCell { state: CellState::Covered, mine: false }
    }
}

impl GameCell {
    /// A covered cell that holds a mine with odds of one in four.
    pub fn new() -> (r: Self)
        ensures
            r.state == CellState::Covered,
    {
        GameCell { state: CellState::Covered, mine: random_ratio(MINE_NUMERATOR, MINE_DENOMINATOR) }
    }
}

/// The mathematical model of a board.
pub struct BoardView {
    pub width: nat,
    pub height: nat,
    pub cells: Seq<GameCell>,
    pub state: GameState,
}

/// The cells of the row `y` around column `x` (the column itself only when
/// `center` holds), left to right, clipped to the grid.
pub open spec fn row_around(width: int, height: int, x: int, y: int, center: bool) -> Seq<(int, int)> {
    if 0 <= y < height {
        (if x > 0 { seq![(x - 1, y)] } else { Seq::empty() })
        + (if center { seq![(x, y)] } else { Seq::empty() })
        + (if x + 1 < width { seq![(x + 1, y)] } else { Seq::empty() })
    } else {
        Seq::empty()
    }
}

/// The 3x3 block centred on `(x, y)`, row by row, without its centre,
/// clipped to the grid.
pub open spec fn neighbors_of(width: int, height: int, x: int, y: int) -> Seq<(int, int)> {
    row_around(width, height, x, y - 1, true)
    + row_around(width, height, x, y, false)
    + row_around(width, height, x, y + 1, true)
}

/// How many of the coordinates `ns` hold a mine in the row-major layout `mines`.
pub open spec fn mines_among(width: int, mines: Seq<bool>, ns: Seq<(int, int)>) -> nat {
    ns.filter(|p: (int, int)| mines[p.1 * width + p.0]).len()
}

/// How many cells of `s` hide a mine.
pub open spec fn mined_in(s: Seq<GameCell>) -> nat {
    s.filter(|c: GameCell| c.mine).len()
}

/// How many cells of `s` are flagged.
pub open spec fn flagged_in(s: Seq<GameCell>) -> nat {
    s.filter(|c: GameCell| c.state == CellState::Flagged).len()
}

/// Some cell of `s` is still covered and hides no mine.
pub open spec fn has_covered_safe(s: Seq<GameCell>) -> bool {
    exists|i: int| 0 <= i < s.len() && #[trigger] s[i].state == CellState::Covered && !s[i].mine
}

pub open spec fn pairs_view(v: Seq<(u8, u8)>) -> Seq<(int, int)> {
    v.map_values(|p: (u8, u8)| (p.0 as int, p.1 as int))
}

impl BoardView {
    pub open spec fn len(self) -> nat {
        self.width * self.height
    }

    pub open spec fn in_bounds(self, x: int, y: int) -> bool {
        0 <= x < self.width && 0 <= y < self.height
    }

    pub open spec fn index(self, x: int, y: int) -> int {
        y * self.width + x
    }

    pub open spec fn all_in_bounds(self, v: Seq<(u8, u8)>) -> bool {
        forall|k: int| 0 <= k < v.len() ==> self.in_bounds(#[trigger] v[k].0 as int, v[k].1 as int)
    }

    pub open spec fn cell(self, x: int, y: int) -> GameCell {
        self.cells[self.index(x, y)]
    }

    /// The column of the cell at index `i`.
    pub open spec fn col_of(self, i: int) -> int {
        i % (self.width as int)
    }

    /// The row of the cell at index `i`.
    pub open spec fn row_of(self, i: int) -> int {
        i / (self.width as int)
    }

    /// The mine layout, row by row.
    pub open spec fn mines(self) -> Seq<bool> {
        self.cells.map_values(|c: GameCell| c.mine)
    }

    pub open spec fn neighbors(self, x: int, y: int) -> Seq<(int, int)> {
        neighbors_of(self.width as int, self.height as int, x, y)
    }

    /// Number of mines among the neighbors of `(x, y)`.
    pub open spec fn adjacent_mines(self, x: int, y: int) -> nat {
        mines_among(self.width as int, self.mines(), self.neighbors(x, y))
    }

    /// The cascade may step from cell `i` to cell `j`: `i` has no adjacent
    /// mine, `j` is one of its neighbors, and `j` is not uncovered yet.
    pub open spec fn spreads(self, i: int, j: int) -> bool {
        &&& 0 <= i < self.cells.len()
        &&& 0 <= j < self.cells.len()
        &&& self.adjacent_mines(self.col_of(i), self.row_of(i)) == 0
        &&& self.neighbors(self.col_of(i), self.row_of(i)).contains((self.col_of(j), self.row_of(j)))
        &&& self.cells[j].state != CellState::Uncovered
    }

    /// Cell `q` is a neighbor of `(x, y)` that is not uncovered yet.
    pub open spec fn queued(self, x: int, y: int, q: int) -> bool {
        &&& 0 <= q < self.cells.len()
        &&& self.neighbors(x, y).contains((self.col_of(q), self.row_of(q)))
        &&& self.cells[q].state != CellState::Uncovered
    }

    /// Cell `j` is reached from cell `o` in at most `k` cascade steps.
    pub open spec fn reaches(self, o: int, k: nat, j: int) -> bool
        decreases k,
    {
        j == o || (k > 0 && exists|i: int| self.reaches(o, (k - 1) as nat, i) && #[trigger] self.spreads(i, j))
    }

    /// Opening the safe cell `o` uncovers cell `j`.
    pub open spec fn revealed(self, o: int, j: int) -> bool {
        exists|k: nat| #[trigger] self.reaches(o, k, j)
    }

    /// The cells after a cascade from the safe cell `o`: the revealed ones
    /// are uncovered, the others unchanged.
    pub open spec fn reveal_from(self, o: int) -> Seq<GameCell> {
        Seq::new(
            self.cells.len(),
            |j: int|
                if self.revealed(o, j) {
                    GameCell { state: CellState::Uncovered, mine: self.cells[j].mine }
                } else {
                    self.cells[j]
                },
        )
    }

    /// The board after `open(x, y)`.
    pub open spec fn after_open(self, x: int, y: int) -> BoardView {
        if !self.in_bounds(x, y) {
            self
        } else if self.cell(x, y).mine {
            BoardView {
                width: self.width,
                height: self.height,
                cells: self.cells,
                state: if self.state == GameState::Continue { GameState::Lost } else { self.state },
            }
        } else {
            let cells = self.reveal_from(self.index(x, y));
            BoardView {
                width: self.width,
                height: self.height,
                cells: cells,
                state: if self.state == GameState::Continue && !has_covered_safe(cells) {
                    GameState::Won
                } else {
                    self.state
                },
            }
        }
    }

    /// What `flag(x, y)` returns.
    pub open spec fn flag_result(self, x: int, y: int) -> Option<bool> {
        if !self.in_bounds(x, y) {
            None
        } else {
            match self.cell(x, y).state {
                CellState::Covered => Some(true),
                CellState::Flagged => Some(false),
                CellState::Uncovered => None,
            }
        }
    }

    /// The board after `flag(x, y)`.
    pub open spec fn after_flag(self, x: int, y: int) -> BoardView {
        match self.flag_result(x, y) {
            Some(now_flagged) => BoardView {
                width: self.width,
                height: self.height,
                cells: self.cells.update(
                    self.index(x, y),
                    GameCell {
                        state: if now_flagged { CellState::Flagged } else { CellState::Covered },
                        mine: self.cell(x, y).mine,
                    },
                ),
                state: self.state,
            },
            None => self,
        }
    }

    /// No uncovered cell hides a mine.
    pub open spec fn mines_hidden(self) -> bool {
        forall|i: int| 0 <= i < self.cells.len() && #[trigger] self.cells[i].state == CellState::Uncovered ==> !self.cells[i].mine
    }

    /// Every uncovered cell without adjacent mines has all its neighbors
    /// uncovered: nothing is left for a cascade to do.
    pub open spec fn settled(self) -> bool {
        forall|i: int, j: int| #[trigger] self.spreads(i, j) ==> self.cells[i].state != CellState::Uncovered
    }

    /// The grid holds `width * height` cells and both sides fit a byte.
    pub open spec fn shaped(self) -> bool {
        &&& self.cells.len() == self.len()
        &&& self.width <= 255
        &&& self.height <= 255
    }

    pub open spec fn wf(self) -> bool {
        &&& self.shaped()
        &&& self.mines_hidden()
        &&& self.settled()
    }
}

/// A Minesweeper board.
#[derive(Debug)]
pub struct Game {
    h: u8,
    w: u8,
    cells: Vec<GameCell>,
    state: GameState,
}

impl View for Game {
    type V = BoardView;

    closed spec fn view(&self) -> BoardView {
        BoardView {
            width: self.w as nat,
            height: self.h as nat,
            cells: self.cells@,
            state: self.state,
        }
    }
}

pub(crate) proof fn lemma_index_in_range(w: int, h: int, x: int, y: int)
    requires
        0 <= x < w,
        0 <= y < h,
        w <= 255,
        h <= 255,
    ensures
        0 <= y * w + x < w * h,
        y * w <= 255 * 255,
        w * h <= 255 * 255,
        (y * w + x) % w == x,
        (y * w + x) / w == y,
{
    assert(0 <= y * w) by (nonlinear_arith)
        requires 0 <= y, 0 <= w;
    assert(y * w + x < w * h) by (nonlinear_arith)
        requires 0 <= x < w, 0 <= y < h;
    assert(y * w <= 255 * 255 && w * h <= 255 * 255) by (nonlinear_arith)
        requires 0 <= x < w, 0 <= y < h, w <= 255, h <= 255;
    vstd::arithmetic::div_mod::lemma_fundamental_div_mod_converse(y * w + x, w, y, x);
}

proof fn lemma_grid_fits(w: int, h: int)
    requires
        0 <= w <= 255,
        0 <= h <= 255,
    ensures
        0 <= w * h <= 255 * 255,
{
    assert(0 <= w * h <= 255 * 255) by (nonlinear_arith)
        requires 0 <= w <= 255, 0 <= h <= 255;
}

/// How many columns, or rows, the 3x3 block around `x` keeps within `[0, n)`.
pub open spec fn span(x: int, n: int) -> int {
    (if x > 0 { 1int } else { 0int }) + 1 + (if x + 1 < n { 1int } else { 0int })
}

/// A cell has one neighbor fewer than its clipped 3x3 block has cells.
pub(crate) proof fn lemma_neighbors_len(b: BoardView, x: int, y: int)
    requires
        b.in_bounds(x, y),
    ensures
        b.neighbors(x, y).len() == span(x, b.width as int) * span(y, b.height as int) - 1,
        b.neighbors(x, y).len() <= 8,
{
    let w = b.width as int;
    let h = b.height as int;
    let cols = span(x, w);
    assert(row_around(w, h, x, y, false).len() == cols - 1);
    assert(row_around(w, h, x, y - 1, true).len() == if y > 0 { cols } else { 0 });
    assert(row_around(w, h, x, y + 1, true).len() == if y + 1 < h { cols } else { 0 });
    let rows = span(y, h);
    assert(b.neighbors(x, y).len() == cols * rows - 1) by (nonlinear_arith)
        requires
            b.neighbors(x, y).len() == (if y > 0 { cols } else { 0 }) + cols - 1 + (if y + 1 < h { cols } else { 0 }),
            rows == (if y > 0 { 1int } else { 0int }) + 1 + (if y + 1 < h { 1int } else { 0int });
    assert(cols * rows <= 9) by (nonlinear_arith)
        requires 1 <= cols <= 3, 1 <= rows <= 3;
}

/// Whether a board is well formed does not depend on its outcome.
proof fn lemma_wf_ignores_state(b: BoardView, a: BoardView)
    requires
        b.wf(),
        a.width == b.width,
        a.height == b.height,
        a.cells == b.cells,
    ensures
        a.wf(),
{
    assert forall|i: int, j: int| #[trigger] a.spreads(i, j) implies a.cells[i].state != CellState::Uncovered by {
        assert(b.spreads(i, j));
    }
}

/// Number of unmarked entries of `v`.
pub open spec fn unmarked(v: Seq<bool>) -> nat
    decreases v.len(),
{
    if v.len() == 0 {
        0
    } else {
        unmarked(v.drop_last()) + if v.last() { 0nat } else { 1nat }
    }
}

proof fn lemma_unmarked_mark(v: Seq<bool>, i: int)
    requires
        0 <= i < v.len(),
        !v[i],
    ensures
        unmarked(v.update(i, true)) + 1 == unmarked(v),
    decreases v.len(),
{
    if i == v.len() - 1 {
        assert(v.update(i, true).drop_last() =~= v.drop_last());
    } else {
        lemma_unmarked_mark(v.drop_last(), i);
        assert(v.update(i, true).drop_last() =~= v.drop_last().update(i, true));
    }
}

/// A cell index is its row times the width plus its column.
proof fn lemma_index_of_cell(b: BoardView, j: int)
    requires
        b.shaped(),
        0 <= j < b.cells.len(),
    ensures
        j == b.index(b.col_of(j), b.row_of(j)),
        b.in_bounds(b.col_of(j), b.row_of(j)),
{
    let w = b.width as int;
    let h = b.height as int;
    assert(w > 0) by (nonlinear_arith)
        requires 0 <= j < w * h, 0 <= h;
    vstd::arithmetic::div_mod::lemma_fundamental_div_mod(j, w);
    assert(j / w < h) by (nonlinear_arith)
        requires 0 <= j < w * h, w > 0, j == w * (j / w) + j % w, 0 <= j % w < w;
    assert(j / w >= 0) by (nonlinear_arith)
        requires 0 <= j, w > 0, j == w * (j / w) + j % w, 0 <= j % w < w;
    assert(j == (j / w) * w + j % w) by (nonlinear_arith)
        requires j == w * (j / w) + j % w;
}

/// A cell that the cascade steps into from a cell without adjacent mines
/// hides no mine.
proof fn lemma_spread_is_safe(b: BoardView, i: int, j: int)
    requires
        b.shaped(),
        b.spreads(i, j),
    ensures
        !b.cells[j].mine,
{
    let ns = b.neighbors(b.col_of(i), b.row_of(i));
    let w = b.width as int;
    let m = b.mines();
    let pred = |p: (int, int)| m[p.1 * w + p.0];
    let t = choose|t: int| 0 <= t < ns.len() && ns[t] == (b.col_of(j), b.row_of(j));
    lemma_index_of_cell(b, j);
    if b.cells[j].mine {
        assert(pred(ns[t]));
        ns.lemma_filter_contains(pred, t);
        assert(ns.filter(pred).len() > 0);
    }
}

/// A cell reached from `o` within `k` steps lies on the grid, and is `o` or
/// is entered from a cell without adjacent mines.
pub(crate) proof fn lemma_reached_safe(b: BoardView, o: int, k: nat, j: int)
    requires
        b.shaped(),
        0 <= o < b.cells.len(),
        !b.cells[o].mine,
        b.reaches(o, k, j),
    ensures
        0 <= j < b.cells.len(),
        !b.cells[j].mine,
{
    if j != o {
        let i = choose|i: int| b.reaches(o, (k - 1) as nat, i) && #[trigger] b.spreads(i, j);
        lemma_spread_is_safe(b, i, j);
    }
}

/// Every cell reached from a marked `o` is marked, when marks are closed
/// under the cascade step.
proof fn lemma_reached_marked(b: BoardView, o: int, k: nat, j: int, marked: Seq<bool>)
    requires
        marked.len() == b.cells.len(),
        0 <= o < b.cells.len(),
        marked[o],
        forall|i: int, l: int| 0 <= i < marked.len() && marked[i] && #[trigger] b.spreads(i, l) ==> marked[l],
        b.reaches(o, k, j),
    ensures
        0 <= j < b.cells.len(),
        marked[j],
    decreases k,
{
    if j != o {
        let i = choose|i: int| b.reaches(o, (k - 1) as nat, i) && #[trigger] b.spreads(i, j);
        lemma_reached_marked(b, o, (k - 1) as nat, i, marked);
    }
}

/// A cascade from a safe cell keeps a board well formed.
proof fn lemma_reveal_preserves_wf(b: BoardView, o: int, a: BoardView)
    requires
        b.wf(),
        0 <= o < b.cells.len(),
        !b.cells[o].mine,
        a.width == b.width,
        a.height == b.height,
        a.cells == b.reveal_from(o),
    ensures
        a.wf(),
{
    assert(a.mines() =~= b.mines());
    assert forall|j: int| 0 <= j < a.cells.len() && #[trigger] a.cells[j].state == CellState::Uncovered implies !a.cells[j].mine by {
        if b.revealed(o, j) {
            let k = choose|k: nat| b.reaches(o, k, j);
            lemma_reached_safe(b, o, k, j);
        }
    }
    assert forall|i: int, j: int| #[trigger] a.spreads(i, j) implies a.cells[i].state != CellState::Uncovered by {
        assert(!b.revealed(o, j));
        assert(b.spreads(i, j));
        if b.revealed(o, i) {
            let k = choose|k: nat| b.reaches(o, k, i);
            assert(b.reaches(o, k + 1, j));
        }
    }
}

/// Setting a covered or flagged cell to another covered or flagged state
/// keeps a board well formed.
proof fn lemma_restate_preserves_wf(before: BoardView, i: int, after: BoardView)
    requires
        before.wf(),
        0 <= i < before.cells.len(),
        before.cells[i].state != CellState::Uncovered,
        after.width == before.width,
        after.height == before.height,
        after.cells.len() == before.cells.len(),
        after.cells[i].mine == before.cells[i].mine,
        after.cells[i].state != CellState::Uncovered,
        forall|j: int| 0 <= j < before.cells.len() && j != i ==> after.cells[j] == before.cells[j],
    ensures
        after.wf(),
{
    assert(after.mines() =~= before.mines());
    assert forall|a: int, b: int| #[trigger] after.spreads(a, b) implies after.cells[a].state != CellState::Uncovered by {
        if a != i {
            assert(before.cells[b].state != CellState::Uncovered);
            assert(before.spreads(a, b));
        }
    }
}

impl Game {
    pub open spec fn wf(&self) -> bool {
        self@.wf()
    }

    /// A board of `w` by `h` covered cells, each of which hides a mine with
    /// odds of one in four, drawn independently.
    pub fn new(w: u8, h: u8) -> (r: Self)
        ensures
            r.wf(),
            r@.width == w,
            r@.height == h,
            r@.state == GameState::Continue,
            forall|i: int| 0 <= i < r@.cells.len() ==> #[trigger] r@.cells[i].state == CellState::Covered,
    {
        proof {
            lemma_grid_fits(w as int, h as int);
        }
        let n: usize = (w as usize) * (h as usize);
        let mut cells: Vec<GameCell> = Vec::new();
        while cells.len() < n
            invariant
                n == w * h,
                cells@.len() <= n,
                forall|i: int| 0 <= i < cells@.len() ==> #[trigger] cells@[i].state == CellState::Covered,
            decreases n - cells@.len(),
        {
            cells.push(GameCell::new());
        }
        Game { h, w, cells, state: GameState::Continue }
    }

    /// A board of `w` by `h` covered cells whose mines are given row by row
    /// in `mines`; `None` unless `mines` has exactly `w * h` entries.
    pub fn with_mines(w: u8, h: u8, mines: &Vec<bool>) -> (r: Option<Self>)
        ensures
            r is Some <==> mines@.len() == w * h,
            r matches Some(g) ==> {
                &&& g.wf()
                &&& g@.width == w
                &&& g@.height == h
                &&& g@.state == GameState::Continue
                &&& g@.cells == mines@.map_values(|m: bool| GameCell { state: CellState::Covered, mine: m })
            },
    {
        proof {
            lemma_grid_fits(w as int, h as int);
        }
        let n: usize = (w as usize) * (h as usize);
        if mines.len() != n {
            return None;
        }
        let mut cells: Vec<GameCell> = Vec::new();
        let mut k: usize = 0;
        while k < n
            invariant
                n == w * h,
                n == mines@.len(),
                k <= n,
                cells@ == mines@.take(k as int).map_values(|m: bool| GameCell { state: CellState::Covered, mine: m }),
            decreases n - k,
        {
            cells.push(GameCell { state: CellState::Covered, mine: mines[k] });
            k = k + 1;
            assert(cells@ =~= mines@.take(k as int).map_values(|m: bool| GameCell { state: CellState::Covered, mine: m }));
        }
        assert(mines@.take(n as int) =~= mines@);
        Some(Game { h, w, cells, state: GameState::Continue })
    }

    pub fn height(&self) -> (r: u8)
        ensures
            r == self@.height,
    {
        self.h
    }

    pub fn width(&self) -> (r: u8)
        ensures
            r == self@.width,
    {
        self.w
    }

    pub fn state(&self) -> (r: GameState)
        ensures
            r == self@.state,
    {
        self.state
    }

    fn index(&self, x: u8, y: u8) -> (r: usize)
        requires
            self@.shaped(),
            self@.in_bounds(x as int, y as int),
        ensures
            r == self@.index(x as int, y as int),
            r < self@.cells.len(),
            self@.col_of(r as int) == x,
            self@.row_of(r as int) == y,
    {
        proof {
            lemma_index_in_range(self.w as int, self.h as int, x as int, y as int);
        }
        (y as usize) * (self.w as usize) + (x as usize)
    }

    fn cell(&self, x: u8, y: u8) -> (r: Option<&GameCell>)
        requires
            self@.shaped(),
        ensures
            match r {
                Some(c) => self@.in_bounds(x as int, y as int) && *c == self@.cell(x as int, y as int),
                None => !self@.in_bounds(x as int, y as int),
            },
    {
        if !(x >= self.w || y >= self.h) {
            let i = self.index(x, y);
            Some(&self.cells[i])
        } else {
            None
        }
    }

    /// The state of the cell at `(x, y)`, or `None` off the grid.
    pub fn cell_state(&self, x: u8, y: u8) -> (r: Option<CellState>)
        requires
            self.wf(),
        ensures
            r == (if self@.in_bounds(x as int, y as int) {
                Some(self@.cell(x as int, y as int).state)
            } else {
                None
            }),
    {
        match self.cell(x, y) {
            Some(c) => Some(c.state),
            None => None,
        }
    }

    /// Whether the cell at `(x, y)` hides a mine, or `None` off the grid.
    pub fn has_mine(&self, x: u8, y: u8) -> (r: Option<bool>)
        requires
            self.wf(),
        ensures
            r == (if self@.in_bounds(x as int, y as int) {
                Some(self@.cell(x as int, y as int).mine)
            } else {
                None
            }),
    {
        match self.cell(x, y) {
            Some(c) => Some(c.mine),
            None => None,
        }
    }

    /// The number of mines among the neighbors of `(x, y)`, or `None` off
    /// the grid.
    pub fn adjacent_mines(&self, x: u8, y: u8) -> (r: Option<usize>)
        requires
            self.wf(),
        ensures
            r == (if self@.in_bounds(x as int, y as int) {
                Some(self@.adjacent_mines(x as int, y as int) as usize)
            } else {
                None
            }),
    {
        match self.cell(x, y) {
            Some(_) => Some(self.count_adjacent(x, y)),
            None => None,
        }
    }

    /// The number of cells that hide a mine.
    pub fn mines(&self) -> (r: usize)
        requires
            self.wf(),
        ensures
            r == mined_in(self@.cells),
    {
        let mut n: usize = 0;
        let mut k: usize = 0;
        while k < self.cells.len()
            invariant
                k <= self.cells@.len(),
                n == mined_in(self.cells@.take(k as int)),
                n <= k,
            decreases self.cells@.len() - k,
        {
            proof {
                reveal(Seq::filter);
                assert(self.cells@.take(k + 1).drop_last() =~= self.cells@.take(k as int));
            }
            if self.cells[k].mine {
                n = n + 1;
            }
            k = k + 1;
        }
        assert(self.cells@.take(k as int) =~= self.cells@);
        n
    }

    /// The number of flagged cells.
    pub fn flagged(&self) -> (r: usize)
        requires
            self.wf(),
        ensures
            r == flagged_in(self@.cells),
    {
        let mut n: usize = 0;
        let mut k: usize = 0;
        while k < self.cells.len()
            invariant
                k <= self.cells@.len(),
                n == flagged_in(self.cells@.take(k as int)),
                n <= k,
            decreases self.cells@.len() - k,
        {
            proof {
                reveal(Seq::filter);
                assert(self.cells@.take(k + 1).drop_last() =~= self.cells@.take(k as int));
            }
            if self.cells[k].state == CellState::Flagged {
                n = n + 1;
            }
            k = k + 1;
        }
        assert(self.cells@.take(k as int) =~= self.cells@);
        n
    }

    /// Toggles the flag on the cell at `(x, y)`: `Some(true)` when it is now
    /// flagged, `Some(false)` when it is now covered, and `None`, with no
    /// change, when it is uncovered or off the grid.
    pub fn flag(&mut self, x: u8, y: u8) -> (r: Option<bool>)
        requires
            old(self).wf(),
        ensures
            final(self).wf(),
            r == old(self)@.flag_result(x as int, y as int),
            final(self)@ == old(self)@.after_flag(x as int, y as int),
    {
        let ghost before = self@;
        let ghost i = before.index(x as int, y as int);
        proof {
            if before.in_bounds(x as int, y as int) {
                lemma_index_in_range(before.width as int, before.height as int, x as int, y as int);
            }
        }
        let cell = match self.cell_mut(x, y) {
            Some(cell) => cell,
            None => {
                return None;
            },
        };
        let r = match cell.state {
            CellState::Covered => {
                cell.state = CellState::Flagged;
                Some(true)
            },
            CellState::Flagged => {
                cell.state = CellState::Covered;
                Some(false)
            },
            CellState::Uncovered => None,
        };
        proof {
            if r is Some {
                lemma_restate_preserves_wf(before, i, self@);
            } else {
                assert(self@.cells =~= before.cells);
            }
        }
        r
    }

    /// Opens the cell at `(x, y)`. Off the grid nothing happens. On a mine
    /// the game is lost and no cell changes. On a safe cell the cascade
    /// uncovers it and, through cells without adjacent mines, the region
    /// around it; the game is then won when no safe cell is left covered.
    /// Only a game that still continues changes its outcome.
    pub fn open(&mut self, x: u8, y: u8)
        requires
            old(self).wf(),
        ensures
            final(self).wf(),
            final(self)@ == old(self)@.after_open(x as int, y as int),
    {
        let cell = match self.cell(x, y) {
            Some(c) => *c,
            None => {
                return;
            },
        };
        let ghost before = self@;
        if cell.mine {
            if self.state == GameState::Continue {
                self.state = GameState::Lost;
            }
            proof {
                lemma_wf_ignores_state(before, self@);
            }
            return;
        }
        self.visit(x, y);
        let ghost revealed = self@;
        if self.state == GameState::Continue && !self.any_covered_safe() {
            self.state = GameState::Won;
        }
        proof {
            lemma_wf_ignores_state(revealed, self@);
        }
    }

    /// Whether some safe cell is still covered.
    fn any_covered_safe(&self) -> (r: bool)
        ensures
            r == has_covered_safe(self@.cells),
    {
        let mut k: usize = 0;
        while k < self.cells.len()
            invariant
                k <= self.cells@.len(),
                forall|i: int| 0 <= i < k ==> !(#[trigger] self.cells@[i].state == CellState::Covered && !self.cells@[i].mine),
            decreases self.cells@.len() - k,
        {
            if self.cells[k].state == CellState::Covered && !self.cells[k].mine {
                return true;
            }
            k = k + 1;
        }
        false
    }

    /// Uncovers every cell that opening the safe cell at `(x, y)` reveals,
    /// with an explicit work stack and one visited mark per cell.
    fn visit(&mut self, x: u8, y: u8)
        requires
            old(self).wf(),
            old(self)@.in_bounds(x as int, y as int),
            !old(self)@.cell(x as int, y as int).mine,
        ensures
            final(self).wf(),
            final(self)@.width == old(self)@.width,
            final(self)@.height == old(self)@.height,
            final(self)@.state == old(self)@.state,
            final(self)@.cells == old(self)@.reveal_from(old(self)@.index(x as int, y as int)),
    {
        let ghost b0 = self@;
        let n: usize = self.cells.len();
        let origin: usize = self.index(x, y);
        let ghost o = origin as int;
        let mut visited: Vec<bool> = Vec::new();
        while visited.len() < n
            invariant
                visited@.len() <= n,
                forall|j: int| 0 <= j < visited@.len() ==> !#[trigger] visited@[j],
            decreases n - visited@.len(),
        {
            visited.push(false);
        }
        let mut stack: Vec<usize> = Vec::new();
        stack.push(origin);
        assert(stack@[0] == origin);
        assert(b0.reaches(o, 0, o));
        while stack.len() > 0
            invariant
                self@.shaped(),
                self@.width == b0.width,
                self@.height == b0.height,
                self@.state == b0.state,
                b0.wf(),
                n == b0.cells.len(),
                o == b0.index(x as int, y as int),
                o == origin,
                0 <= o < n,
                !b0.cells[o].mine,
                visited@.len() == n,
                forall|j: int| 0 <= j < n ==> (#[trigger] self@.cells[j]).mine == b0.cells[j].mine,
                forall|j: int| 0 <= j < n && #[trigger] visited@[j] ==> self@.cells[j].state == CellState::Uncovered && b0.revealed(o, j),
                forall|j: int| 0 <= j < n && !#[trigger] visited@[j] ==> self@.cells[j] == b0.cells[j],
                forall|t: int| 0 <= t < stack@.len() ==> 0 <= #[trigger] stack@[t] < n && b0.revealed(o, stack@[t] as int),
                visited@[o] || stack@.contains(origin),
                forall|i: int, j: int| 0 <= i < n && visited@[i] && #[trigger] b0.spreads(i, j) ==> visited@[j] || stack@.contains(j as usize),
            decreases unmarked(visited@) * 9 + stack@.len(),
        {
            let ghost before = stack@;
            let ghost marks = visited@;
            let p: usize = match stack.pop() {
                Some(p) => p,
                None => {
                    return;
                },
            };
            assert(before == stack@.push(p));
            let ghost mid = stack@;
            if !visited[p] {
                let ghost vis0 = visited@;
                let ghost cells0 = self@.cells;
                assert(before[before.len() - 1] == p);
                assert(b0.revealed(o, p as int));
                let ghost k0 = choose|k: nat| b0.reaches(o, k, p as int);
                proof {
                    lemma_unmarked_mark(visited@, p as int);
                    lemma_index_of_cell(self@, p as int);
                }
                visited.set(p, true);
                let px: u8 = (p % (self.w as usize)) as u8;
                let py: u8 = (p / (self.w as usize)) as u8;
                let mine = self.cells[p].mine;
                self.cells.set(p, GameCell { state: CellState::Uncovered, mine });
                let count = self.count_adjacent(px, py);
                proof {
                    assert(self@.mines() =~= b0.mines());
                    assert forall|q: int| 0 <= q < n && q != p && self@.cells[q].state != CellState::Uncovered implies self@.cells[q] == b0.cells[q] by {
                        assert(self@.cells[q] == cells0[q]);
                        if vis0[q] {
                            assert(cells0[q].state == CellState::Uncovered);
                        }
                    }
                }
                if count == 0 {
                    self.queue_neighbors(&mut stack, px, py);
                    proof {
                        assert forall|t: int| mid.len() <= t < stack@.len() implies 0 <= #[trigger] stack@[t] < n && b0.revealed(o, stack@[t] as int) by {
                            let q = stack@[t] as int;
                            assert(self@.queued(px as int, py as int, q));
                            assert(self@.cells[q] == b0.cells[q]);
                            assert(b0.spreads(p as int, q));
                            assert(b0.reaches(o, k0 + 1, q));
                        }
                        assert forall|j: int| #[trigger] b0.spreads(p as int, j) implies visited@[j] || stack@.contains(j as usize) by {
                            if !visited@[j] {
                                assert(j != p);
                                assert(self@.cells[j] == cells0[j]);
                                assert(self@.queued(px as int, py as int, j));
                            }
                        }
                    }
                }
            }
            assert forall|j: usize| mid.contains(j) implies stack@.contains(j) by {
                let t = choose|t: int| 0 <= t < mid.len() && mid[t] == j;
                assert(stack@[t] == j);
            }
            assert(visited@[p as int]);
            assert forall|j: usize| before.contains(j) implies visited@[j as int] || stack@.contains(j) by {
                if j != p {
                    let t = choose|t: int| 0 <= t < before.len() && before[t] == j;
                    assert(t < mid.len());
                    assert(mid[t] == j);
                    assert(mid.contains(j));
                }
            }
            proof {
                if marks[o] {
                    assert(visited@[o]);
                } else {
                    assert(before.contains(origin));
                }
            }
        }
        proof {
            assert forall|j: int| 0 <= j < n && b0.revealed(o, j) implies visited@[j] by {
                let k = choose|k: nat| b0.reaches(o, k, j);
                lemma_reached_marked(b0, o, k, j, visited@);
            }
            assert forall|j: int| 0 <= j < n implies self@.cells[j] == b0.reveal_from(o)[j] by {
                if visited@[j] {
                    assert(b0.revealed(o, j));
                } else {
                    assert(!b0.revealed(o, j));
                }
            }
            assert(self@.cells =~= b0.reveal_from(o));
            lemma_reveal_preserves_wf(b0, o, self@);
        }
    }

    /// Pushes onto `stack` the index of each neighbor of `(x, y)` that is
    /// not uncovered yet.
    fn queue_neighbors(&self, stack: &mut Vec<usize>, x: u8, y: u8)
        requires
            self@.shaped(),
            self@.in_bounds(x as int, y as int),
        ensures
            old(stack)@.len() <= final(stack)@.len() <= old(stack)@.len() + 8,
            forall|t: int| 0 <= t < old(stack)@.len() ==> final(stack)@[t] == old(stack)@[t],
            forall|t: int|
                old(stack)@.len() <= t < final(stack)@.len() ==> self@.queued(x as int, y as int, #[trigger] final(stack)@[t] as int),
            forall|q: int| #[trigger] self@.queued(x as int, y as int, q) ==> final(stack)@.contains(q as usize),
    {
        let adj = self.adj(x, y);
        let ghost ns = pairs_view(adj@);
        let ghost start = stack@;
        proof {
            lemma_neighbors_len(self@, x as int, y as int);
        }
        let mut t: usize = 0;
        while t < adj.len()
            invariant
                self@.shaped(),
                self@.in_bounds(x as int, y as int),
                ns == pairs_view(adj@),
                ns == self@.neighbors(x as int, y as int),
                self@.all_in_bounds(adj@),
                adj@.len() <= 8,
                t <= adj@.len(),
                start.len() <= stack@.len() <= start.len() + t,
                forall|u: int| 0 <= u < start.len() ==> stack@[u] == start[u],
                forall|u: int| start.len() <= u < stack@.len() ==> self@.queued(x as int, y as int, #[trigger] stack@[u] as int),
                forall|u: int| 0 <= u < t ==> !self@.queued(x as int, y as int, self@.index(#[trigger] ns[u].0, ns[u].1))
                    || stack@.contains(self@.index(ns[u].0, ns[u].1) as usize),
            decreases adj@.len() - t,
        {
            let (ax, ay) = adj[t];
            let q = self.index(ax, ay);
            assert(ns[t as int] == (ax as int, ay as int));
            let ghost prior = stack@;
            if self.cells[q].state != CellState::Uncovered {
                stack.push(q);
                assert(stack@[stack@.len() - 1] == q);
                assert forall|v: usize| prior.contains(v) implies stack@.contains(v) by {
                    let i = choose|i: int| 0 <= i < prior.len() && prior[i] == v;
                    assert(stack@[i] == v);
                }
            }
            t = t + 1;
        }
        assert forall|q: int| #[trigger] self@.queued(x as int, y as int, q) implies stack@.contains(q as usize) by {
            let u = choose|u: int| 0 <= u < ns.len() && ns[u] == (self@.col_of(q), self@.row_of(q));
            lemma_index_of_cell(self@, q);
            assert(self@.index(ns[u].0, ns[u].1) == q);
        }
    }

    /// The number of mines among the neighbors of the cell at `(x, y)`.
    fn count_adjacent(&self, x: u8, y: u8) -> (r: usize)
        requires
            self@.shaped(),
            self@.in_bounds(x as int, y as int),
        ensures
            r == self@.adjacent_mines(x as int, y as int),
    {
        let adj = self.adj(x, y);
        let ghost ns = pairs_view(adj@);
        let ghost w = self@.width as int;
        let ghost mines = self@.mines();
        let mut n: usize = 0;
        let mut k: usize = 0;
        while k < adj.len()
            invariant
                self@.shaped(),
                pairs_view(adj@) == ns,
                self@.width == w,
                self@.mines() == mines,
                self@.all_in_bounds(adj@),
                k <= adj@.len(),
                n == mines_among(w, mines, ns.take(k as int)),
                n <= k,
            decreases adj@.len() - k,
        {
            let (ax, ay) = adj[k];
            let i = self.index(ax, ay);
            proof {
                reveal(Seq::filter);
                assert(ns.take(k + 1).drop_last() =~= ns.take(k as int));
                assert(ns.take(k + 1).last() == (ax as int, ay as int));
                assert(mines[i as int] == self.cells@[i as int].mine);
            }
            if self.cells[i].mine {
                n = n + 1;
            }
            k = k + 1;
        }
        assert(ns.take(k as int) =~= ns);
        n
    }

    /// The neighbors of `(x, y)`: the 3x3 block centred on it, row by row,
    /// without its centre, clipped to the grid.
    pub fn adj(&self, x: u8, y: u8) -> (r: Vec<(u8, u8)>)
        requires
            self@.shaped(),
            self@.in_bounds(x as int, y as int),
        ensures
            pairs_view(r@) == self@.neighbors(x as int, y as int),
            self@.all_in_bounds(r@),
    {
        let ghost w = self@.width as int;
        let ghost h = self@.height as int;
        let mut adjacent: Vec<(u8, u8)> = Vec::new();
        if let Some(up) = y.checked_sub(1) {
            self.push_row(&mut adjacent, x, up, true);
        }
        assert(pairs_view(adjacent@) =~= row_around(w, h, x as int, y - 1, true));
        let ghost a = pairs_view(adjacent@);
        self.push_row(&mut adjacent, x, y, false);
        let ghost b = pairs_view(adjacent@);
        if y + 1 < self.h {
            self.push_row(&mut adjacent, x, y + 1, true);
        }
        assert(pairs_view(adjacent@) =~= b + row_around(w, h, x as int, y + 1, true));
        assert(pairs_view(adjacent@) =~= self@.neighbors(x as int, y as int));
        proof {
            assert forall|k: int| 0 <= k < adjacent@.len() implies self@.in_bounds(
                #[trigger] adjacent@[k].0 as int,
                adjacent@[k].1 as int,
            ) by {
                assert(pairs_view(adjacent@)[k] == (adjacent@[k].0 as int, adjacent@[k].1 as int));
            }
        }
        adjacent
    }

    /// The cell at `(x, y)` for writing, or `None` off the grid.
    fn cell_mut(&mut self, x: u8, y: u8) -> (r: Option<&mut GameCell>)
        requires
            old(self)@.shaped(),
        ensures
            final(self).w == old(self).w,
            final(self).h == old(self).h,
            final(self).state == old(self).state,
            match r {
                Some(c) => {
                    &&& old(self)@.in_bounds(x as int, y as int)
                    &&& *c == old(self)@.cell(x as int, y as int)
                    &&& final(self)@.cells == old(self)@.cells.update(old(self)@.index(x as int, y as int), *final(c))
                },
                None => !old(self)@.in_bounds(x as int, y as int) && final(self)@.cells == old(self)@.cells,
            },
    {
        if !(x >= self.w || y >= self.h) {
            let i = self.index(x, y);
            Some(&mut self.cells[i])
        } else {
            None
        }
    }

    /// Appends the cells of row `y` around column `x`, clipped to the grid.
    fn push_row(&self, out: &mut Vec<(u8, u8)>, x: u8, y: u8, center: bool)
        requires
            self@.shaped(),
            self@.in_bounds(x as int, y as int),
        ensures
            pairs_view(final(out)@) == pairs_view(old(out)@) + row_around(
                self@.width as int,
                self@.height as int,
                x as int,
                y as int,
                center,
            ),
    {
        let ghost start = pairs_view(out@);
        let ghost w = self@.width as int;
        let ghost h = self@.height as int;
        if let Some(left) = x.checked_sub(1) {
            out.push((left, y));
        }
        assert(pairs_view(out@) =~= start + (if x > 0 { seq![(x - 1, y as int)] } else { Seq::<(int, int)>::empty() }));
        let ghost a = pairs_view(out@);
        if center {
            out.push((x, y));
        }
        assert(pairs_view(out@) =~= a + (if center { seq![(x as int, y as int)] } else { Seq::<(int, int)>::empty() }));
        let ghost b = pairs_view(out@);
        if x + 1 < self.w {
            out.push((x + 1, y));
        }
        assert(pairs_view(out@) =~= b + (if x + 1 < w { seq![(x + 1, y as int)] } else { Seq::<(int, int)>::empty() }));
        assert(pairs_view(out@) =~= start + row_around(w, h, x as int, y as int, center));
    }
}

} // verus!
