//! Properties that hold across the board's operations.

use crate::game::{GameCell, has_covered_safe, lemma_neighbors_len, lemma_reached_safe, span, BoardView, CellState, GameState};
use vstd::prelude::*;

verus! {

/// Whether `x` lies on the first or last of `n` rows or columns.
pub open spec fn on_border(x: int, n: int) -> bool {
    x == 0 || x == n - 1
}

/// Every safe cell of `cells` is uncovered.
pub open spec fn all_safe_uncovered(cells: Seq<GameCell>) -> bool {
    forall|i: int| 0 <= i < cells.len() && !(#[trigger] cells[i]).mine ==> cells[i].state == CellState::Uncovered
}

/// No safe cell of `cells` carries a flag.
pub open spec fn no_safe_flagged(cells: Seq<GameCell>) -> bool {
    forall|i: int| 0 <= i < cells.len() && !(#[trigger] cells[i]).mine ==> cells[i].state != CellState::Flagged
}

/// On a grid at least two cells wide and high, a corner cell has 3
/// neighbors, another cell on the edge 5 and an inner cell 8; the number of
/// adjacent mines never exceeds the number of neighbors.
pub proof fn adjacent_mines_bounded(b: BoardView, x: int, y: int)
    requires
        b.in_bounds(x, y),
        b.width >= 2,
        b.height >= 2,
    ensures
        b.adjacent_mines(x, y) <= b.neighbors(x, y).len(),
        b.neighbors(x, y).len() == if on_border(x, b.width as int) && on_border(y, b.height as int) {
            3int
        } else if on_border(x, b.width as int) || on_border(y, b.height as int) {
            5int
        } else {
            8int
        },
{
    lemma_neighbors_len(b, x, y);
    let w = b.width as int;
    let m = b.mines();
    b.neighbors(x, y).lemma_filter_len(|p: (int, int)| m[p.1 * w + p.0]);
    assert(span(x, w) == if on_border(x, w) { 2int } else { 3int });
    assert(span(y, b.height as int) == if on_border(y, b.height as int) { 2int } else { 3int });
}

/// A cascade from a safe cell uncovers no mine.
pub proof fn cascade_skips_mines(b: BoardView, x: int, y: int)
    requires
        b.shaped(),
        b.in_bounds(x, y),
        !b.cell(x, y).mine,
    ensures
        forall|j: int| 0 <= j < b.cells.len() && #[trigger] b.revealed(b.index(x, y), j) ==> !b.cells[j].mine,
{
    let o = b.index(x, y);
    crate::game::lemma_index_in_range(b.width as int, b.height as int, x, y);
    assert forall|j: int| 0 <= j < b.cells.len() && #[trigger] b.revealed(o, j) implies !b.cells[j].mine by {
        let k = choose|k: nat| b.reaches(o, k, j);
        lemma_reached_safe(b, o, k, j);
    }
}

/// On a settled board every cell reached from an uncovered cell is that
/// cell itself.
proof fn lemma_reached_from_uncovered(b: BoardView, o: int, k: nat, j: int)
    requires
        b.wf(),
        0 <= o < b.cells.len(),
        b.cells[o].state == CellState::Uncovered,
        b.reaches(o, k, j),
    ensures
        j == o,
    decreases k,
{
    if j != o {
        let i = choose|i: int| b.reaches(o, (k - 1) as nat, i) && #[trigger] b.spreads(i, j);
        lemma_reached_from_uncovered(b, o, (k - 1) as nat, i);
    }
}

/// Opening an uncovered cell again, in a game that goes on with some safe
/// cell still covered, changes neither a cell nor the outcome.
pub proof fn reopen_changes_nothing(b: BoardView, x: int, y: int)
    requires
        b.wf(),
        b.in_bounds(x, y),
        b.cell(x, y).state == CellState::Uncovered,
        b.state == GameState::Continue,
        has_covered_safe(b.cells),
    ensures
        b.after_open(x, y) == b,
{
    let o = b.index(x, y);
    crate::game::lemma_index_in_range(b.width as int, b.height as int, x, y);
    assert forall|j: int| 0 <= j < b.cells.len() implies #[trigger] b.reveal_from(o)[j] == b.cells[j] by {
        if b.revealed(o, j) {
            let k = choose|k: nat| b.reaches(o, k, j);
            lemma_reached_from_uncovered(b, o, k, j);
        }
    }
    assert(b.reveal_from(o) =~= b.cells);
}

/// In a game that goes on, opening a cell loses exactly when it hides a
/// mine; opening a safe cell wins exactly when no safe cell is left covered,
/// which, while no safe cell is flagged, is exactly when every safe cell is
/// uncovered.
pub proof fn open_outcome(b: BoardView, x: int, y: int)
    requires
        b.wf(),
        b.in_bounds(x, y),
        b.state == GameState::Continue,
    ensures
        b.after_open(x, y).state == GameState::Lost <==> b.cell(x, y).mine,
        !b.cell(x, y).mine ==> (b.after_open(x, y).state == GameState::Won <==> !has_covered_safe(b.after_open(x, y).cells)),
        !b.cell(x, y).mine && no_safe_flagged(b.after_open(x, y).cells) ==> (b.after_open(x, y).state == GameState::Won
            <==> all_safe_uncovered(b.after_open(x, y).cells)),
{
    let a = b.after_open(x, y);
    if !b.cell(x, y).mine && no_safe_flagged(a.cells) {
        if all_safe_uncovered(a.cells) {
            assert(!has_covered_safe(a.cells));
        }
        if !has_covered_safe(a.cells) {
            assert forall|i: int| 0 <= i < a.cells.len() && !(#[trigger] a.cells[i]).mine implies a.cells[i].state == CellState::Uncovered by {
                assert(!(a.cells[i].state == CellState::Covered && !a.cells[i].mine));
            }
        }
    }
}

} // verus!
