//! What holds of every game, whatever the board and the mines drawn.

use vstd::prelude::*;

use crate::board_view::{lemma_count_agree, lemma_idx, lemma_with_cell, BoardView};
use crate::square::SquareView;

verus! {

/// The square that the first reveal names is no mine, and after that no
/// reveal or mark changes what any square holds.
pub proof fn lemma_first_reveal_is_safe(before: BoardView, after: BoardView, x: int, y: int)
    requires
        before.wf(),
        !before.placed,
        before.in_bounds(x, y),
        after.is_show_of(before, x, y),
    ensures
        !after.cell(x, y).is_mine(),
        after.placed,
{
    let mid = choose|mid: BoardView| #[trigger] mid.is_placement_of(before, x, y) && after.is_reveal_of(mid, x, y);
    lemma_reveal_keeps_contents(mid, after, x, y);
}

/// Once the mines are laid, reveals and marks leave every square's content
/// as it was.
pub proof fn lemma_contents_are_kept(before: BoardView, after: BoardView, x: int, y: int)
    requires
        before.wf(),
        before.placed,
        after.is_show_of(before, x, y) || after.is_mark_of(before, x, y),
    ensures
        after.placed,
        after.cells.len() == before.cells.len(),
        forall|a: int, b: int|
            #![trigger after.cell(a, b)]
            before.in_bounds(a, b) ==> after.cell(a, b).content == before.cell(a, b).content,
{
    if before.in_bounds(x, y) {
        if after.is_show_of(before, x, y) {
            lemma_reveal_keeps_contents(before, after, x, y);
        } else {
            lemma_with_cell(before, x, y, before.cell(x, y).marked_up());
            lemma_idx(before.width, before.height, x, y);
        }
    }
}

proof fn lemma_reveal_keeps_contents(before: BoardView, after: BoardView, x: int, y: int)
    requires
        before.wf(),
        before.in_bounds(x, y),
        after.is_reveal_of(before, x, y),
    ensures
        after.placed == before.placed,
        after.cells.len() == before.cells.len(),
        forall|a: int, b: int|
            #![trigger after.cell(a, b)]
            before.in_bounds(a, b) ==> after.cell(a, b).content == before.cell(a, b).content,
{
    if !before.cell(x, y).is_empty() {
        lemma_with_cell(before, x, y, before.cell(x, y).shown());
        lemma_idx(before.width, before.height, x, y);
    }
}

/// Once the mines are laid there are exactly as many as the board was made
/// with; the first reveal lays them.
pub proof fn lemma_mine_count(before: BoardView, after: BoardView, x: int, y: int)
    requires
        before.wf(),
        after.wf(),
        before.in_bounds(x, y),
        after.is_show_of(before, x, y),
    ensures
        after.placed,
        after.mine_count() == before.total_mines,
{
    if before.placed {
        lemma_reveal_keeps_contents(before, after, x, y);
    } else {
        lemma_first_reveal_is_safe(before, after, x, y);
        let mid = choose|mid: BoardView| #[trigger] mid.is_placement_of(before, x, y) && after.is_reveal_of(mid, x, y);
        lemma_reveal_keeps_contents(mid, after, x, y);
    }
}

/// Every square that is no mine holds the number of mines around it once
/// the mines are laid: empty where there are none.
pub proof fn lemma_numbers_are_right(b: BoardView, x: int, y: int)
    requires
        b.wf(),
        b.placed,
        b.in_bounds(x, y),
        !b.cell(x, y).is_mine(),
    ensures
        b.adjacent_mines(x, y) == 0 ==> b.cell(x, y).is_empty(),
        b.adjacent_mines(x, y) != 0 ==> b.cell(x, y).content == crate::square::SquareContent::Value(
            b.adjacent_mines(x, y) as u8,
        ),
{
}

/// A board whose hidden squares are exactly its mines is won: no moves are
/// left and the game is over.
pub proof fn lemma_win(b: BoardView)
    requires
        b.wf(),
        b.placed,
        forall|i: int| 0 <= i < b.cells.len() ==> (#[trigger] b.cells[i]).hidden == b.cells[i].is_mine(),
    ensures
        b.no_moves_left(),
        !b.defeat(),
        !b.game_running(),
{
    lemma_count_agree(b.cells, b.cells, |c: SquareView| c.hidden, |c: SquareView| c.is_mine());
}

/// Revealing a mine loses the game, whatever the other squares hold.
pub proof fn lemma_loss(before: BoardView, after: BoardView, x: int, y: int)
    requires
        before.wf(),
        before.placed,
        before.in_bounds(x, y),
        before.cell(x, y).is_mine(),
        after.is_show_of(before, x, y),
    ensures
        after.defeat(),
        !after.game_running(),
{
    lemma_idx(before.width, before.height, x, y);
    let i = before.idx(x, y);
    assert(!before.cell(x, y).is_empty());
    assert(after == before.with_cell(x, y, before.cell(x, y).shown()));
    assert(after.cells[i] == before.cell(x, y).shown());
    assert(!after.cells[i].hidden && after.cells[i].is_mine());
}

/// Marking a square twice is marking it once; marking a marked square
/// changes nothing.
pub proof fn lemma_mark_idempotent(b: BoardView, once: BoardView, twice: BoardView, x: int, y: int)
    requires
        b.wf(),
        once.is_mark_of(b, x, y),
        twice.is_mark_of(once, x, y),
    ensures
        twice == once,
        b.in_bounds(x, y) && b.cell(x, y).marked ==> once == b,
{
    if b.in_bounds(x, y) {
        lemma_idx(b.width, b.height, x, y);
        lemma_with_cell(b, x, y, b.cell(x, y).marked_up());
        assert(once.cells.update(once.idx(x, y), once.cell(x, y).marked_up()) =~= once.cells);
        if b.cell(x, y).marked {
            assert(b.cells.update(b.idx(x, y), b.cell(x, y).marked_up()) =~= b.cells);
        }
    }
}

/// Revealing a hidden marked square, once the mines are laid, shows it and
/// clears its mark.
pub proof fn lemma_reveal_clears_mark(before: BoardView, after: BoardView, x: int, y: int)
    requires
        before.wf(),
        before.placed,
        before.in_bounds(x, y),
        before.cell(x, y).hidden,
        after.is_show_of(before, x, y),
    ensures
        after.cell(x, y) == before.cell(x, y).shown(),
{
    lemma_idx(before.width, before.height, x, y);
    if before.cell(x, y).is_empty() {
        let p = seq![(x, y)];
        assert(p.last() == (x, y));
        assert(before.is_flood_path(p, x, y));
    }
}

/// A reveal or a mark off the board changes nothing.
pub proof fn lemma_off_board(before: BoardView, after: BoardView, x: int, y: int)
    requires
        !before.in_bounds(x, y),
        after.is_show_of(before, x, y) || after.is_mark_of(before, x, y),
    ensures
        after == before,
{
}

} // verus!
