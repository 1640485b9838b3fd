//! The mathematical model of a board, and the facts about it that the
//! board's operations rest on.

use vstd::prelude::*;

use crate::square::{SquareContent, SquareView};

verus! {

/// The number of squares of a sequence that satisfy `p`.
pub open spec fn count_where(s: Seq<SquareView>, p: spec_fn(SquareView) -> bool) -> nat
    decreases s.len(),
{
    if s.len() == 0 {
        0
    } else {
        count_where(s.drop_last(), p) + if p(s.last()) {
            1nat
        } else {
            0nat
        }
    }
}

/// Whether two coordinates are neighbours (diagonals included).
pub open spec fn adjacent(a: (int, int), b: (int, int)) -> bool {
    &&& a != b
    &&& -1 <= a.0 - b.0 <= 1
    &&& -1 <= a.1 - b.1 <= 1
}

/// The content that a non-mine square with `n` mines around it holds.
pub open spec fn content_for(n: int) -> SquareContent {
    if n == 0 {
        SquareContent::Empty
    } else {
        SquareContent::Value(n as u8)
    }
}

/// The mathematical value of a board. The square at `(x, y)` is
/// `cells[y * width + x]`.
pub struct BoardView {
    pub width: int,
    pub height: int,
    pub total_mines: int,
    /// Whether the mines have been laid.
    pub placed: bool,
    pub cells: Seq<SquareView>,
}

impl BoardView {
    pub open spec fn in_bounds(self, x: int, y: int) -> bool {
        0 <= x < self.width && 0 <= y < self.height
    }

    pub open spec fn idx(self, x: int, y: int) -> int {
        y * self.width + x
    }

    pub open spec fn cell(self, x: int, y: int) -> SquareView {
        self.cells[self.idx(x, y)]
    }

    /// The board with the square at `(x, y)` replaced by `v`.
    pub open spec fn with_cell(self, x: int, y: int, v: SquareView) -> BoardView {
        BoardView { cells: self.cells.update(self.idx(x, y), v), ..self }
    }

    pub open spec fn mine_count(self) -> nat {
        count_where(self.cells, |c: SquareView| c.is_mine())
    }

    pub open spec fn hidden_count(self) -> nat {
        count_where(self.cells, |c: SquareView| c.hidden)
    }

    pub open spec fn marked_count(self) -> nat {
        count_where(self.cells, |c: SquareView| c.marked)
    }

    /// 1 if `(x, y)` is on the board and holds a mine, else 0.
    pub open spec fn mine_at(self, x: int, y: int) -> int {
        if self.in_bounds(x, y) && self.cell(x, y).is_mine() {
            1
        } else {
            0
        }
    }

    /// The number of mines among the up to eight neighbours of `(x, y)`.
    #[verifier::opaque]
    pub open spec fn adjacent_mines(self, x: int, y: int) -> int {
        self.mine_at(x - 1, y - 1) + self.mine_at(x, y - 1) + self.mine_at(x + 1, y - 1)
            + self.mine_at(x - 1, y) + self.mine_at(x + 1, y) + self.mine_at(x - 1, y + 1)
            + self.mine_at(x, y + 1) + self.mine_at(x + 1, y + 1)
    }

    /// Every square that is no mine holds the number of mines around it.
    pub open spec fn numbers_consistent(self) -> bool {
        forall|x: int, y: int|
            #![trigger self.cell(x, y)]
            self.in_bounds(x, y) && !self.cell(x, y).is_mine() ==> self.cell(x, y).content
                == content_for(self.adjacent_mines(x, y))
    }

    /// Whether every square is still hidden.
    pub open spec fn all_hidden(self) -> bool {
        forall|i: int| 0 <= i < self.cells.len() ==> #[trigger] self.cells[i].hidden
    }

    /// Whether a mine has been revealed.
    pub open spec fn defeat(self) -> bool {
        exists|i: int| 0 <= i < self.cells.len() && !#[trigger] self.cells[i].hidden && self.cells[i].is_mine()
    }

    /// Whether only the mines are left hidden.
    pub open spec fn no_moves_left(self) -> bool {
        self.hidden_count() == self.total_mines
    }

    pub open spec fn game_running(self) -> bool {
        !self.defeat() && !self.no_moves_left()
    }

    pub open spec fn mines_left(self) -> int {
        self.total_mines - self.marked_count()
    }

    /// `p` is a path of neighbouring squares from `(sx, sy)` along which a
    /// reveal spreads: every square before the last is hidden and empty, and
    /// the last is hidden and no mine.
    pub open spec fn is_flood_path(self, p: Seq<(int, int)>, sx: int, sy: int) -> bool {
        &&& p.len() > 0
        &&& p[0] == (sx, sy)
        &&& forall|i: int| #![trigger p[i]] 0 <= i < p.len() ==> self.in_bounds(p[i].0, p[i].1)
        &&& forall|i: int|
            #![trigger p[i]]
            0 <= i < p.len() - 1 ==> adjacent(p[i], p[i + 1]) && self.cell(p[i].0, p[i].1).hidden
                && self.cell(p[i].0, p[i].1).is_empty()
        &&& self.cell(p.last().0, p.last().1).hidden
        &&& !self.cell(p.last().0, p.last().1).is_mine()
    }

    /// Revealing the empty square `(sx, sy)` also reveals `(x, y)`.
    pub open spec fn flood_reaches(self, sx: int, sy: int, x: int, y: int) -> bool {
        exists|p: Seq<(int, int)>| #[trigger] self.is_flood_path(p, sx, sy) && p.last() == (x, y)
    }

    /// `self` is `before` after a flood reveal from `(sx, sy)`: the squares
    /// that it reaches are shown, the others are as they were.
    pub open spec fn is_flood_of(self, before: BoardView, sx: int, sy: int) -> bool {
        &&& self.width == before.width
        &&& self.height == before.height
        &&& self.total_mines == before.total_mines
        &&& self.placed == before.placed
        &&& self.cells.len() == before.cells.len()
        &&& forall|x: int, y: int|
            #![trigger self.cell(x, y)]
            before.in_bounds(x, y) ==> self.cell(x, y) == if before.flood_reaches(sx, sy, x, y) {
                before.cell(x, y).shown()
            } else {
                before.cell(x, y)
            }
    }

    /// `self` is `before` once the square at `(x, y)` has been revealed: an
    /// empty square starts a flood reveal, any other is shown alone.
    pub open spec fn is_reveal_of(self, before: BoardView, x: int, y: int) -> bool {
        if before.cell(x, y).is_empty() {
            self.is_flood_of(before, x, y)
        } else {
            self == before.with_cell(x, y, before.cell(x, y).shown())
        }
    }

    /// `self` is `before` after the player asked to reveal `(x, y)`: nothing
    /// off the board; the mines laid first on the first reveal; then the
    /// reveal itself.
    pub open spec fn is_show_of(self, before: BoardView, x: int, y: int) -> bool {
        if !before.in_bounds(x, y) {
            self == before
        } else if before.placed {
            self.is_reveal_of(before, x, y)
        } else {
            exists|mid: BoardView| #[trigger] mid.is_placement_of(before, x, y) && self.is_reveal_of(mid, x, y)
        }
    }

    /// `self` is `before` after the player marked `(x, y)`: nothing off the
    /// board.
    pub open spec fn is_mark_of(self, before: BoardView, x: int, y: int) -> bool {
        if before.in_bounds(x, y) {
            self == before.with_cell(x, y, before.cell(x, y).marked_up())
        } else {
            self == before
        }
    }

    /// The board is a rectangle with room for its mines and one square more.
    pub open spec fn shape_ok(self) -> bool {
        &&& 0 < self.width
        &&& 0 < self.height
        &&& self.width * self.height <= i32::MAX
        &&& self.cells.len() == self.width * self.height
        &&& 0 < self.total_mines < self.cells.len()
    }

    /// The shape of the board and, once the mines are laid, their number and
    /// the numbers around them. Before that no square holds a mine or has
    /// been revealed.
    pub open spec fn wf(self) -> bool {
        &&& self.shape_ok()
        &&& self.placed ==> self.mine_count() == self.total_mines && self.numbers_consistent()
        &&& !self.placed ==> forall|i: int|
            0 <= i < self.cells.len() ==> #[trigger] self.cells[i].hidden && !self.cells[i].is_mine()
    }

    /// `self` is `before` with the mines laid: exactly `total_mines` of them,
    /// none at `(x, y)`, the numbers computed, and every square as hidden
    /// and as marked as before.
    pub open spec fn is_placement_of(self, before: BoardView, x: int, y: int) -> bool {
        &&& self.wf()
        &&& self.placed
        &&& self.width == before.width
        &&& self.height == before.height
        &&& self.total_mines == before.total_mines
        &&& self.cells.len() == before.cells.len()
        &&& !self.cell(x, y).is_mine()
        &&& forall|i: int|
            0 <= i < self.cells.len() ==> #[trigger] self.cells[i].hidden == before.cells[i].hidden
                && self.cells[i].marked == before.cells[i].marked
    }
}

/// The flat index of a square on the board is in range.
pub proof fn lemma_idx(w: int, h: int, x: int, y: int)
    requires
        0 <= x < w,
        0 <= y < h,
    ensures
        0 <= y * w + x < w * h,
{
    assert(0 <= y * w) by (nonlinear_arith)
        requires
            0 <= y,
            0 < w,
    ;
    assert(y * w + w <= h * w) by (nonlinear_arith)
        requires
            y + 1 <= h,
            0 < w,
    ;
    assert(h * w == w * h) by (nonlinear_arith);
}

/// Two squares of a board never share a flat index.
pub proof fn lemma_idx_injective(w: int, x1: int, y1: int, x2: int, y2: int)
    requires
        0 <= x1 < w,
        0 <= x2 < w,
        0 <= y1,
        0 <= y2,
        y1 * w + x1 == y2 * w + x2,
    ensures
        x1 == x2,
        y1 == y2,
{
    if y1 < y2 {
        assert(y1 * w + w <= y2 * w) by (nonlinear_arith)
            requires
                y1 < y2,
                0 < w,
        ;
    } else if y2 < y1 {
        assert(y2 * w + w <= y1 * w) by (nonlinear_arith)
            requires
                y2 < y1,
                0 < w,
        ;
    }
}

/// Changing one square changes a count by what that square adds or takes.
pub proof fn lemma_count_update(s: Seq<SquareView>, i: int, v: SquareView, p: spec_fn(SquareView) -> bool)
    requires
        0 <= i < s.len(),
    ensures
        count_where(s.update(i, v), p) == count_where(s, p) - (if p(s[i]) { 1int } else { 0int })
            + (if p(v) { 1int } else { 0int }),
    decreases s.len(),
{
    let t = s.update(i, v);
    if i == s.len() - 1 {
        assert(t.drop_last() =~= s.drop_last());
    } else {
        lemma_count_update(s.drop_last(), i, v, p);
        assert(t.drop_last() =~= s.drop_last().update(i, v));
    }
}

/// Two counts agree when their conditions agree square by square.
pub proof fn lemma_count_agree(
    s1: Seq<SquareView>,
    s2: Seq<SquareView>,
    p1: spec_fn(SquareView) -> bool,
    p2: spec_fn(SquareView) -> bool,
)
    requires
        s1.len() == s2.len(),
        forall|i: int| 0 <= i < s1.len() ==> p1(#[trigger] s1[i]) == p2(s2[i]),
    ensures
        count_where(s1, p1) == count_where(s2, p2),
    decreases s1.len(),
{
    if s1.len() > 0 {
        lemma_count_agree(s1.drop_last(), s2.drop_last(), p1, p2);
    }
}

/// A count never exceeds the length; it is zero where nothing satisfies it.
pub proof fn lemma_count_bounds(s: Seq<SquareView>, p: spec_fn(SquareView) -> bool)
    ensures
        count_where(s, p) <= s.len(),
        (forall|i: int| 0 <= i < s.len() ==> !p(#[trigger] s[i])) ==> count_where(s, p) == 0,
    decreases s.len(),
{
    if s.len() > 0 {
        lemma_count_bounds(s.drop_last(), p);
    }
}

/// Counting a prefix one square further.
pub proof fn lemma_count_prefix(s: Seq<SquareView>, i: int, p: spec_fn(SquareView) -> bool)
    requires
        0 <= i < s.len(),
    ensures
        count_where(s.subrange(0, i + 1), p) == count_where(s.subrange(0, i), p) + if p(s[i]) {
            1int
        } else {
            0int
        },
{
    assert(s.subrange(0, i + 1).drop_last() =~= s.subrange(0, i));
}

/// Two boards of one shape with mines on the same squares have the same
/// mine count and the same numbers of mines around each square.
pub proof fn lemma_same_mines(a: BoardView, b: BoardView)
    requires
        a.shape_ok(),
        b.width == a.width,
        b.height == a.height,
        b.cells.len() == a.cells.len(),
        forall|j: int| 0 <= j < a.cells.len() ==> (#[trigger] b.cells[j]).is_mine() == a.cells[j].is_mine(),
    ensures
        b.mine_count() == a.mine_count(),
        forall|x: int, y: int| #[trigger] b.mine_at(x, y) == a.mine_at(x, y),
        forall|x: int, y: int| #[trigger] b.adjacent_mines(x, y) == a.adjacent_mines(x, y),
{
    lemma_count_agree(b.cells, a.cells, |c: SquareView| c.is_mine(), |c: SquareView| c.is_mine());
    assert forall|x: int, y: int| #[trigger] b.mine_at(x, y) == a.mine_at(x, y) by {
        if a.in_bounds(x, y) {
            lemma_idx(a.width, a.height, x, y);
        }
    }
    assert forall|x: int, y: int| #[trigger] b.adjacent_mines(x, y) == a.adjacent_mines(x, y) by {
        reveal(BoardView::adjacent_mines);
        assert(b.mine_at(x - 1, y - 1) == a.mine_at(x - 1, y - 1));
        assert(b.mine_at(x, y - 1) == a.mine_at(x, y - 1));
        assert(b.mine_at(x + 1, y - 1) == a.mine_at(x + 1, y - 1));
        assert(b.mine_at(x - 1, y) == a.mine_at(x - 1, y));
        assert(b.mine_at(x + 1, y) == a.mine_at(x + 1, y));
        assert(b.mine_at(x - 1, y + 1) == a.mine_at(x - 1, y + 1));
        assert(b.mine_at(x, y + 1) == a.mine_at(x, y + 1));
        assert(b.mine_at(x + 1, y + 1) == a.mine_at(x + 1, y + 1));
    }
}

/// Two boards of one shape whose squares hold the same contents have the
/// same mines, numbers and mine count.
pub proof fn lemma_same_contents(a: BoardView, b: BoardView)
    requires
        a.shape_ok(),
        b.width == a.width,
        b.height == a.height,
        b.cells.len() == a.cells.len(),
        forall|j: int| 0 <= j < a.cells.len() ==> (#[trigger] b.cells[j]).content == a.cells[j].content,
    ensures
        b.mine_count() == a.mine_count(),
        forall|x: int, y: int| #[trigger] b.adjacent_mines(x, y) == a.adjacent_mines(x, y),
        a.numbers_consistent() ==> b.numbers_consistent(),
{
    lemma_same_mines(a, b);
    if a.numbers_consistent() {
        assert forall|x: int, y: int|
            #![trigger b.cell(x, y)]
            b.in_bounds(x, y) && !b.cell(x, y).is_mine() implies b.cell(x, y).content == content_for(
                b.adjacent_mines(x, y),
            ) by {
            lemma_idx(a.width, a.height, x, y);
            assert(a.cell(x, y).content == b.cell(x, y).content);
            assert(b.adjacent_mines(x, y) == a.adjacent_mines(x, y));
        }
    }
}

/// After one square changes, every other square reads as before.
pub proof fn lemma_with_cell(b: BoardView, x: int, y: int, v: SquareView)
    requires
        b.shape_ok(),
        b.in_bounds(x, y),
    ensures
        forall|a: int, c: int|
            #![trigger b.with_cell(x, y, v).cell(a, c)]
            b.in_bounds(a, c) ==> b.with_cell(x, y, v).cell(a, c) == if a == x && c == y {
                v
            } else {
                b.cell(a, c)
            },
{
    lemma_idx(b.width, b.height, x, y);
    assert forall|a: int, c: int| #![trigger b.with_cell(x, y, v).cell(a, c)] b.in_bounds(a, c) implies b.with_cell(x, y, v).cell(a, c) == if a == x && c == y {
        v
    } else {
        b.cell(a, c)
    } by {
        lemma_idx(b.width, b.height, a, c);
        if b.idx(a, c) == b.idx(x, y) {
            lemma_idx_injective(b.width, a, c, x, y);
        }
    }
}

/// The number of squares before flat index `n` that can take a new mine:
/// no mine yet, and not the square `e`.
pub open spec fn free_before(cells: Seq<SquareView>, e: int, n: int) -> nat
    decreases n,
{
    if n <= 0 {
        0
    } else {
        free_before(cells, e, n - 1) + if n - 1 != e && !cells[n - 1].is_mine() {
            1nat
        } else {
            0nat
        }
    }
}

/// The squares once one more mine is laid, on the free square that has `r`
/// free squares before it.
pub open spec fn lay_one(cells: Seq<SquareView>, e: int, r: int) -> Seq<SquareView> {
    let j = choose|j: int|
        0 <= j < cells.len() && j != e && !cells[j].is_mine() && free_before(cells, e, j) == r;
    cells.update(j, cells[j].with_content(SquareContent::Mine))
}

/// The squares once a mine is laid for each draw, in order: a draw `d`
/// takes the free square that has `d % f` free squares before it, `f`
/// being the number of free squares.
pub open spec fn lay_mines(cells: Seq<SquareView>, e: int, draws: Seq<u32>) -> Seq<SquareView>
    decreases draws.len(),
{
    if draws.len() == 0 {
        cells
    } else {
        let prev = lay_mines(cells, e, draws.drop_last());
        lay_one(prev, e, draws.last() as int % free_before(prev, e, prev.len() as int) as int)
    }
}

} // verus!
