//! The board: a rectangle of squares stored row by row, with the rules of
//! the game on it.

use rand::Rng;
use vstd::prelude::*;

use crate::board_view::{
    adjacent, content_for, count_where, free_before, lay_mines, lay_one, lemma_count_bounds,
    lemma_count_prefix, lemma_count_update, lemma_idx, lemma_idx_injective,
    lemma_same_contents, lemma_same_mines, lemma_with_cell, BoardView,
};
use crate::square::{Square, SquareContent, SquareView};

verus! {

/// A flood path that ends on an empty square goes on to any neighbour that
/// is hidden and no mine.
proof fn lemma_flood_extend(o: BoardView, p: Seq<(int, int)>, sx: int, sy: int, x: int, y: int)
    requires
        o.is_flood_path(p, sx, sy),
        o.cell(p.last().0, p.last().1).is_empty(),
        adjacent(p.last(), (x, y)),
        o.in_bounds(x, y),
        o.cell(x, y).hidden,
        !o.cell(x, y).is_mine(),
    ensures
        o.is_flood_path(p.push((x, y)), sx, sy),
        o.flood_reaches(sx, sy, x, y),
{
    let q = p.push((x, y));
    assert(q.last() == (x, y));
    assert forall|i: int| #![trigger q[i]] 0 <= i < q.len() - 1 implies adjacent(q[i], q[i + 1])
        && o.cell(q[i].0, q[i].1).hidden && o.cell(q[i].0, q[i].1).is_empty() by {
        if i < p.len() - 1 {
            assert(q[i] == p[i] && q[i + 1] == p[i + 1]);
        } else {
            assert(q[i] == p.last());
        }
    }
    assert forall|i: int| #![trigger q[i]] 0 <= i < q.len() implies o.in_bounds(q[i].0, q[i].1) by {
        if i < p.len() {
            assert(q[i] == p[i]);
        }
    }
    assert(o.is_flood_path(q, sx, sy));
}

/// Every square before `n` is free, a mine, or the square `e`.
proof fn lemma_free_count(s: Seq<SquareView>, e: int, n: int)
    requires
        0 <= n <= s.len(),
        0 <= e < s.len(),
        !s[e].is_mine(),
    ensures
        free_before(s, e, n) + count_where(s.subrange(0, n), |c: SquareView| c.is_mine()) + (if e < n {
            1int
        } else {
            0int
        }) == n,
    decreases n,
{
    if n > 0 {
        lemma_free_count(s, e, n - 1);
        lemma_count_prefix(s, n - 1, |c: SquareView| c.is_mine());
    }
}

/// A free square has more free squares after it than before it.
proof fn lemma_free_before_grows(s: Seq<SquareView>, e: int, i: int, j: int)
    requires
        0 <= i < j <= s.len(),
        i != e,
        !s[i].is_mine(),
    ensures
        free_before(s, e, j) >= free_before(s, e, i) + 1,
    decreases j - i,
{
    if j > i + 1 {
        lemma_free_before_grows(s, e, i, j - 1);
    }
}

/// Whether `(x, y)` waits on the work list of a flood reveal.
spec fn on_stack(stack: Seq<(u32, u32)>, x: int, y: int) -> bool {
    exists|k: int| 0 <= k < stack.len() && #[trigger] stack[k].0 == x && stack[k].1 == y
}

/// The square `(x, y)` needs nothing more from a flood reveal.
spec fn covered(b: BoardView, stack: Seq<(u32, u32)>, x: int, y: int) -> bool {
    on_stack(stack, x, y) || !b.cell(x, y).hidden || b.cell(x, y).is_mine()
}

/// Every square of the work list is the start or a neighbour of an empty
/// square that the flood reaches.
spec fn stack_entry_ok(o: BoardView, sx: int, sy: int, e: (u32, u32)) -> bool {
    &&& o.in_bounds(e.0 as int, e.1 as int)
    &&& (e.0 == sx && e.1 == sy) || exists|a: int, b: int|
        #[trigger] o.flood_reaches(sx, sy, a, b) && o.in_bounds(a, b) && adjacent((a, b), (e.0 as int, e.1 as int))
            && o.cell(a, b).is_empty()
}

/// Every empty square that a flood revealed has its neighbours covered.
#[verifier::opaque]
spec fn flood_closed(o: BoardView, cur: BoardView, stack: Seq<(u32, u32)>) -> bool {
    forall|a: int, b: int, c: int, d: int|
        #![trigger cur.cell(a, b), cur.cell(c, d)]
        o.in_bounds(a, b) && o.in_bounds(c, d) && adjacent((a, b), (c, d)) && o.cell(a, b).hidden
            && o.cell(a, b).is_empty() && !cur.cell(a, b).hidden ==> covered(cur, stack, c, d)
}

/// One step of a flood reveal keeps a square covered: the square that left
/// the work list is revealed or a mine, the rest of the list stays, and no
/// square becomes hidden again.
proof fn lemma_covered_step(
    cur: BoardView,
    new: BoardView,
    st: Seq<(u32, u32)>,
    ns: Seq<(u32, u32)>,
    px: int,
    py: int,
    x: int,
    y: int,
)
    requires
        st.len() > 0,
        st.last().0 == px,
        st.last().1 == py,
        ns.len() >= st.len() - 1,
        forall|k: int| 0 <= k < st.len() - 1 ==> #[trigger] ns[k] == st[k],
        !new.cell(px, py).hidden || new.cell(px, py).is_mine(),
        new.cell(x, y).hidden ==> cur.cell(x, y).hidden,
        new.cell(x, y).is_mine() == cur.cell(x, y).is_mine(),
        covered(cur, st, x, y),
    ensures
        covered(new, ns, x, y),
{
    if on_stack(st, x, y) && !(x == px && y == py) {
        let k = choose|k: int| 0 <= k < st.len() && #[trigger] st[k].0 == x && st[k].1 == y;
        assert(k != st.len() - 1);
        assert(ns[k] == st[k]);
    }
}

/// One step of a flood reveal keeps every revealed empty square's
/// neighbours covered.
proof fn lemma_flood_closed_step(
    o: BoardView,
    cur: BoardView,
    new: BoardView,
    st: Seq<(u32, u32)>,
    ns: Seq<(u32, u32)>,
    px: int,
    py: int,
)
    requires
        flood_closed(o, cur, st),
        st.len() > 0,
        st.last().0 == px,
        st.last().1 == py,
        o.in_bounds(px, py),
        ns.len() >= st.len() - 1,
        forall|k: int| 0 <= k < st.len() - 1 ==> #[trigger] ns[k] == st[k],
        !new.cell(px, py).hidden || new.cell(px, py).is_mine(),
        forall|a: int, b: int|
            #![trigger new.cell(a, b)]
            o.in_bounds(a, b) ==> (new.cell(a, b).hidden ==> cur.cell(a, b).hidden) && new.cell(a, b).is_mine()
                == cur.cell(a, b).is_mine() && (cur.cell(a, b).hidden && !new.cell(a, b).hidden ==> a == px
                && b == py),
        o.cell(px, py).is_empty() && cur.cell(px, py).hidden && !new.cell(px, py).hidden ==> forall|c: int, d: int|
            #![trigger on_stack(ns, c, d)]
            o.in_bounds(c, d) && adjacent((px, py), (c, d)) ==> on_stack(ns, c, d),
    ensures
        flood_closed(o, new, ns),
{
    reveal(flood_closed);
    assert forall|a: int, b: int, c: int, d: int|
        #![trigger new.cell(a, b), new.cell(c, d)]
        o.in_bounds(a, b) && o.in_bounds(c, d) && adjacent((a, b), (c, d)) && o.cell(a, b).hidden
            && o.cell(a, b).is_empty() && !new.cell(a, b).hidden implies covered(new, ns, c, d) by {
        if cur.cell(a, b).hidden {
            assert(a == px && b == py);
            assert(on_stack(ns, c, d));
        } else {
            assert(covered(cur, st, c, d));
            lemma_covered_step(cur, new, st, ns, px, py, c, d);
        }
    }
}

/// What holds of a flood reveal from `(sx, sy)` on the board `o` while its
/// work list is `stack` and the board is `cur`.
#[verifier::opaque]
spec fn flood_inv(cur: BoardView, o: BoardView, stack: Seq<(u32, u32)>, sx: int, sy: int) -> bool {
    &&& cur.wf()
    &&& o.wf()
    &&& o.placed
    &&& o.in_bounds(sx, sy)
    &&& cur.width == o.width
    &&& cur.height == o.height
    &&& cur.total_mines == o.total_mines
    &&& cur.placed == o.placed
    &&& cur.cells.len() == o.cells.len()
    &&& forall|j: int| 0 <= j < o.cells.len() ==> (#[trigger] cur.cells[j]).content == o.cells[j].content
    &&& forall|a: int, b: int|
        #![trigger cur.cell(a, b)]
        o.in_bounds(a, b) ==> cur.cell(a, b) == o.cell(a, b) || (o.flood_reaches(sx, sy, a, b) && cur.cell(a, b)
            == o.cell(a, b).shown())
    &&& forall|k: int| 0 <= k < stack.len() ==> stack_entry_ok(o, sx, sy, #[trigger] stack[k])
    &&& covered(cur, stack, sx, sy)
    &&& flood_closed(o, cur, stack)
}

/// Once the work list is empty, every square that the flood reaches has
/// been revealed.
proof fn lemma_flood_complete(o: BoardView, cur: BoardView, sx: int, sy: int, p: Seq<(int, int)>)
    requires
        o.is_flood_path(p, sx, sy),
        covered(cur, Seq::empty(), sx, sy),
        flood_closed(o, cur, Seq::empty()),
        forall|a: int, b: int|
            #![trigger cur.cell(a, b)]
            o.in_bounds(a, b) ==> cur.cell(a, b).is_mine() == o.cell(a, b).is_mine(),
    ensures
        !cur.cell(p.last().0, p.last().1).hidden,
    decreases p.len(),
{
    reveal(flood_closed);
    let e: Seq<(u32, u32)> = Seq::empty();
    if p.len() == 1 {
        assert(p.last() == p[0]);
        assert(o.in_bounds(p[0].0, p[0].1));
        assert(!on_stack(e, sx, sy));
    } else {
        let q = p.drop_last();
        assert forall|i: int| #![trigger q[i]] 0 <= i < q.len() implies o.in_bounds(q[i].0, q[i].1) by {
            assert(q[i] == p[i]);
        }
        assert forall|i: int| #![trigger q[i]] 0 <= i < q.len() - 1 implies adjacent(q[i], q[i + 1])
            && o.cell(q[i].0, q[i].1).hidden && o.cell(q[i].0, q[i].1).is_empty() by {
            assert(q[i] == p[i] && q[i + 1] == p[i + 1]);
        }
        let m = p[p.len() - 2];
        assert(q.last() == m);
        assert(adjacent(m, p.last()));
        assert(o.in_bounds(m.0, m.1));
        assert(o.in_bounds(p.last().0, p.last().1));
        lemma_flood_complete(o, cur, sx, sy, q);
        assert(!cur.cell(m.0, m.1).hidden);
        assert(covered(cur, e, p.last().0, p.last().1));
        assert(!on_stack(e, p.last().0, p.last().1));
    }
}

/// Relies on rand's `Rng::gen_range` on the thread-local generator: a value
/// in `[0, bound)`. It panics on an empty range, which `requires` leaves out.
#[verifier::external_body]
fn random_below(bound: u32) -> (r: u32)
    requires
        bound > 0,
    ensures
        r < bound,
{
    rand::thread_rng().gen_range(0, bound)
}

/// The level asked for is not one of the two that exist.
#[derive(Clone, Copy, PartialEq, Eq, Structural, Debug)]
pub struct InvalidLevel {
    pub level: u8,
}

/// A Minesweeper board. The mines are laid on the first reveal, so that the
/// first square shown is never a mine.
pub struct Board {
    squares: Vec<Square>,
    total_mines: u32,
    width: u32,
    height: u32,
    placed: bool,
}

impl View for Board {
    type V = BoardView;

    closed spec fn view(&self) -> BoardView {
        BoardView {
            width: self.width as int,
            height: self.height as int,
            total_mines: self.total_mines as int,
            placed: self.placed,
            cells: self.squares@.map_values(|s: Square| s@),
        }
    }
}

impl Board {
    pub open spec fn wf(&self) -> bool {
        self@.wf()
    }

    /// A board of level 1 (9 x 9, 10 mines) or level 2 (16 x 16, 40 mines),
    /// all squares hidden and empty, no mine laid yet.
    pub fn new(level: u8) -> (r: Result<Board, InvalidLevel>)
        ensures
            level != 1 && level != 2 <==> r is Err,
            r is Err ==> r->Err_0 == (InvalidLevel { level }),
            r is Ok ==> {
                let b = r->Ok_0@;
                &&& r->Ok_0.wf()
                &&& !b.placed
                &&& level == 1 ==> b.width == 9 && b.height == 9 && b.total_mines == 10
                &&& level == 2 ==> b.width == 16 && b.height == 16 && b.total_mines == 40
                &&& forall|i: int|
                    0 <= i < b.cells.len() ==> #[trigger] b.cells[i] == (SquareView {
                        content: SquareContent::Empty,
                        hidden: true,
                        marked: false,
                    })
            },
    {
        let total_mines: u32;
        let width: u32;
        let height: u32;
        if level == 1 {
            total_mines = 10;
            width = 9;
            height = 9;
        } else if level == 2 {
            total_mines = 40;
            width = 16;
            height = 16;
        } else {
            return Err(InvalidLevel { level });
        }
        let n = width * height;
        let mut squares: Vec<Square> = Vec::new();
        while squares.len() < n as usize
            invariant
                squares.len() <= n,
                forall|i: int|
                    0 <= i < squares@.len() ==> #[trigger] squares@[i]@ == (SquareView {
                        content: SquareContent::Empty,
                        hidden: true,
                        marked: false,
                    }),
            decreases n - squares.len(),
        {
            squares.push(Square::new());
        }
        Ok(Board { squares, total_mines, width, height, placed: false })
    }

    /// Whether `(x, y)` is on the board.
    pub fn is_valid(&self, x: i32, y: i32) -> (r: bool)
        ensures
            r == self@.in_bounds(x as int, y as int),
    {
        0 <= x && (x as i64) < self.width as i64 && 0 <= y && (y as i64) < self.height as i64
    }

    pub fn width(&self) -> (r: u32)
        ensures
            r == self@.width,
    {
        self.width
    }

    pub fn height(&self) -> (r: u32)
        ensures
            r == self@.height,
    {
        self.height
    }

    /// Whether no square has been revealed yet.
    pub fn first_turn(&self) -> (r: bool)
        requires
            self.wf(),
        ensures
            r == self@.all_hidden(),
    {
        let mut i: usize = 0;
        while i < self.squares.len()
            invariant
                self.wf(),
                0 <= i <= self.squares@.len(),
                forall|j: int| 0 <= j < i ==> #[trigger] self@.cells[j].hidden,
            decreases self.squares@.len() - i,
        {
            if !self.squares[i].is_hidden() {
                assert(!self@.cells[i as int].hidden);
                return false;
            }
            i += 1;
        }
        true
    }

    /// Whether the game goes on: no mine revealed, and some square left to show.
    pub fn game_running(&self) -> (r: bool)
        requires
            self.wf(),
        ensures
            r == self@.game_running(),
    {
        !(self.defeat() || self.no_moves_left())
    }

    /// Whether a mine has been revealed.
    pub fn defeat(&self) -> (r: bool)
        requires
            self.wf(),
        ensures
            r == self@.defeat(),
    {
        let mut i: usize = 0;
        while i < self.squares.len()
            invariant
                self.wf(),
                0 <= i <= self.squares@.len(),
                forall|j: int| 0 <= j < i ==> !(!(#[trigger] self@.cells[j]).hidden && self@.cells[j].is_mine()),
            decreases self.squares@.len() - i,
        {
            if !self.squares[i].is_hidden() && self.squares[i].is_mine() {
                assert(!self@.cells[i as int].hidden && self@.cells[i as int].is_mine());
                return true;
            }
            i += 1;
        }
        false
    }

    /// Whether every square but the mines has been revealed: as many squares
    /// are hidden as there are mines.
    pub fn no_moves_left(&self) -> (r: bool)
        requires
            self.wf(),
        ensures
            r == self@.no_moves_left(),
    {
        let mut n: u32 = 0;
        let mut i: usize = 0;
        while i < self.squares.len()
            invariant
                self.wf(),
                0 <= i <= self.squares@.len(),
                n == count_where(self@.cells.subrange(0, i as int), |c: SquareView| c.hidden),
            decreases self.squares@.len() - i,
        {
            proof {
                lemma_count_prefix(self@.cells, i as int, |c: SquareView| c.hidden);
                lemma_count_bounds(self@.cells.subrange(0, i as int), |c: SquareView| c.hidden);
            }
            if self.squares[i].is_hidden() {
                n += 1;
            }
            i += 1;
        }
        assert(self@.cells.subrange(0, i as int) =~= self@.cells);
        n == self.total_mines
    }

    /// The number of mines not marked yet; negative where the player marked
    /// more squares than there are mines.
    pub fn mines_left(&self) -> (r: i32)
        requires
            self.wf(),
        ensures
            r == self@.mines_left(),
    {
        let marked = self.marked_mines();
        proof {
            lemma_count_bounds(self@.cells, |c: SquareView| c.marked);
        }
        self.total_mines as i32 - marked as i32
    }

    /// The number of marked squares.
    fn marked_mines(&self) -> (r: u32)
        requires
            self.wf(),
        ensures
            r == self@.marked_count(),
    {
        let mut n: u32 = 0;
        let mut i: usize = 0;
        while i < self.squares.len()
            invariant
                self.wf(),
                0 <= i <= self.squares@.len(),
                n == count_where(self@.cells.subrange(0, i as int), |c: SquareView| c.marked),
            decreases self.squares@.len() - i,
        {
            proof {
                lemma_count_prefix(self@.cells, i as int, |c: SquareView| c.marked);
                lemma_count_bounds(self@.cells.subrange(0, i as int), |c: SquareView| c.marked);
            }
            if self.squares[i].is_marked() {
                n += 1;
            }
            i += 1;
        }
        assert(self@.cells.subrange(0, i as int) =~= self@.cells);
        n
    }

    /// Marks the square at `(x, y)` as a suspected mine; nothing happens off
    /// the board.
    pub fn mark_square(&mut self, x: u32, y: u32)
        requires
            old(self).wf(),
        ensures
            final(self).wf(),
            final(self)@.is_mark_of(old(self)@, x as int, y as int),
    {
        if x < self.width && y < self.height {
            let i = self.index(x, y);
            let mut s = self.squares[i];
            s.mark();
            self.squares.set(i, s);
            proof {
                assert(self@.cells =~= old(self)@.cells.update(i as int, s@));
                lemma_same_contents(old(self)@, self@);
            }
        }
    }

    /// Adds to the work list the neighbours of `(x, y)` that are on the board.
    fn push_neighbours(&self, stack: &mut Vec<(u32, u32)>, x: u32, y: u32)
        requires
            self.wf(),
            self@.in_bounds(x as int, y as int),
        ensures
            final(stack)@.len() >= old(stack)@.len(),
            forall|k: int| 0 <= k < old(stack)@.len() ==> #[trigger] final(stack)@[k] == old(stack)@[k],
            forall|k: int|
                old(stack)@.len() <= k < final(stack)@.len() ==> self@.in_bounds(
                    (#[trigger] final(stack)@[k]).0 as int,
                    final(stack)@[k].1 as int,
                ) && adjacent((x as int, y as int), (final(stack)@[k].0 as int, final(stack)@[k].1 as int)),
            forall|a: int, b: int|
                #![trigger on_stack(final(stack)@, a, b)]
                self@.in_bounds(a, b) && adjacent((x as int, y as int), (a, b)) ==> on_stack(final(stack)@, a, b),
    {
        let ghost s0 = stack@;
        let xi = x as i64;
        let yi = y as i64;
        let mut dy: i64 = -1;
        while dy <= 1
            invariant
                self.wf(),
                self@.in_bounds(x as int, y as int),
                xi == x,
                yi == y,
                -1 <= dy <= 2,
                stack@.len() >= s0.len(),
                forall|k: int| 0 <= k < s0.len() ==> #[trigger] stack@[k] == s0[k],
                forall|k: int|
                    s0.len() <= k < stack@.len() ==> self@.in_bounds(
                        (#[trigger] stack@[k]).0 as int,
                        stack@[k].1 as int,
                    ) && adjacent((x as int, y as int), (stack@[k].0 as int, stack@[k].1 as int)),
                forall|a: int, b: int|
                    #![trigger on_stack(stack@, a, b)]
                    self@.in_bounds(a, b) && adjacent((x as int, y as int), (a, b)) && b < y + dy
                        ==> on_stack(stack@, a, b),
            decreases 2 - dy,
        {
            let mut dx: i64 = -1;
            while dx <= 1
                invariant
                    self.wf(),
                    self@.in_bounds(x as int, y as int),
                    xi == x,
                    yi == y,
                    -1 <= dy <= 1,
                    -1 <= dx <= 2,
                    stack@.len() >= s0.len(),
                    forall|k: int| 0 <= k < s0.len() ==> #[trigger] stack@[k] == s0[k],
                    forall|k: int|
                        s0.len() <= k < stack@.len() ==> self@.in_bounds(
                            (#[trigger] stack@[k]).0 as int,
                            stack@[k].1 as int,
                        ) && adjacent((x as int, y as int), (stack@[k].0 as int, stack@[k].1 as int)),
                    forall|a: int, b: int|
                        #![trigger on_stack(stack@, a, b)]
                        self@.in_bounds(a, b) && adjacent((x as int, y as int), (a, b)) && (b < y + dy
                            || (b == y + dy && a < x + dx)) ==> on_stack(stack@, a, b),
                decreases 2 - dx,
            {
                let nx = xi + dx;
                let ny = yi + dy;
                let ghost before = stack@;
                if !(dx == 0 && dy == 0) && 0 <= nx && nx < self.width as i64 && 0 <= ny && ny
                    < self.height as i64 {
                    stack.push((nx as u32, ny as u32));
                    assert(stack@[before.len() as int] == (nx as u32, ny as u32));
                }
                proof {
                    assert forall|a: int, b: int|
                        #![trigger on_stack(stack@, a, b)]
                        self@.in_bounds(a, b) && adjacent((x as int, y as int), (a, b)) && (b < y + dy || (b
                            == y + dy && a < x + dx + 1)) implies on_stack(stack@, a, b) by {
                        if b < y + dy || (b == y + dy && a < x + dx) {
                            assert(on_stack(before, a, b));
                            let k = choose|k: int|
                                0 <= k < before.len() && #[trigger] before[k].0 == a && before[k].1 == b;
                            assert(stack@[k] == before[k]);
                        } else {
                            let k = before.len() as int;
                            assert(stack@[k].0 == a && stack@[k].1 == b);
                        }
                    }
                }
                dx += 1;
            }
            dy += 1;
        }
    }

    /// Takes one square off the work list of a flood reveal from
    /// `(sx, sy)` and reveals it if it is hidden and no mine; the neighbours
    /// of an empty one join the list.
    fn flood_step(&mut self, stack: &mut Vec<(u32, u32)>, o: Ghost<BoardView>, sx: Ghost<int>, sy: Ghost<int>)
        requires
            flood_inv(old(self)@, o@, old(stack)@, sx@, sy@),
            old(stack)@.len() > 0,
        ensures
            flood_inv(final(self)@, o@, final(stack)@, sx@, sy@),
            final(self)@.hidden_count() < old(self)@.hidden_count() || (final(self)@.hidden_count()
                == old(self)@.hidden_count() && final(stack)@.len() < old(stack)@.len()),
    {
        let ghost o = o@;
        let ghost sx = sx@;
        let ghost sy = sy@;
        proof {
            reveal(flood_inv);
        }
        let ghost cur = self@;
        let ghost st = stack@;
        let (cx, cy) = stack.pop().unwrap();
        let ghost px = cx as int;
        let ghost py = cy as int;
        assert(stack@ =~= st.drop_last());
        assert(st.last() == (cx, cy));
        assert(stack_entry_ok(o, sx, sy, st[st.len() - 1]));
        let i = self.index(cx, cy);
        let sq = self.squares[i];
        if sq.is_hidden() && !sq.is_mine() {
            proof {
                assert(cur.cell(px, py) == o.cell(px, py));
                if px == sx && py == sy {
                    let p = seq![(sx, sy)];
                    assert(p.last() == (sx, sy));
                    assert(o.is_flood_path(p, sx, sy));
                } else {
                    let (a, b) = choose|a: int, b: int|
                        #[trigger] o.flood_reaches(sx, sy, a, b) && o.in_bounds(a, b) && adjacent(
                            (a, b),
                            (px, py),
                        ) && o.cell(a, b).is_empty();
                    let p = choose|p: Seq<(int, int)>| #[trigger] o.is_flood_path(p, sx, sy) && p.last() == (a, b);
                    lemma_flood_extend(o, p, sx, sy, px, py);
                }
                assert(o.flood_reaches(sx, sy, px, py));
            }
            let mut shown = sq;
            shown.show();
            self.squares.set(i, shown);
            proof {
                assert(self@ == cur.with_cell(px, py, shown@)) by {
                    assert(self@.cells =~= cur.cells.update(i as int, shown@));
                }
                lemma_with_cell(cur, px, py, shown@);
                lemma_count_update(cur.cells, i as int, shown@, |c: SquareView| c.hidden);
                lemma_same_contents(o, self@);
            }
            let ghost st2 = stack@;
            if sq.is_empty() {
                self.push_neighbours(stack, cx, cy);
                proof {
                    assert forall|k: int| 0 <= k < stack@.len() implies stack_entry_ok(o, sx, sy, #[trigger] stack@[k]) by {
                        if k >= st2.len() {
                            assert(o.flood_reaches(sx, sy, px, py));
                        } else {
                            assert(stack@[k] == st2[k]);
                        }
                    }
                }
            }
        }
        proof {
            let ns = stack@;
            let new = self@;
            assert(forall|k: int| 0 <= k < st.len() - 1 ==> #[trigger] ns[k] == st[k]);
            assert forall|a: int, b: int|
                #![trigger new.cell(a, b)]
                o.in_bounds(a, b) implies (new.cell(a, b).hidden ==> cur.cell(a, b).hidden)
                    && new.cell(a, b).is_mine() == cur.cell(a, b).is_mine() && (cur.cell(a, b).hidden
                    && !new.cell(a, b).hidden ==> a == px && b == py) by {
                assert(cur.cell(a, b).content == o.cell(a, b).content);
                assert(new.cell(a, b).content == o.cell(a, b).content);
            }
            lemma_covered_step(cur, new, st, ns, px, py, sx, sy);
            lemma_flood_closed_step(o, cur, new, st, ns, px, py);
            reveal(flood_inv);
        }
    }

    /// Reveals the empty island around `(x, y)`: every square reached through
    /// hidden empty squares, the numbers on its border included.
    fn show_empty_squares(&mut self, x: u32, y: u32)
        requires
            old(self).wf(),
            old(self)@.placed,
            old(self)@.in_bounds(x as int, y as int),
        ensures
            final(self).wf(),
            final(self)@.is_flood_of(old(self)@, x as int, y as int),
    {
        let ghost o = self@;
        let ghost sx = x as int;
        let ghost sy = y as int;
        let mut stack: Vec<(u32, u32)> = Vec::new();
        stack.push((x, y));
        proof {
            assert(on_stack(stack@, sx, sy)) by {
                assert(stack@[0].0 == x && stack@[0].1 == y);
            }
            assert(flood_closed(o, self@, stack@)) by {
                reveal(flood_closed);
            }
            reveal(flood_inv);
        }
        while stack.len() > 0
            invariant
                flood_inv(self@, o, stack@, sx, sy),
            decreases self@.hidden_count(), stack@.len(),
        {
            self.flood_step(&mut stack, Ghost(o), Ghost(sx), Ghost(sy));
        }
        proof {
            reveal(flood_inv);
            assert(stack@ =~= Seq::<(u32, u32)>::empty());
            assert forall|a: int, b: int|
                #![trigger self@.cell(a, b)]
                o.in_bounds(a, b) implies self@.cell(a, b).is_mine() == o.cell(a, b).is_mine() by {
            }
            assert forall|a: int, b: int|
                #![trigger self@.cell(a, b)]
                o.in_bounds(a, b) && o.flood_reaches(sx, sy, a, b) implies self@.cell(a, b) == o.cell(a, b).shown() by {
                let p = choose|p: Seq<(int, int)>| #[trigger] o.is_flood_path(p, sx, sy) && p.last() == (a, b);
                lemma_flood_complete(o, self@, sx, sy, p);
            }
        }
    }

    /// 1 if `(x, y)` is on the board and holds a mine, else 0.
    fn mine_at(&self, x: i64, y: i64) -> (r: u8)
        requires
            self@.shape_ok(),
        ensures
            r == self@.mine_at(x as int, y as int),
    {
        if 0 <= x && x < self.width as i64 && 0 <= y && y < self.height as i64 {
            let i = self.index(x as u32, y as u32);
            if self.squares[i].is_mine() {
                1
            } else {
                0
            }
        } else {
            0
        }
    }

    /// The number of mines among the up to eight neighbours of `(x, y)`.
    fn surrounding_mines(&self, x: u32, y: u32) -> (r: u8)
        requires
            self@.shape_ok(),
            self@.in_bounds(x as int, y as int),
        ensures
            r == self@.adjacent_mines(x as int, y as int),
            r <= 8,
    {
        reveal(BoardView::adjacent_mines);
        let xi = x as i64;
        let yi = y as i64;
        self.mine_at(xi - 1, yi - 1) + self.mine_at(xi, yi - 1) + self.mine_at(xi + 1, yi - 1)
            + self.mine_at(xi - 1, yi) + self.mine_at(xi + 1, yi) + self.mine_at(xi - 1, yi + 1)
            + self.mine_at(xi, yi + 1) + self.mine_at(xi + 1, yi + 1)
    }

    /// Gives every square that is no mine the number of mines around it,
    /// and records that the mines are laid.
    fn generate_numbers(&mut self)
        requires
            old(self)@.shape_ok(),
            old(self)@.mine_count() == old(self)@.total_mines,
        ensures
            final(self).wf(),
            final(self)@.placed,
            final(self)@.width == old(self)@.width,
            final(self)@.height == old(self)@.height,
            final(self)@.total_mines == old(self)@.total_mines,
            final(self)@.cells.len() == old(self)@.cells.len(),
            forall|j: int|
                0 <= j < old(self)@.cells.len() ==> (#[trigger] final(self)@.cells[j]).is_mine()
                    == old(self)@.cells[j].is_mine() && final(self)@.cells[j].hidden
                    == old(self)@.cells[j].hidden && final(self)@.cells[j].marked == old(self)@.cells[j].marked,
    {
        let ghost s0 = self@;
        let n = self.squares.len();
        let mut i: usize = 0;
        let mut x: u32 = 0;
        let mut y: u32 = 0;
        while i < n
            invariant
                s0.shape_ok(),
                self@.shape_ok(),
                n == s0.cells.len(),
                self@.width == s0.width,
                self@.height == s0.height,
                self@.total_mines == s0.total_mines,
                self@.placed == s0.placed,
                self@.cells.len() == n,
                0 <= i <= n,
                x < s0.width,
                i == y * s0.width + x,
                i < n ==> y < s0.height,
                forall|j: int|
                    0 <= j < n ==> (#[trigger] self@.cells[j]).is_mine() == s0.cells[j].is_mine()
                        && self@.cells[j].hidden == s0.cells[j].hidden && self@.cells[j].marked
                        == s0.cells[j].marked,
                forall|a: int, b: int|
                    #![trigger self@.cell(a, b)]
                    s0.in_bounds(a, b) && s0.idx(a, b) < i && !s0.cell(a, b).is_mine() ==> self@.cell(a, b).content
                        == content_for(s0.adjacent_mines(a, b)),
            decreases n - i,
        {
            let ghost cur = self@;
            proof {
                lemma_same_mines(s0, cur);
            }
            if !self.squares[i].is_mine() {
                let m = self.surrounding_mines(x, y);
                let mut sq = self.squares[i];
                if m == 0 {
                    sq.set_empty();
                } else {
                    sq.set_value(m);
                }
                self.squares.set(i, sq);
                proof {
                    assert(self@ == cur.with_cell(x as int, y as int, sq@)) by {
                        assert(self@.cells =~= cur.cells.update(i as int, sq@));
                    }
                    lemma_with_cell(cur, x as int, y as int, sq@);
                    assert(sq@.hidden == cur.cells[i as int].hidden && sq@.marked == cur.cells[i as int].marked);
                    assert forall|j: int| 0 <= j < n implies (#[trigger] self@.cells[j]).is_mine() == s0.cells[j].is_mine()
                        && self@.cells[j].hidden == s0.cells[j].hidden && self@.cells[j].marked
                        == s0.cells[j].marked by {
                        assert(cur.cells[j].is_mine() == s0.cells[j].is_mine());
                    }
                }
            }
            proof {
                assert forall|a: int, b: int|
                    #![trigger self@.cell(a, b)]
                    s0.in_bounds(a, b) && s0.idx(a, b) < i + 1 && !s0.cell(a, b).is_mine() implies self@.cell(
                        a,
                        b,
                    ).content == content_for(s0.adjacent_mines(a, b)) by {
                    lemma_idx(s0.width, s0.height, a, b);
                    if s0.idx(a, b) == i {
                        lemma_idx_injective(s0.width, a, b, x as int, y as int);
                    } else {
                        assert(cur.cell(a, b).content == content_for(s0.adjacent_mines(a, b)));
                    }
                }
            }
            i += 1;
            if x + 1 < self.width {
                x += 1;
            } else {
                proof {
                    assert((y + 1) * s0.width == y * s0.width + s0.width) by (nonlinear_arith);
                }
                x = 0;
                y += 1;
            }
            proof {
                if i < n && y >= s0.height {
                    assert(y * s0.width >= s0.height * s0.width) by (nonlinear_arith)
                        requires
                            y >= s0.height,
                            s0.width > 0,
                    ;
                    assert(s0.height * s0.width == s0.width * s0.height) by (nonlinear_arith);
                }
            }
        }
        let ghost fin = self@;
        self.placed = true;
        proof {
            lemma_same_mines(s0, self@);
            assert(self@.cells == fin.cells);
            assert forall|a: int, b: int|
                #![trigger self@.cell(a, b)]
                self@.in_bounds(a, b) && !self@.cell(a, b).is_mine() implies self@.cell(a, b).content
                    == content_for(self@.adjacent_mines(a, b)) by {
                lemma_idx(s0.width, s0.height, a, b);
                assert(self@.cell(a, b) == fin.cell(a, b));
                assert(s0.cell(a, b).is_mine() == fin.cell(a, b).is_mine());
                assert(fin.cell(a, b).content == content_for(s0.adjacent_mines(a, b)));
            }
        }
    }

    /// Lays the mines, then the numbers around them, taking the square for
    /// each mine from one draw: the draw `d` picks, among the squares that
    /// are free (no mine yet, and not `(x, y)`), the one with `d % f` free
    /// squares before it in row order, `f` being how many are free.
    pub fn add_mines_with(&mut self, x: u32, y: u32, draws: &Vec<u32>)
        requires
            old(self).wf(),
            !old(self)@.placed,
            old(self)@.in_bounds(x as int, y as int),
            draws@.len() == old(self)@.total_mines,
        ensures
            final(self)@.is_placement_of(old(self)@, x as int, y as int),
            forall|j: int|
                0 <= j < old(self)@.cells.len() ==> (#[trigger] final(self)@.cells[j]).is_mine() == lay_mines(
                    old(self)@.cells,
                    old(self)@.idx(x as int, y as int),
                    draws@,
                )[j].is_mine(),
    {
        let ghost s0 = self@;
        let e = self.index(x, y);
        let n = self.squares.len();
        proof {
            assert forall|i: int| 0 <= i < n implies !(#[trigger] s0.cells[i]).is_mine() by {
                assert(s0.cells[i].hidden);
            }
            lemma_count_bounds(s0.cells, |c: SquareView| c.is_mine());
            assert(draws@.subrange(0, 0) =~= Seq::<u32>::empty());
        }
        let mut k: usize = 0;
        while k < draws.len()
            invariant
                s0.wf(),
                !s0.placed,
                self@.shape_ok(),
                self@.width == s0.width,
                self@.height == s0.height,
                self@.total_mines == s0.total_mines,
                self@.placed == s0.placed,
                n == s0.cells.len(),
                e < n,
                e == s0.idx(x as int, y as int),
                draws@.len() == s0.total_mines,
                0 <= k <= draws@.len(),
                self@.cells == lay_mines(s0.cells, e as int, draws@.subrange(0, k as int)),
                self@.mine_count() == k,
                !self@.cells[e as int].is_mine(),
                forall|j: int|
                    0 <= j < n ==> (#[trigger] self@.cells[j]).hidden == s0.cells[j].hidden
                        && self@.cells[j].marked == s0.cells[j].marked,
            decreases draws@.len() - k,
        {
            let ghost prev = self@.cells;
            proof {
                lemma_free_count(prev, e as int, n as int);
                assert(prev.subrange(0, n as int) =~= prev);
            }
            let f = (n - 1 - k) as u32;
            let r = draws[k] % f;
            let mut j: usize = 0;
            let mut c: u32 = 0;
            while j < n && !(j != e && !self.squares[j].is_mine() && c == r)
                invariant
                    self@.cells == prev,
                    prev.len() == n,
                    0 <= j <= n,
                    c == free_before(prev, e as int, j as int),
                    c <= r,
                decreases n - j,
            {
                if j != e && !self.squares[j].is_mine() {
                    c += 1;
                }
                j += 1;
            }
            proof {
                if j == n {
                    assert(free_before(prev, e as int, n as int) == f);
                }
                assert forall|j2: int|
                    0 <= j2 < prev.len() && j2 != e && !prev[j2].is_mine() && free_before(prev, e as int, j2) == r
                    implies j2 == j by {
                    if j2 < j {
                        lemma_free_before_grows(prev, e as int, j2, j as int);
                    } else if j < j2 {
                        lemma_free_before_grows(prev, e as int, j as int, j2);
                    }
                }
            }
            let mut sq = self.squares[j];
            sq.set_mine();
            self.squares.set(j, sq);
            proof {
                assert(self@.cells =~= prev.update(j as int, prev[j as int].with_content(SquareContent::Mine)));
                assert(draws@.subrange(0, k + 1).drop_last() =~= draws@.subrange(0, k as int));
                assert(draws@.subrange(0, k + 1).last() == draws@[k as int]);
                assert(self@.cells == lay_one(prev, e as int, r as int));
                lemma_count_update(prev, j as int, prev[j as int].with_content(SquareContent::Mine), |c: SquareView| c.is_mine());
            }
            k += 1;
        }
        proof {
            assert(draws@.subrange(0, k as int) =~= draws@);
        }
        self.generate_numbers();
    }

    /// Lays the mines at random, none on `(x, y)`, then the numbers around
    /// them.
    pub fn add_mines(&mut self, x: u32, y: u32)
        requires
            old(self).wf(),
            !old(self)@.placed,
            old(self)@.in_bounds(x as int, y as int),
        ensures
            final(self)@.is_placement_of(old(self)@, x as int, y as int),
    {
        let free = (self.squares.len() - 1) as u32;
        let mut draws: Vec<u32> = Vec::new();
        let mut k: u32 = 0;
        while k < self.total_mines
            invariant
                self.wf(),
                free == self@.cells.len() - 1,
                k <= self@.total_mines,
                draws@.len() == k,
            decreases self@.total_mines - k,
        {
            draws.push(random_below(free - k));
            k += 1;
        }
        self.add_mines_with(x, y, &draws);
    }

    /// Reveals the square at `(x, y)`; nothing happens off the board. Where
    /// no mines are laid yet they are laid first, none on `(x, y)`, so the
    /// first square revealed is never a mine. An empty square
    /// reveals its whole empty island with the numbers on its border; any
    /// other square is revealed alone.
    pub fn show_square(&mut self, x: u32, y: u32)
        requires
            old(self).wf(),
        ensures
            final(self).wf(),
            final(self)@.is_show_of(old(self)@, x as int, y as int),
            old(self)@.in_bounds(x as int, y as int) ==> !final(self)@.cell(x as int, y as int).hidden,
            old(self)@.in_bounds(x as int, y as int) && !old(self)@.placed ==> !final(self)@.cell(
                x as int,
                y as int,
            ).is_mine(),
            old(self)@.in_bounds(x as int, y as int) && old(self)@.placed && old(self)@.cell(
                x as int,
                y as int,
            ).is_mine() ==> final(self)@.defeat(),
            forall|a: int, b: int|
                #![trigger final(self)@.cell(a, b)]
                old(self)@.placed && old(self)@.in_bounds(a, b) ==> final(self)@.cell(a, b).content == old(
                    self,
                )@.cell(a, b).content,
    {
        if !(x < self.width && y < self.height) {
            return;
        }
        if !self.placed {
            self.add_mines(x, y);
        }
        let ghost mid = self@;
        let i = self.index(x, y);
        if self.squares[i].is_empty() {
            self.show_empty_squares(x, y);
            proof {
                lemma_idx(mid.width, mid.height, x as int, y as int);
                let p = seq![(x as int, y as int)];
                assert(p.last() == (x as int, y as int));
                if mid.cell(x as int, y as int).hidden {
                    assert(mid.is_flood_path(p, x as int, y as int));
                }
            }
        } else {
            let mut sq = self.squares[i];
            sq.show();
            self.squares.set(i, sq);
            proof {
                assert(self@.cells =~= mid.cells.update(i as int, sq@));
                lemma_with_cell(mid, x as int, y as int, sq@);
                lemma_same_contents(mid, self@);
                lemma_idx(mid.width, mid.height, x as int, y as int);
                let c = self@.cells[i as int];
                assert(!c.hidden && c.is_mine() ==> self@.defeat());
            }
        }
        proof {
            if !old(self)@.placed {
                assert(mid.is_placement_of(old(self)@, x as int, y as int));
            }
        }
    }

    /// The flat index of `(x, y)`.
    fn index(&self, x: u32, y: u32) -> (i: usize)
        requires
            self@.shape_ok(),
            self@.in_bounds(x as int, y as int),
        ensures
            i == self@.idx(x as int, y as int),
            i < self.squares@.len(),
    {
        proof {
            lemma_idx(self.width as int, self.height as int, x as int, y as int);
        }
        y as usize * self.width as usize + x as usize
    }

    /// The square at `(x, y)`.
    pub fn square(&self, x: u32, y: u32) -> (s: Square)
        requires
            self.wf(),
            self@.in_bounds(x as int, y as int),
        ensures
            s@ == self@.cell(x as int, y as int),
    {
        let i = self.index(x, y);
        self.squares[i]
    }
}

} // verus!
