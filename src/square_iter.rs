//! A walk over all the squares of a board, row by row.

use vstd::arithmetic::div_mod::{lemma_div_pos_is_pos, lemma_fundamental_div_mod, lemma_mod_pos_bound};
use vstd::prelude::*;

use crate::board::Board;
use crate::board_view::lemma_idx;
use crate::square::{Square, SquareView};

verus! {

/// Hands out the squares of a board one by one, row by row.
pub struct SquareIter<'a> {
    board: &'a Board,
    n: u32,
}

impl<'a> SquareIter<'a> {
    /// The squares that the walk goes over.
    pub closed spec fn squares(&self) -> Seq<SquareView> {
        self.board@.cells
    }

    /// How many squares have been handed out.
    pub closed spec fn pos(&self) -> int {
        self.n as int
    }

    pub closed spec fn wf(&self) -> bool {
        self.board.wf() && self.n <= self.board@.cells.len()
    }

    /// A walk from the first square of `board`.
    pub fn new(board: &'a Board) -> (it: SquareIter<'a>)
        requires
            board.wf(),
        ensures
            it.wf(),
            it.squares() == board@.cells,
            it.pos() == 0,
    {
        SquareIter { board, n: 0 }
    }

    /// The coordinates of the next square.
    fn n_to_2d(&self) -> (r: (u32, u32))
        requires
            self.wf(),
        ensures
            r.0 < self.board@.width,
            self.board@.idx(r.0 as int, r.1 as int) == self.n,
            self.n < self.board@.cells.len() <==> r.1 < self.board@.height,
    {
        let w = self.board.width();
        let r = (self.n % w, self.n / w);
        proof {
            let n = self.n as int;
            let wi = w as int;
            let h = self.board@.height;
            lemma_fundamental_div_mod(n, wi);
            lemma_mod_pos_bound(n, wi);
            lemma_div_pos_is_pos(n, wi);
            assert(wi * (n / wi) == (n / wi) * wi) by (nonlinear_arith);
            if n / wi < h {
                lemma_idx(wi, h, n % wi, n / wi);
            } else {
                assert((n / wi) * wi >= h * wi) by (nonlinear_arith)
                    requires
                        n / wi >= h,
                        wi > 0,
                ;
                assert(h * wi == wi * h) by (nonlinear_arith);
            }
        }
        r
    }

    /// The next square, or `None` once all have been handed out.
    pub fn next(&mut self) -> (r: Option<Square>)
        requires
            old(self).wf(),
        ensures
            final(self).wf(),
            final(self).squares() == old(self).squares(),
            old(self).pos() < old(self).squares().len() ==> r is Some && r->Some_0@ == old(self).squares()[old(
                self,
            ).pos()] && final(self).pos() == old(self).pos() + 1,
            old(self).pos() >= old(self).squares().len() ==> r is None && final(self).pos() == old(self).pos(),
    {
        let (x, y) = self.n_to_2d();
        if !(y < self.board.height()) {
            None
        } else {
            self.n = self.n + 1;
            Some(self.board.square(x, y))
        }
    }

    /// The number of squares left to hand out.
    pub fn count(self) -> (r: u32)
        requires
            self.wf(),
        ensures
            r == self.squares().len() - self.pos(),
    {
        let mut it = self;
        let mut c: u32 = 0;
        let mut done = false;
        while !done
            invariant
                it.wf(),
                it.squares() == self.squares(),
                c + it.squares().len() - it.pos() == self.squares().len() - self.pos(),
                done ==> it.pos() >= it.squares().len(),
            decreases it.squares().len() - it.pos() + if done {
                0int
            } else {
                1int
            },
        {
            match it.next() {
                Some(_) => {
                    c += 1;
                },
                None => {
                    done = true;
                },
            }
        }
        c
    }
}

impl Board {
    /// A walk over all the squares, row by row.
    pub fn iter(&self) -> (it: SquareIter<'_>)
        requires
            self.wf(),
        ensures
            it.wf(),
            it.squares() == self@.cells,
            it.pos() == 0,
    {
        SquareIter::new(self)
    }
}

} // verus!
