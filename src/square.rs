//! The square, the building block of the board.

use vstd::prelude::*;

verus! {

/// What a square holds.
#[derive(Clone, Copy, PartialEq, Eq, Structural, Debug)]
pub enum SquareContent {
    /// The number of mines around the square, from 1 to 8.
    Value(u8),
    /// No mine around the square.
    Empty,
    /// The square is a mine.
    Mine,
}

/// The mathematical value of a square.
pub struct SquareView {
    pub content: SquareContent,
    pub hidden: bool,
    pub marked: bool,
}

impl SquareView {
    pub open spec fn is_mine(self) -> bool {
        self.content == SquareContent::Mine
    }

    pub open spec fn is_empty(self) -> bool {
        self.content == SquareContent::Empty
    }

    /// The square once revealed: visible, and no longer marked.
    pub open spec fn shown(self) -> SquareView {
        SquareView { hidden: false, marked: false, ..self }
    }

    /// The square once marked as a suspected mine.
    pub open spec fn marked_up(self) -> SquareView {
        SquareView { marked: true, ..self }
    }

    /// The square with its content replaced.
    pub open spec fn with_content(self, content: SquareContent) -> SquareView {
        SquareView { content: content, ..self }
    }
}

/// A square of the board: its content, whether it is hidden, and whether
/// the player marked it as a mine.
#[derive(Clone, Copy, Debug)]
pub struct Square {
    content: SquareContent,
    hidden: bool,
    marked: bool,
}

impl View for Square {
    type V = SquareView;

    closed spec fn view(&self) -> SquareView {
        SquareView { content: self.content, hidden: self.hidden, marked: self.marked }
    }
}

impl Square {
    /// A hidden, unmarked, empty square.
    pub fn new() -> (s: Square)
        ensures
            s@ == (SquareView { content: SquareContent::Empty, hidden: true, marked: false }),
    {
        Square { content: SquareContent::Empty, hidden: true, marked: false }
    }

    pub fn set_mine(&mut self)
        ensures
            final(self)@ == old(self)@.with_content(SquareContent::Mine),
    {
        self.content = SquareContent::Mine;
    }

    pub fn set_value(&mut self, x: u8)
        requires
            0 < x < 10,
        ensures
            final(self)@ == old(self)@.with_content(SquareContent::Value(x)),
    {
        self.content = SquareContent::Value(x);
    }

    pub fn set_empty(&mut self)
        ensures
            final(self)@ == old(self)@.with_content(SquareContent::Empty),
    {
        self.content = SquareContent::Empty;
    }

    /// Marks the square as a suspected mine; marking twice changes nothing.
    pub fn mark(&mut self)
        ensures
            final(self)@ == old(self)@.marked_up(),
    {
        self.marked = true;
    }

    /// Reveals the square and clears its mark; showing twice changes nothing.
    pub fn show(&mut self)
        ensures
            final(self)@ == old(self)@.shown(),
    {
        self.marked = false;
        self.hidden = false;
    }

    pub fn is_empty(&self) -> (r: bool)
        ensures
            r == self@.is_empty(),
    {
        self.content == SquareContent::Empty
    }

    pub fn is_mine(&self) -> (r: bool)
        ensures
            r == self@.is_mine(),
    {
        self.content == SquareContent::Mine
    }

    pub fn is_marked(&self) -> (r: bool)
        ensures
            r == self@.marked,
    {
        self.marked
    }

    pub fn is_hidden(&self) -> (r: bool)
        ensures
            r == self@.hidden,
    {
        self.hidden
    }

    /// The content, for whoever draws the square.
    pub fn content(&self) -> (r: SquareContent)
        ensures
            r == self@.content,
    {
        self.content
    }
}

} // verus!
