//! Text commands for the board: `s x y` reveals the square at column `x`,
//! row `y`, and `m x y` marks it, both counted from 1.

use vstd::prelude::*;
use vstd::string::StrSliceExecFns;

use crate::board::Board;

verus! {

/// A command of the player, with coordinates counted from 0.
#[derive(Clone, Copy, PartialEq, Eq, Structural, Debug)]
pub enum Command {
    Show(u32, u32),
    Mark(u32, u32),
}

/// The index of the first space of `s` at or after `from`, or the length of
/// `s` where there is none.
pub open spec fn next_space(s: Seq<char>, from: int) -> int
    decreases s.len() - from,
{
    if from >= s.len() {
        s.len() as int
    } else if s[from] == ' ' {
        from
    } else {
        next_space(s, from + 1)
    }
}

/// Whether `s` is a non-empty string of decimal digits.
pub open spec fn is_decimal(s: Seq<char>) -> bool {
    s.len() > 0 && forall|i: int| 0 <= i < s.len() ==> '0' <= #[trigger] s[i] <= '9'
}

/// The value of a string of decimal digits.
pub open spec fn decimal_value(s: Seq<char>) -> int
    decreases s.len(),
{
    if s.len() == 0 {
        0
    } else {
        decimal_value(s.drop_last()) * 10 + (s.last() as int - '0' as int)
    }
}

/// The coordinate, counted from 0, that a number counted from 1 stands for.
pub open spec fn coordinate(s: Seq<char>) -> Option<u32> {
    if is_decimal(s) && 1 <= decimal_value(s) <= u32::MAX {
        Some((decimal_value(s) - 1) as u32)
    } else {
        None
    }
}

/// The command that a line holds: the words are separated by single
/// spaces; the first is `s` or `m`, the next two are numbers from 1, and
/// any further words are ignored.
pub open spec fn command_of(s: Seq<char>) -> Option<Command> {
    let e0 = next_space(s, 0);
    let e1 = next_space(s, e0 + 1);
    let e2 = next_space(s, e1 + 1);
    if e1 >= s.len() {
        None
    } else {
        let action = s.subrange(0, e0);
        match (coordinate(s.subrange(e0 + 1, e1)), coordinate(s.subrange(e1 + 1, e2))) {
            (Some(x), Some(y)) => if action == seq!['s'] {
                Some(Command::Show(x, y))
            } else if action == seq!['m'] {
                Some(Command::Mark(x, y))
            } else {
                None
            },
            _ => None,
        }
    }
}

proof fn lemma_next_space_bounds(s: Seq<char>, from: int)
    requires
        0 <= from,
    ensures
        from <= next_space(s, from) || (from > s.len() && next_space(s, from) == s.len()),
        next_space(s, from) <= s.len(),
        forall|i: int| from <= i < next_space(s, from) ==> s[i] != ' ',
        next_space(s, from) < s.len() ==> s[next_space(s, from)] == ' ',
    decreases s.len() - from,
{
    if from < s.len() && s[from] != ' ' {
        lemma_next_space_bounds(s, from + 1);
    }
}

/// Adding digits never makes a number smaller.
proof fn lemma_decimal_grows(s: Seq<char>, i: int)
    requires
        0 <= i <= s.len(),
        is_decimal(s),
    ensures
        decimal_value(s.subrange(0, i)) <= decimal_value(s),
        0 <= decimal_value(s.subrange(0, i)),
    decreases s.len() - i,
{
    if i < s.len() {
        lemma_decimal_grows(s, i + 1);
        assert(s.subrange(0, i + 1).drop_last() =~= s.subrange(0, i));
        assert('0' <= s[i] <= '9');
    } else {
        assert(s.subrange(0, i) =~= s);
        lemma_decimal_nonneg(s);
    }
}

proof fn lemma_decimal_nonneg(s: Seq<char>)
    requires
        forall|i: int| 0 <= i < s.len() ==> '0' <= #[trigger] s[i] <= '9',
    ensures
        0 <= decimal_value(s),
    decreases s.len(),
{
    if s.len() > 0 {
        lemma_decimal_nonneg(s.drop_last());
    }
}

/// The characters of `line`.
fn chars_of(line: &str) -> (r: Vec<char>)
    ensures
        r@ == line@,
{
    let n = line.unicode_len();
    let mut r: Vec<char> = Vec::new();
    let mut i: usize = 0;
    while i < n
        invariant
            n == line@.len(),
            i <= n,
            r@ == line@.subrange(0, i as int),
        decreases n - i,
    {
        r.push(line.get_char(i));
        i += 1;
        assert(r@ =~= line@.subrange(0, i as int));
    }
    assert(r@ =~= line@);
    r
}

/// The index of the first space of `s` at or after `from`, or its length.
fn find_space(s: &Vec<char>, from: usize) -> (r: usize)
    ensures
        r == next_space(s@, from as int),
{
    if from >= s.len() {
        return s.len();
    }
    let mut i = from;
    while i < s.len() && s[i] != ' '
        invariant
            from <= i <= s@.len(),
            next_space(s@, from as int) == next_space(s@, i as int),
        decreases s@.len() - i,
    {
        i += 1;
    }
    i
}

/// The coordinate that the characters `from..to` of `s` stand for.
fn parse_coordinate(s: &Vec<char>, from: usize, to: usize) -> (r: Option<u32>)
    requires
        from <= to <= s@.len(),
    ensures
        r == coordinate(s@.subrange(from as int, to as int)),
{
    let ghost t = s@.subrange(from as int, to as int);
    if from == to {
        return None;
    }
    let mut i = from;
    while i < to
        invariant
            from <= i <= to,
            to <= s@.len(),
            t == s@.subrange(from as int, to as int),
            forall|j: int| 0 <= j < i - from ==> '0' <= #[trigger] t[j] <= '9',
        decreases to - i,
    {
        if !('0' <= s[i] && s[i] <= '9') {
            assert(!is_decimal(t)) by {
                assert(t[i - from] == s@[i as int]);
            }
            return None;
        }
        i += 1;
    }
    assert(is_decimal(t));
    let mut v: u64 = 0;
    let mut i = from;
    while i < to
        invariant
            from <= i <= to,
            to <= s@.len(),
            t == s@.subrange(from as int, to as int),
            is_decimal(t),
            v == decimal_value(t.subrange(0, i - from)),
            v <= u32::MAX,
        decreases to - i,
    {
        proof {
            assert(t[i - from] == s@[i as int]);
            assert('0' <= t[i - from] <= '9');
        }
        let d = (s[i] as u32 - '0' as u32) as u64;
        proof {
            assert(t.subrange(0, i - from + 1).drop_last() =~= t.subrange(0, i - from));
        }
        v = v * 10 + d;
        i += 1;
        if v > u32::MAX as u64 {
            proof {
                lemma_decimal_grows(t, i - from);
            }
            return None;
        }
    }
    assert(t.subrange(0, i - from) =~= t);
    if v == 0 {
        None
    } else {
        Some((v - 1) as u32)
    }
}

/// The command that `line` holds, if any.
pub fn parse_command(line: &str) -> (r: Option<Command>)
    ensures
        r == command_of(line@),
{
    let s = chars_of(line);
    let e0 = find_space(&s, 0);
    proof {
        lemma_next_space_bounds(s@, 0);
    }
    if e0 >= s.len() {
        return None;
    }
    let e1 = find_space(&s, e0 + 1);
    proof {
        lemma_next_space_bounds(s@, e0 + 1);
    }
    if e1 >= s.len() {
        return None;
    }
    let e2 = find_space(&s, e1 + 1);
    proof {
        lemma_next_space_bounds(s@, e1 + 1);
    }
    let x = parse_coordinate(&s, e0 + 1, e1);
    let y = parse_coordinate(&s, e1 + 1, e2);
    match (x, y) {
        (Some(x), Some(y)) => {
            if e0 == 1 && s[0] == 's' {
                assert(s@.subrange(0, e0 as int) =~= seq!['s']);
                Some(Command::Show(x, y))
            } else if e0 == 1 && s[0] == 'm' {
                assert(s@.subrange(0, e0 as int) =~= seq!['m']);
                assert(seq!['m'][0] != seq!['s'][0]);
                Some(Command::Mark(x, y))
            } else {
                proof {
                    if e0 == 1 {
                        assert(s@.subrange(0, e0 as int)[0] == s@[0]);
                    } else {
                        assert(s@.subrange(0, e0 as int).len() != 1);
                    }
                }
                None
            }
        },
        _ => None,
    }
}

/// A value that a line of text typed by the player acts on.
pub trait ConsoleInput: Sized {
    /// Whether the value can take a command.
    spec fn ready(&self) -> bool;

    /// Whether `after` is what `before` becomes on the line `line`.
    spec fn follows_line(after: &Self, before: &Self, line: Seq<char>) -> bool;

    /// Carries out the command that `string` holds; a line that holds none
    /// changes nothing.
    fn console_input(&mut self, string: &str)
        requires
            old(self).ready(),
        ensures
            final(self).ready(),
            Self::follows_line(final(self), old(self), string@),
    ;
}

impl ConsoleInput for Board {
    open spec fn ready(&self) -> bool {
        self.wf()
    }

    open spec fn follows_line(after: &Board, before: &Board, line: Seq<char>) -> bool {
        match command_of(line) {
            Some(Command::Show(x, y)) => after@.is_show_of(before@, x as int, y as int),
            Some(Command::Mark(x, y)) => after@.is_mark_of(before@, x as int, y as int),
            None => after@ == before@,
        }
    }

    fn console_input(&mut self, string: &str) {
        match parse_command(string) {
            Some(Command::Show(x, y)) => self.show_square(x, y),
            Some(Command::Mark(x, y)) => self.mark_square(x, y),
            None => {},
        }
    }
}

} // verus!
