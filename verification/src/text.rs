use vstd::prelude::*;
use vstd::string::StringExecFns;
use crate::error::Error;
use crate::maze::{Coord, Orientation, Point, Wall};

verus! {

/// The text that `str::to_lowercase` makes of a text: each character
/// replaced by its lowercase form as Unicode defines it.
pub uninterp spec fn lowercase(s: Seq<char>) -> Seq<char>;

/// Turns a text into lowercase with `str::to_lowercase`, whose result
/// depends on the characters of the text alone.
#[verifier::external_body]
pub(crate) fn to_lowercase(s: &str) -> (r: String)
    ensures
        r@ == lowercase(s@),
{
    s.to_lowercase()
}

/// The digit that stands for a number below ten.
pub open spec fn digit_text(d: int) -> Seq<char> {
    if d == 0 {
        "0"@
    } else if d == 1 {
        "1"@
    } else if d == 2 {
        "2"@
    } else if d == 3 {
        "3"@
    } else if d == 4 {
        "4"@
    } else if d == 5 {
        "5"@
    } else if d == 6 {
        "6"@
    } else if d == 7 {
        "7"@
    } else if d == 8 {
        "8"@
    } else {
        "9"@
    }
}

/// A number that is not negative, in decimal digits.
pub open spec fn natural_text(n: int) -> Seq<char>
    decreases n,
{
    if n < 10 {
        digit_text(n)
    } else {
        natural_text(n / 10) + digit_text(n % 10)
    }
}

/// A whole number, in decimal digits, with a minus sign if it is negative.
pub open spec fn integer_text(i: int) -> Seq<char> {
    if i < 0 {
        "-"@ + natural_text(-i)
    } else {
        natural_text(i)
    }
}

/// A pair of coordinates in brackets.
pub open spec fn pair_text(x: int, y: int) -> Seq<char> {
    "("@ + integer_text(x) + ", "@ + integer_text(y) + ")"@
}

/// The way a wall runs, as a word.
pub open spec fn orientation_text(o: Orientation) -> Seq<char> {
    match o {
        Orientation::Horizontal => "Horizontal"@,
        Orientation::Vertical => "Vertical"@,
    }
}

/// A wall: the way it runs and where it stands.
pub open spec fn wall_text(w: Wall) -> Seq<char> {
    "[Wall "@ + orientation_text(w.orientation) + " @ "@ + pair_text(
        w.center.x as int,
        w.center.y as int,
    ) + "]"@
}

/// What went wrong, as a sentence.
pub open spec fn error_text(e: Error) -> Seq<char> {
    match e {
        Error::NotNeighbours(c1, c2) => pair_text(c1.x as int, c1.y as int) + " and "@ + pair_text(
            c2.x as int,
            c2.y as int,
        ) + " are not neighbours"@,
        Error::BorderWall(wall) => "Tried to remove non border wall "@ + wall_text(wall),
        Error::MissingSet(c) => "Missing set for coord "@ + pair_text(c.x as int, c.y as int),
        Error::UnsupportedGenerator(name) => "Unsupported generator "@ + name@,
        Error::UnsupportedSolver(name) => "Unsupported solver "@ + name@,
        Error::ImpossibleMaze => "Impossible maze"@,
    }
}

fn digit(d: u8) -> (r: &'static str)
    requires
        d < 10,
    ensures
        r@ == digit_text(d as int),
{
    if d == 0 {
        "0"
    } else if d == 1 {
        "1"
    } else if d == 2 {
        "2"
    } else if d == 3 {
        "3"
    } else if d == 4 {
        "4"
    } else if d == 5 {
        "5"
    } else if d == 6 {
        "6"
    } else if d == 7 {
        "7"
    } else if d == 8 {
        "8"
    } else {
        "9"
    }
}

fn push_natural(text: &mut String, n: u64)
    ensures
        final(text)@ == old(text)@ + natural_text(n as int),
    decreases n,
{
    if n >= 10 {
        push_natural(text, n / 10);
    }
    text.append(digit((n % 10) as u8));
    proof {
        if n >= 10 {
            assert(old(text)@ + natural_text(n as int) =~= old(text)@ + natural_text(n as int / 10)
                + digit_text(n as int % 10));
        }
    }
}

fn push_integer(text: &mut String, i: i32)
    ensures
        final(text)@ == old(text)@ + integer_text(i as int),
{
    if i < 0 {
        text.append("-");
        push_natural(text, (-(i as i64)) as u64);
        assert(text@ =~= old(text)@ + ("-"@ + natural_text(-(i as int))));
    } else {
        push_natural(text, i as u64);
    }
}

fn push_pair(text: &mut String, x: i32, y: i32)
    ensures
        final(text)@ == old(text)@ + pair_text(x as int, y as int),
{
    text.append("(");
    push_integer(text, x);
    text.append(", ");
    push_integer(text, y);
    text.append(")");
    assert(text@ =~= old(text)@ + pair_text(x as int, y as int));
}

fn push_wall(text: &mut String, wall: &Wall)
    ensures
        final(text)@ == old(text)@ + wall_text(*wall),
{
    text.append("[Wall ");
    match wall.orientation {
        Orientation::Horizontal => text.append("Horizontal"),
        Orientation::Vertical => text.append("Vertical"),
    }
    text.append(" @ ");
    push_pair(text, wall.center.x, wall.center.y);
    text.append("]");
    assert(text@ =~= old(text)@ + wall_text(*wall));
}

impl Orientation {
    /// The way a wall runs, as a word.
    pub fn to_text(&self) -> (r: String)
        ensures
            r@ == orientation_text(*self),
    {
        match self {
            Orientation::Horizontal => "Horizontal".to_owned(),
            Orientation::Vertical => "Vertical".to_owned(),
        }
    }
}

impl Point {
    /// The point as a pair of numbers in brackets.
    pub fn to_text(&self) -> (r: String)
        ensures
            r@ == pair_text(self.x as int, self.y as int),
    {
        let mut text = String::new();
        push_pair(&mut text, self.x, self.y);
        assert(text@ =~= pair_text(self.x as int, self.y as int));
        text
    }
}

impl Coord {
    /// The cell as a pair of numbers in brackets.
    pub fn to_text(&self) -> (r: String)
        ensures
            r@ == pair_text(self.x as int, self.y as int),
    {
        let mut text = String::new();
        push_pair(&mut text, self.x, self.y);
        assert(text@ =~= pair_text(self.x as int, self.y as int));
        text
    }
}

impl Wall {
    /// The wall as text: the way it runs and where it stands.
    pub fn to_text(&self) -> (r: String)
        ensures
            r@ == wall_text(*self),
    {
        let mut text = String::new();
        push_wall(&mut text, self);
        assert(text@ =~= wall_text(*self));
        text
    }
}

impl Error {
    /// What went wrong, as a sentence.
    pub fn to_text(&self) -> (r: String)
        ensures
            r@ == error_text(*self),
    {
        let mut text = String::new();
        match self {
            Error::NotNeighbours(c1, c2) => {
                push_pair(&mut text, c1.x, c1.y);
                text.append(" and ");
                push_pair(&mut text, c2.x, c2.y);
                text.append(" are not neighbours");
            },
            Error::BorderWall(wall) => {
                text.append("Tried to remove non border wall ");
                push_wall(&mut text, wall);
            },
            Error::MissingSet(coord) => {
                text.append("Missing set for coord ");
                push_pair(&mut text, coord.x, coord.y);
            },
            Error::UnsupportedGenerator(name) => {
                text.append("Unsupported generator ");
                text.append(name.as_str());
            },
            Error::UnsupportedSolver(name) => {
                text.append("Unsupported solver ");
                text.append(name.as_str());
            },
            Error::ImpossibleMaze => {
                text.append("Impossible maze");
            },
        }
        assert(text@ =~= error_text(*self));
        text
    }
}

} // verus!
