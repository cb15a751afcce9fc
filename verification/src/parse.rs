use std::str::FromStr;
use vstd::prelude::*;
use vstd::string::StringSliceAdditionalSpecFns;
use crate::maze::Coord;

verus! {

/// Why a text is not the address of a cell.
#[derive(Debug, Clone, Copy, PartialEq, Eq, Structural)]
pub enum ParseCoordError {
    /// The text has no comma, so no second number.
    MissingField,
    /// A number has no character at all.
    Empty,
    /// A number holds a character that is no digit, or is a sign alone.
    InvalidDigit,
    /// A number is too large for a coordinate.
    PosOverflow,
    /// A number is too small for a coordinate.
    NegOverflow,
}

/// An opening or a closing bracket.
pub open spec fn is_bracket(b: u8) -> bool {
    b == 40 || b == 41
}

/// A decimal digit.
pub open spec fn is_digit(b: u8) -> bool {
    48 <= b <= 57
}

/// The number of brackets at the beginning of a text.
pub open spec fn leading(s: Seq<u8>) -> int
    decreases s.len(),
{
    if s.len() > 0 && is_bracket(s[0]) {
        1 + leading(s.drop_first())
    } else {
        0
    }
}

/// The number of brackets at the end of a text.
pub open spec fn trailing(s: Seq<u8>) -> int
    decreases s.len(),
{
    if s.len() > 0 && is_bracket(s.last()) {
        1 + trailing(s.drop_last())
    } else {
        0
    }
}

/// The text without the brackets at its beginning and at its end.
pub open spec fn trimmed(s: Seq<u8>) -> Seq<u8> {
    let rest = s.skip(leading(s));
    rest.take(rest.len() - trailing(rest))
}

/// The length of the text before its first comma: of the whole text if it
/// has none.
pub open spec fn field_len(s: Seq<u8>) -> int
    decreases s.len(),
{
    if s.len() > 0 && s[0] != 44 {
        1 + field_len(s.drop_first())
    } else {
        0
    }
}

/// The number that a row of characters stands for when it is read from left
/// to right as digits, with the sign given, or the first thing that is wrong
/// with it.
pub open spec fn scanned(digits: Seq<u8>, negative: bool) -> Result<int, ParseCoordError>
    decreases digits.len(),
{
    if digits.len() == 0 {
        Ok(0)
    } else {
        match scanned(digits.drop_last(), negative) {
            Err(e) => Err(e),
            Ok(v) => if !is_digit(digits.last()) {
                Err(ParseCoordError::InvalidDigit)
            } else {
                let d = digits.last() - 48;
                let n = if negative {
                    v * 10 - d
                } else {
                    v * 10 + d
                };
                if n > i32::MAX {
                    Err(ParseCoordError::PosOverflow)
                } else if n < i32::MIN {
                    Err(ParseCoordError::NegOverflow)
                } else {
                    Ok(n)
                }
            },
        }
    }
}

/// The number that a text stands for: digits, with a plus or minus sign
/// before them if one likes.
pub open spec fn number(field: Seq<u8>) -> Result<int, ParseCoordError> {
    if field.len() == 0 {
        Err(ParseCoordError::Empty)
    } else if field[0] == 43 || field[0] == 45 {
        if field.len() == 1 {
            Err(ParseCoordError::InvalidDigit)
        } else {
            scanned(field.drop_first(), field[0] == 45)
        }
    } else {
        scanned(field, false)
    }
}

/// The cell that a text names: two numbers with a comma between them, in
/// brackets or not. What follows a second comma is not read.
pub open spec fn coord_of(text: Seq<u8>) -> Result<Coord, ParseCoordError> {
    fields_of(trimmed(text))
}

/// The cell that a text without brackets names: two numbers with a comma
/// between them.
pub open spec fn fields_of(t: Seq<u8>) -> Result<Coord, ParseCoordError> {
    let first = t.take(field_len(t));
    match number(first) {
        Err(e) => Err(e),
        Ok(x) => if field_len(t) == t.len() {
            Err(ParseCoordError::MissingField)
        } else {
            let rest = t.skip(field_len(t) + 1);
            match number(rest.take(field_len(rest))) {
                Err(e) => Err(e),
                Ok(y) => Ok(Coord { x: x as i32, y: y as i32 }),
            }
        },
    }
}

/// What is scanned lies within the numbers a coordinate can hold.
pub proof fn lemma_scanned_range(digits: Seq<u8>, negative: bool)
    ensures
        scanned(digits, negative) matches Ok(v) ==> i32::MIN <= v <= i32::MAX,
    decreases digits.len(),
{
    if digits.len() > 0 {
        lemma_scanned_range(digits.drop_last(), negative);
    }
}

/// A number that a text stands for lies within the numbers a coordinate
/// can hold.
pub proof fn lemma_number_range(field: Seq<u8>)
    ensures
        number(field) matches Ok(v) ==> i32::MIN <= v <= i32::MAX,
{
    if field.len() > 0 {
        lemma_scanned_range(field.drop_first(), true);
        lemma_scanned_range(field.drop_first(), false);
        lemma_scanned_range(field, false);
    }
}

/// The brackets at the beginning of a text are as many as the brackets
/// counted so far and those at the beginning of the rest.
proof fn lemma_leading_step(s: Seq<u8>, i: int)
    requires
        0 <= i < s.len(),
        leading(s) == i + leading(s.skip(i)),
        is_bracket(s[i]),
    ensures
        leading(s) == i + 1 + leading(s.skip(i + 1)),
{
    assert(s.skip(i).drop_first() == s.skip(i + 1));
}

/// The length of the first field of a text is the length counted so far and
/// that of the first field of the rest.
proof fn lemma_field_step(s: Seq<u8>, i: int)
    requires
        0 <= i < s.len(),
        field_len(s) == i + field_len(s.skip(i)),
        s[i] != 44,
    ensures
        field_len(s) == i + 1 + field_len(s.skip(i + 1)),
{
    assert(s.skip(i).drop_first() == s.skip(i + 1));
}

fn scan(bytes: &[u8], from: usize, to: usize, negative: bool) -> (r: Result<i32, ParseCoordError>)
    requires
        from <= to <= bytes@.len(),
    ensures
        match scanned(bytes@.subrange(from as int, to as int), negative) {
            Ok(v) => r == Ok::<i32, ParseCoordError>(v as i32),
            Err(e) => r == Err::<i32, ParseCoordError>(e),
        },
{
    let mut value: i64 = 0;
    let mut i = from;
    assert(bytes@.subrange(from as int, from as int) =~= Seq::<u8>::empty());
    while i < to
        invariant
            from <= i <= to <= bytes@.len(),
            scanned(bytes@.subrange(from as int, i as int), negative) == Ok::<
                int,
                ParseCoordError,
            >(value as int),
            i32::MIN <= value <= i32::MAX,
        decreases to - i,
    {
        let b = bytes[i];
        proof {
            let more = bytes@.subrange(from as int, i + 1);
            assert(more.drop_last() =~= bytes@.subrange(from as int, i as int));
            assert(more.last() == b);
            lemma_scan_stops(bytes@, from as int, i + 1, to as int, negative);
        }
        if b < 48 || b > 57 {
            return Err(ParseCoordError::InvalidDigit);
        }
        let d = (b - 48) as i64;
        let next = if negative {
            value * 10 - d
        } else {
            value * 10 + d
        };
        if next > 0x7fff_ffff {
            return Err(ParseCoordError::PosOverflow);
        }
        if next < -0x8000_0000 {
            return Err(ParseCoordError::NegOverflow);
        }
        value = next;
        i += 1;
    }
    Ok(value as i32)
}

/// What is wrong with the beginning of a row of characters is wrong with
/// the whole row.
proof fn lemma_scan_stops(s: Seq<u8>, from: int, mid: int, to: int, negative: bool)
    requires
        0 <= from <= mid <= to <= s.len(),
    ensures
        scanned(s.subrange(from, mid), negative) matches Err(e) ==> scanned(
            s.subrange(from, to),
            negative,
        ) == Err::<int, ParseCoordError>(e),
    decreases to - mid,
{
    if mid < to {
        lemma_scan_stops(s, from, mid, to - 1, negative);
        assert(s.subrange(from, to).drop_last() =~= s.subrange(from, to - 1));
    }
}

fn parse_number(bytes: &[u8], from: usize, to: usize) -> (r: Result<i32, ParseCoordError>)
    requires
        from <= to <= bytes@.len(),
    ensures
        match number(bytes@.subrange(from as int, to as int)) {
            Ok(v) => r == Ok::<i32, ParseCoordError>(v as i32),
            Err(e) => r == Err::<i32, ParseCoordError>(e),
        },
{
    let ghost field = bytes@.subrange(from as int, to as int);
    if from == to {
        return Err(ParseCoordError::Empty);
    }
    let first = bytes[from];
    assert(field[0] == first);
    if first == 43 || first == 45 {
        if to - from == 1 {
            return Err(ParseCoordError::InvalidDigit);
        }
        assert(field.drop_first() =~= bytes@.subrange(from + 1, to as int));
        scan(bytes, from + 1, to, first == 45)
    } else {
        scan(bytes, from, to, false)
    }
}

fn comma_from(bytes: &[u8], from: usize, to: usize) -> (r: usize)
    requires
        from <= to <= bytes@.len(),
    ensures
        from <= r <= to,
        r == from + field_len(bytes@.subrange(from as int, to as int)),
{
    let ghost s = bytes@.subrange(from as int, to as int);
    let mut i = from;
    assert(s.skip(0) =~= s);
    while i < to && bytes[i] != 44
        invariant
            from <= i <= to <= bytes@.len(),
            s == bytes@.subrange(from as int, to as int),
            field_len(s) == (i - from) + field_len(s.skip(i - from)),
        decreases to - i,
    {
        proof {
            assert(s[i - from] == bytes@[i as int]);
            lemma_field_step(s, i - from);
        }
        i += 1;
    }
    proof {
        if i < to {
            assert(s.skip(i - from)[0] == bytes@[i as int]);
        }
    }
    i
}

fn leading_brackets(bytes: &[u8]) -> (low: usize)
    ensures
        low <= bytes@.len(),
        low == leading(bytes@),
{
    let ghost s = bytes@;
    let mut low: usize = 0;
    assert(s.skip(0) =~= s);
    while low < bytes.len() && (bytes[low] == 40 || bytes[low] == 41)
        invariant
            low <= bytes@.len(),
            s == bytes@,
            leading(s) == low + leading(s.skip(low as int)),
        decreases bytes.len() - low,
    {
        proof {
            lemma_leading_step(s, low as int);
        }
        low += 1;
    }
    proof {
        if low < bytes.len() {
            assert(s.skip(low as int)[0] == s[low as int]);
        }
    }
    low
}

fn trailing_brackets(bytes: &[u8], low: usize) -> (high: usize)
    requires
        low <= bytes@.len(),
    ensures
        low <= high <= bytes@.len(),
        bytes@.len() - high == trailing(bytes@.skip(low as int)),
{
    let ghost rest = bytes@.skip(low as int);
    let mut high: usize = bytes.len();
    assert(rest.take(rest.len() as int) =~= rest);
    while high > low && (bytes[high - 1] == 40 || bytes[high - 1] == 41)
        invariant
            low <= high <= bytes@.len(),
            rest == bytes@.skip(low as int),
            trailing(rest) == (bytes@.len() - high) + trailing(rest.take(high - low)),
        decreases high,
    {
        proof {
            let kept = rest.take(high - low);
            assert(kept.last() == bytes@[high - 1]);
            assert(kept.drop_last() =~= rest.take(high - 1 - low));
        }
        high -= 1;
    }
    proof {
        let kept = rest.take(high - low);
        if high > low {
            assert(kept.last() == bytes@[high - 1]);
        }
    }
    high
}

fn parse_fields(bytes: &[u8], low: usize, high: usize) -> (r: Result<Coord, ParseCoordError>)
    requires
        low <= high <= bytes@.len(),
    ensures
        r == fields_of(bytes@.subrange(low as int, high as int)),
{
    let ghost s = bytes@;
    let ghost t = s.subrange(low as int, high as int);
    let comma = comma_from(bytes, low, high);
    proof {
        assert(t.take(field_len(t)) =~= s.subrange(low as int, comma as int));
        lemma_number_range(t.take(field_len(t)));
    }
    let x = match parse_number(bytes, low, comma) {
        Ok(x) => x,
        Err(e) => {
            return Err(e);
        },
    };
    if comma == high {
        return Err(ParseCoordError::MissingField);
    }
    let ghost after = t.skip(field_len(t) + 1);
    assert(after =~= s.subrange(comma + 1, high as int));
    let end = comma_from(bytes, comma + 1, high);
    proof {
        assert(after.take(field_len(after)) =~= s.subrange(comma + 1, end as int));
        lemma_number_range(after.take(field_len(after)));
    }
    let y = match parse_number(bytes, comma + 1, end) {
        Ok(y) => y,
        Err(e) => {
            return Err(e);
        },
    };
    Ok(Coord { x, y })
}

impl Coord {
    /// Reads the address of a cell: two numbers with a comma between them,
    /// in brackets or not.
    pub fn parse(text: &str) -> (r: Result<Coord, ParseCoordError>)
        ensures
            r == coord_of(text.spec_bytes()),
    {
        let bytes = text.as_bytes();
        let low = leading_brackets(bytes);
        let high = trailing_brackets(bytes, low);
        assert(trimmed(bytes@) =~= bytes@.subrange(low as int, high as int));
        parse_fields(bytes, low, high)
    }
}

impl FromStr for Coord {
    type Err = ParseCoordError;

    /// The cell that a text such as `(3,4)` names, or the reason why it
    /// names none.
    fn from_str(s: &str) -> (r: Result<Coord, ParseCoordError>)
        ensures
            r == coord_of(s.spec_bytes()),
    {
        Coord::parse(s)
    }
}

} // verus!
