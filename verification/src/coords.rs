//! Coordinate payloads. One text field carries a point, a circle or a
//! rectangle, and says which only by the number of its commas.

use vstd::prelude::*;
use crate::error::IngestError;
use crate::numeric::{parse_i32, parse_i32_spec};
use crate::text::{chars_of, find_all, lemma_positions_of, positions_of};

verus! {

/// Stands in the `x1` and `y1` slots of a shape that has no such value.
pub const ABSENT: i32 = 0x7fff_ffff;

/// The positions of the commas of `s`.
pub open spec fn commas(s: Seq<char>) -> Seq<int> {
    positions_of(s, ',', s.len() as int)
}

/// The positions of the colons of `s`.
pub open spec fn colons(s: Seq<char>) -> Seq<int> {
    positions_of(s, ':', s.len() as int)
}

/// The four slots where each holds a number; `IngestError::NumericParse`
/// where one of them does not.
pub open spec fn all_numbers(a: Option<i32>, b: Option<i32>, c: Option<i32>, d: Option<i32>)
    -> Result<(i32, i32, i32, i32), IngestError> {
    if a is Some && b is Some && c is Some && d is Some {
        Ok((a.unwrap(), b.unwrap(), c.unwrap(), d.unwrap()))
    } else {
        Err(IngestError::NumericParse)
    }
}

/// A point `x,y`: the text before the comma and the text behind it.
pub open spec fn point_coords(s: Seq<char>) -> Result<(i32, i32, i32, i32), IngestError> {
    let at = commas(s);
    all_numbers(
        parse_i32_spec(s.subrange(0, at[0])),
        parse_i32_spec(s.subrange(at[0] + 1, s.len() as int)),
        Some(ABSENT),
        Some(ABSENT),
    )
}

/// A circle has the shape that its three values can be cut out of it:
/// at least three colons, the first two each at least two characters
/// before the comma of the same rank, the third at most two characters
/// before the end.
pub open spec fn circle_shaped(s: Seq<char>) -> bool {
    let at = commas(s);
    let marks = colons(s);
    &&& marks.len() >= 3
    &&& marks[0] + 2 <= at[0]
    &&& marks[1] + 2 <= at[1]
    &&& marks[2] + 2 <= s.len()
}

/// The text of the radius of a circle: what stands from two characters
/// behind the third colon to the end, without the last character where
/// that is no decimal digit, as a closing bracket is.
pub open spec fn radius_text(s: Seq<char>) -> Seq<char> {
    let tail = s.subrange(colons(s)[2] + 2, s.len() as int);
    if tail.len() > 0 && !('0' <= tail.last() && tail.last() <= '9') {
        tail.drop_last()
    } else {
        tail
    }
}

/// A circle, three `key: value` pairs: each value starts two characters
/// behind its colon; the first two end at a comma, the radius at the end
/// of the payload or before its closing character. The radius goes into
/// the `x1` slot.
pub open spec fn circle_coords(s: Seq<char>) -> Result<(i32, i32, i32, i32), IngestError> {
    let at = commas(s);
    let marks = colons(s);
    if circle_shaped(s) {
        all_numbers(
            parse_i32_spec(s.subrange(marks[0] + 2, at[0])),
            parse_i32_spec(s.subrange(marks[1] + 2, at[1])),
            parse_i32_spec(radius_text(s)),
            Some(ABSENT),
        )
    } else {
        Err(IngestError::Format)
    }
}

/// A rectangle `x,y,x1,y1`: the four texts that the three commas part.
pub open spec fn rectangle_coords(s: Seq<char>) -> Result<(i32, i32, i32, i32), IngestError> {
    let at = commas(s);
    all_numbers(
        parse_i32_spec(s.subrange(0, at[0])),
        parse_i32_spec(s.subrange(at[0] + 1, at[1])),
        parse_i32_spec(s.subrange(at[1] + 1, at[2])),
        parse_i32_spec(s.subrange(at[2] + 1, s.len() as int)),
    )
}

/// What the coordinate payload `s` denotes as `(x, y, x1, y1)`: a point
/// with one comma, a circle with two, a rectangle with three, and
/// `IngestError::Format` with any other number of commas.
pub open spec fn coords_of(s: Seq<char>) -> Result<(i32, i32, i32, i32), IngestError> {
    let count = commas(s).len();
    if count == 1 {
        point_coords(s)
    } else if count == 2 {
        circle_coords(s)
    } else if count == 3 {
        rectangle_coords(s)
    } else {
        Err(IngestError::Format)
    }
}

/// A payload without a comma, or with four or more, is rejected with
/// `IngestError::Format`, whatever else it holds.
pub proof fn lemma_comma_count_rejected(s: Seq<char>)
    requires
        commas(s).len() == 0 || commas(s).len() >= 4,
    ensures
        coords_of(s) == Err::<(i32, i32, i32, i32), IngestError>(IngestError::Format),
{
}

/// Puts four parsed slots together.
fn collect_numbers(a: Option<i32>, b: Option<i32>, c: Option<i32>, d: Option<i32>) -> (res: Result<
    (i32, i32, i32, i32),
    IngestError,
>)
    ensures
        res == all_numbers(a, b, c, d),
{
    match (a, b, c, d) {
        (Some(x), Some(y), Some(x1), Some(y1)) => Ok((x, y, x1, y1)),
        _ => Err(IngestError::NumericParse),
    }
}

/// Parses a coordinate payload into `(x, y, x1, y1)`.
///
/// The number of commas decides the shape: one for a point, two for a
/// circle, three for a rectangle. A slot that the shape does not fill
/// holds `ABSENT`. Every number is a signed 32-bit integer in base 10.
/// A payload with another number of commas, or with two commas and not
/// the shape of a circle, fails with `IngestError::Format`; one whose
/// numbers do not parse fails with `IngestError::NumericParse`.
pub fn read_coords(text: &str) -> (res: Result<(i32, i32, i32, i32), IngestError>)
    ensures
        res == coords_of(text@),
{
    let chars = chars_of(text);
    let comma_indices = find_all(&chars, ',');
    let len = chars.len();
    proof {
        lemma_positions_of(chars@, ',', len as int);
        lemma_positions_of(chars@, ':', len as int);
    }
    if comma_indices.len() == 1 {
        let first = parse_i32(&chars, 0, comma_indices[0]);
        let second = parse_i32(&chars, comma_indices[0] + 1, len);
        collect_numbers(first, second, Some(ABSENT), Some(ABSENT))
    } else if comma_indices.len() == 2 {
        let colon_indices = find_all(&chars, ':');
        if colon_indices.len() < 3 {
            return Err(IngestError::Format);
        }
        if colon_indices[0] + 2 > comma_indices[0] || colon_indices[1] + 2 > comma_indices[1]
            || colon_indices[2] + 1 >= len {
            return Err(IngestError::Format);
        }
        let start: usize = colon_indices[2] + 2;
        let closed = start < len && !('0' <= chars[len - 1] && chars[len - 1] <= '9');
        let end: usize = if closed {
            len - 1
        } else {
            len
        };
        proof {
            let tail = chars@.subrange(start as int, len as int);
            if start < len {
                assert(tail.last() == chars@[len - 1]);
            }
            assert(radius_text(chars@) =~= chars@.subrange(start as int, end as int));
        }
        let first = parse_i32(&chars, colon_indices[0] + 2, comma_indices[0]);
        let second = parse_i32(&chars, colon_indices[1] + 2, comma_indices[1]);
        let third = parse_i32(&chars, start, end);
        collect_numbers(first, second, third, Some(ABSENT))
    } else if comma_indices.len() == 3 {
        let first = parse_i32(&chars, 0, comma_indices[0]);
        let second = parse_i32(&chars, comma_indices[0] + 1, comma_indices[1]);
        let third = parse_i32(&chars, comma_indices[1] + 1, comma_indices[2]);
        let fourth = parse_i32(&chars, comma_indices[2] + 1, len);
        collect_numbers(first, second, third, fourth)
    } else {
        Err(IngestError::Format)
    }
}

} // verus!
