//! Colors: the packed value that a color token denotes, and the palette of
//! the canvas.

use vstd::prelude::*;
use crate::error::IngestError;
use crate::numeric::{parse_u32_hex, parse_u32_hex_spec};
use crate::text::chars_of;

verus! {

/// The packed color that the token `s` denotes: what stands behind its
/// first character, read as an unsigned 32-bit integer in base 16.
pub open spec fn color_of(s: Seq<char>) -> Result<u32, IngestError> {
    if s.len() == 0 {
        Err(IngestError::NumericParse)
    } else {
        match parse_u32_hex_spec(s.subrange(1, s.len() as int)) {
            Some(value) => Ok(value),
            None => Err(IngestError::NumericParse),
        }
    }
}

/// Parses a color token: drops the first character, the marker, whatever
/// it is, and reads the rest as hexadecimal. The bytes are kept as the
/// token gives them. Fails with `IngestError::NumericParse` on an empty
/// token, on a marker with nothing behind it, on a character that is no
/// hexadecimal digit, and on a value beyond 32 bits.
pub fn read_color(text: &str) -> (res: Result<u32, IngestError>)
    ensures
        res == color_of(text@),
{
    let chars = chars_of(text);
    if chars.len() == 0 {
        return Err(IngestError::NumericParse);
    }
    match parse_u32_hex(&chars, 1, chars.len()) {
        Some(value) => Ok(value),
        None => Err(IngestError::NumericParse),
    }
}

/// The colors of the canvas palette.
#[derive(Clone, Copy, Debug, PartialEq, Eq, Structural)]
pub enum Colors {
    Burgundy,
    DarkRed,
    Red,
    Orange,
    Yellow,
    PaleYellow,
    DarkGreen,
    Green,
    LightGreen,
    DarkTeal,
    Teal,
    LightTeal,
    DarkBlue,
    Blue,
    LightBlue,
    Indigo,
    Periwinkle,
    Lavender,
    DarkPurple,
    Purple,
    PalePurple,
    Magenta,
    Pink,
    LightPink,
    DarkBrown,
    Brown,
    Beige,
    Black,
    DarkGray,
    Gray,
    LightGray,
    White,
}

/// The number of colors in the palette.
pub const PALETTE_SIZE: u8 = 32;

/// The packed value of each color of the palette, in palette order.
pub open spec fn palette() -> Seq<u32> {
    seq![
        4279894125u32, 4281925822u32, 4278207999u32, 4278233343u32,
        4281718527u32, 4290312447u32, 4285047552u32, 4286106624u32,
        4283886974u32, 4285494528u32, 4289371648u32, 4290825216u32,
        4288958500u32, 4293562422u32, 4294240593u32, 4290853449u32,
        4294925418u32, 4294947732u32, 4288618113u32, 4290792116u32,
        4294945764u32, 4286517470u32, 4286684415u32, 4289370623u32,
        4281288813u32, 4280707484u32, 4285576447u32, 4278190080u32,
        4283585105u32, 4287663497u32, 4292466644u32, 4294967295u32,
    ]
}

/// The packed value of a color, with the alpha byte set.
pub open spec fn color_code(c: Colors) -> u32 {
    match c {
        Colors::Burgundy => 4279894125,
        Colors::DarkRed => 4281925822,
        Colors::Red => 4278207999,
        Colors::Orange => 4278233343,
        Colors::Yellow => 4281718527,
        Colors::PaleYellow => 4290312447,
        Colors::DarkGreen => 4285047552,
        Colors::Green => 4286106624,
        Colors::LightGreen => 4283886974,
        Colors::DarkTeal => 4285494528,
        Colors::Teal => 4289371648,
        Colors::LightTeal => 4290825216,
        Colors::DarkBlue => 4288958500,
        Colors::Blue => 4293562422,
        Colors::LightBlue => 4294240593,
        Colors::Indigo => 4290853449,
        Colors::Periwinkle => 4294925418,
        Colors::Lavender => 4294947732,
        Colors::DarkPurple => 4288618113,
        Colors::Purple => 4290792116,
        Colors::PalePurple => 4294945764,
        Colors::Magenta => 4286517470,
        Colors::Pink => 4286684415,
        Colors::LightPink => 4289370623,
        Colors::DarkBrown => 4281288813,
        Colors::Brown => 4280707484,
        Colors::Beige => 4285576447,
        Colors::Black => 4278190080,
        Colors::DarkGray => 4283585105,
        Colors::Gray => 4287663497,
        Colors::LightGray => 4292466644,
        Colors::White => 4294967295,
    }
}

impl Colors {
    /// The packed value of this color.
    pub fn code(self) -> (value: u32)
        ensures
            value == color_code(self),
    {
        match self {
            Colors::Burgundy => 4279894125,
            Colors::DarkRed => 4281925822,
            Colors::Red => 4278207999,
            Colors::Orange => 4278233343,
            Colors::Yellow => 4281718527,
            Colors::PaleYellow => 4290312447,
            Colors::DarkGreen => 4285047552,
            Colors::Green => 4286106624,
            Colors::LightGreen => 4283886974,
            Colors::DarkTeal => 4285494528,
            Colors::Teal => 4289371648,
            Colors::LightTeal => 4290825216,
            Colors::DarkBlue => 4288958500,
            Colors::Blue => 4293562422,
            Colors::LightBlue => 4294240593,
            Colors::Indigo => 4290853449,
            Colors::Periwinkle => 4294925418,
            Colors::Lavender => 4294947732,
            Colors::DarkPurple => 4288618113,
            Colors::Purple => 4290792116,
            Colors::PalePurple => 4294945764,
            Colors::Magenta => 4286517470,
            Colors::Pink => 4286684415,
            Colors::LightPink => 4289370623,
            Colors::DarkBrown => 4281288813,
            Colors::Brown => 4280707484,
            Colors::Beige => 4285576447,
            Colors::Black => 4278190080,
            Colors::DarkGray => 4283585105,
            Colors::Gray => 4287663497,
            Colors::LightGray => 4292466644,
            Colors::White => 4294967295,
        }
    }

    /// The color with the packed value `value`, if the palette has one.
    pub fn from_code(value: u32) -> (color: Option<Colors>)
        ensures
            match color {
                Some(c) => color_code(c) == value,
                None => forall|c: Colors| color_code(c) != value,
            },
    {
        match value {
            4279894125 => Some(Colors::Burgundy),
            4281925822 => Some(Colors::DarkRed),
            4278207999 => Some(Colors::Red),
            4278233343 => Some(Colors::Orange),
            4281718527 => Some(Colors::Yellow),
            4290312447 => Some(Colors::PaleYellow),
            4285047552 => Some(Colors::DarkGreen),
            4286106624 => Some(Colors::Green),
            4283886974 => Some(Colors::LightGreen),
            4285494528 => Some(Colors::DarkTeal),
            4289371648 => Some(Colors::Teal),
            4290825216 => Some(Colors::LightTeal),
            4288958500 => Some(Colors::DarkBlue),
            4293562422 => Some(Colors::Blue),
            4294240593 => Some(Colors::LightBlue),
            4290853449 => Some(Colors::Indigo),
            4294925418 => Some(Colors::Periwinkle),
            4294947732 => Some(Colors::Lavender),
            4288618113 => Some(Colors::DarkPurple),
            4290792116 => Some(Colors::Purple),
            4294945764 => Some(Colors::PalePurple),
            4286517470 => Some(Colors::Magenta),
            4286684415 => Some(Colors::Pink),
            4289370623 => Some(Colors::LightPink),
            4281288813 => Some(Colors::DarkBrown),
            4280707484 => Some(Colors::Brown),
            4285576447 => Some(Colors::Beige),
            4278190080 => Some(Colors::Black),
            4283585105 => Some(Colors::DarkGray),
            4287663497 => Some(Colors::Gray),
            4292466644 => Some(Colors::LightGray),
            4294967295 => Some(Colors::White),
            _ => None,
        }
    }
}

/// The place of a color in the palette, counted from 0.
pub fn get_color_id(c: Colors) -> (id: u8)
    ensures
        id < PALETTE_SIZE,
        palette()[id as int] == color_code(c),
{
    match c {
        Colors::Burgundy => 0,
        Colors::DarkRed => 1,
        Colors::Red => 2,
        Colors::Orange => 3,
        Colors::Yellow => 4,
        Colors::PaleYellow => 5,
        Colors::DarkGreen => 6,
        Colors::Green => 7,
        Colors::LightGreen => 8,
        Colors::DarkTeal => 9,
        Colors::Teal => 10,
        Colors::LightTeal => 11,
        Colors::DarkBlue => 12,
        Colors::Blue => 13,
        Colors::LightBlue => 14,
        Colors::Indigo => 15,
        Colors::Periwinkle => 16,
        Colors::Lavender => 17,
        Colors::DarkPurple => 18,
        Colors::Purple => 19,
        Colors::PalePurple => 20,
        Colors::Magenta => 21,
        Colors::Pink => 22,
        Colors::LightPink => 23,
        Colors::DarkBrown => 24,
        Colors::Brown => 25,
        Colors::Beige => 26,
        Colors::Black => 27,
        Colors::DarkGray => 28,
        Colors::Gray => 29,
        Colors::LightGray => 30,
        Colors::White => 31,
    }
}

/// The palette holds no packed value twice, so that a place in it names
/// one color.
pub proof fn lemma_palette_distinct(i: int, j: int)
    requires
        0 <= i < j < 32,
    ensures
        palette().len() == 32,
        palette()[i] != palette()[j],
{
}

} // verus!
