use pixel_ingest::color::{get_color_id, read_color, Colors, PALETTE_SIZE};
use pixel_ingest::error::IngestError;
use pixel_ingest::numeric::{digit_of, parse_digits, parse_u32_hex};

const ALL: [Colors; 32] = [
    Colors::Burgundy,
    Colors::DarkRed,
    Colors::Red,
    Colors::Orange,
    Colors::Yellow,
    Colors::PaleYellow,
    Colors::DarkGreen,
    Colors::Green,
    Colors::LightGreen,
    Colors::DarkTeal,
    Colors::Teal,
    Colors::LightTeal,
    Colors::DarkBlue,
    Colors::Blue,
    Colors::LightBlue,
    Colors::Indigo,
    Colors::Periwinkle,
    Colors::Lavender,
    Colors::DarkPurple,
    Colors::Purple,
    Colors::PalePurple,
    Colors::Magenta,
    Colors::Pink,
    Colors::LightPink,
    Colors::DarkBrown,
    Colors::Brown,
    Colors::Beige,
    Colors::Black,
    Colors::DarkGray,
    Colors::Gray,
    Colors::LightGray,
    Colors::White,
];

#[test]
fn opaque_red() {
    assert_eq!(read_color("#FF0000FF"), Ok(0xFF0000FF));
}

#[test]
fn the_bytes_are_kept_as_written() {
    assert_eq!(read_color("#FF4500"), Ok(0x00FF4500));
    assert_eq!(read_color("#ff4500"), Ok(0x00FF4500));
    assert_eq!(read_color("#0"), Ok(0));
    assert_eq!(read_color("#FFFFFFFF"), Ok(u32::MAX));
    assert_eq!(read_color("#00000000000FFFFFFFF"), Ok(u32::MAX));
    assert_eq!(read_color("#aBcDeF"), Ok(0xABCDEF));
}

#[test]
fn the_marker_is_dropped_whatever_it_is() {
    assert_eq!(read_color("xFF"), Ok(255));
    assert_eq!(read_color("1FF"), Ok(255));
    assert_eq!(read_color("éFF"), Ok(255));
    assert_eq!(read_color("#+FF"), Ok(255));
}

#[test]
fn a_token_that_is_too_short_is_rejected() {
    assert_eq!(read_color(""), Err(IngestError::NumericParse));
    assert_eq!(read_color("#"), Err(IngestError::NumericParse));
    assert_eq!(read_color("#+"), Err(IngestError::NumericParse));
}

#[test]
fn what_is_not_hexadecimal_is_rejected() {
    assert_eq!(read_color("#GG0000"), Err(IngestError::NumericParse));
    assert_eq!(read_color("##FF0000"), Err(IngestError::NumericParse));
    assert_eq!(read_color("#FF 00"), Err(IngestError::NumericParse));
    assert_eq!(read_color("#-1"), Err(IngestError::NumericParse));
    assert_eq!(read_color("#0xFF"), Err(IngestError::NumericParse));
    assert_eq!(read_color("blue"), Err(IngestError::NumericParse));
    assert_eq!(read_color("red"), Ok(0xED));
}

#[test]
fn more_than_32_bits_is_rejected() {
    assert_eq!(read_color("#100000000"), Err(IngestError::NumericParse));
    assert_eq!(read_color("#FFFFFFFFFFFFFFFFFFFFFFFF"), Err(IngestError::NumericParse));
}

#[test]
fn hexadecimal_is_read_as_the_standard_library_reads_it() {
    let samples = [
        "", "0", "+0", "-0", "f", "F", "g", "ff", "FFFFFFFF", "100000000", "+FFFFFFFF", "++1", "+",
        "-", "12 ", " 12", "1_0", "0x1", "DEADBEEF", "deadbeef", "DeadBeef0", "００",
    ];
    for text in samples {
        let chars: Vec<char> = text.chars().collect();
        assert_eq!(
            parse_u32_hex(&chars, 0, chars.len()),
            u32::from_str_radix(text, 16).ok(),
            "on {:?}",
            text
        );
    }
}

#[test]
fn digits_in_both_radixes() {
    assert_eq!(digit_of('0', 10), Some(0));
    assert_eq!(digit_of('9', 10), Some(9));
    assert_eq!(digit_of('a', 10), None);
    assert_eq!(digit_of('a', 16), Some(10));
    assert_eq!(digit_of('F', 16), Some(15));
    assert_eq!(digit_of('f', 16), Some(15));
    assert_eq!(digit_of('g', 16), None);
    assert_eq!(digit_of('G', 16), None);
    assert_eq!(digit_of('/', 16), None);
    assert_eq!(digit_of(':', 16), None);
    assert_eq!(digit_of('@', 16), None);
    assert_eq!(digit_of('`', 16), None);
    for c in ['0', '5', '9', 'a', 'f', 'A', 'F', 'g', 'z', ' ', '-', 'é', '٣'] {
        assert_eq!(digit_of(c, 10), c.to_digit(10));
        assert_eq!(digit_of(c, 16), c.to_digit(16));
    }
}

#[test]
fn digits_up_to_a_limit() {
    let chars: Vec<char> = "12345".chars().collect();
    assert_eq!(parse_digits(&chars, 0, 5, 10, 12345), Some(12345));
    assert_eq!(parse_digits(&chars, 0, 5, 10, 12344), None);
    assert_eq!(parse_digits(&chars, 1, 3, 10, 100), Some(23));
    assert_eq!(parse_digits(&chars, 1, 3, 16, 100), Some(0x23));
    assert_eq!(parse_digits(&chars, 2, 2, 10, 100), None);
    assert_eq!(parse_digits(&chars, 0, 3, 8, 100), Some(0o123));
    assert_eq!(parse_digits(&chars, 0, 2, 2, 100), None);
    assert_eq!(digit_of('7', 8), Some(7));
    assert_eq!(digit_of('8', 8), None);
}

#[test]
fn every_color_has_its_place() {
    for (place, color) in ALL.iter().enumerate() {
        assert_eq!(get_color_id(*color) as usize, place);
        assert!(get_color_id(*color) < PALETTE_SIZE);
    }
    assert_eq!(get_color_id(Colors::Burgundy), 0);
    assert_eq!(get_color_id(Colors::Red), 2);
    assert_eq!(get_color_id(Colors::White), 31);
}

#[test]
fn codes_and_colors_go_both_ways() {
    for color in ALL {
        assert_eq!(Colors::from_code(color.code()), Some(color));
        assert_eq!(color.code() >> 24, 0xFF);
    }
    assert_eq!(Colors::Burgundy.code(), 4279894125);
    assert_eq!(Colors::Red.code(), 4278207999);
    assert_eq!(Colors::Black.code(), 0xFF000000);
    assert_eq!(Colors::White.code(), 0xFFFFFFFF);
    assert_eq!(Colors::from_code(0), None);
    assert_eq!(Colors::from_code(0x00FFFFFF), None);
    assert_eq!(Colors::from_code(4278207998), None);
}
