//! Integers written as text: what a run of characters denotes in a radix,
//! and parsers for the two forms that the event log uses.

use vstd::prelude::*;

verus! {

/// The value of `c` as a digit of `radix` (at most 16), if it is one.
/// Letters count in either case.
pub open spec fn digit_value(c: char, radix: int) -> Option<int> {
    let v: int = if '0' <= c && c <= '9' {
        c as int - '0' as int
    } else if 'a' <= c && c <= 'f' {
        c as int - 'a' as int + 10
    } else if 'A' <= c && c <= 'F' {
        c as int - 'A' as int + 10
    } else {
        16
    };
    if v < radix {
        Some(v)
    } else {
        None
    }
}

/// Every character of `s` is a digit of `radix`.
pub open spec fn all_digits(s: Seq<char>, radix: int) -> bool {
    forall|i: int| 0 <= i < s.len() ==> (#[trigger] digit_value(s[i], radix)) is Some
}

/// The number that the digits `s` denote in `radix`, most significant first.
pub open spec fn number_value(s: Seq<char>, radix: int) -> int
    decreases s.len(),
{
    if s.len() == 0 {
        0
    } else {
        number_value(s.drop_last(), radix) * radix + digit_value(s.last(), radix).unwrap()
    }
}

/// `s` without a leading sign character, where it has one that is allowed.
pub open spec fn unsigned_part(s: Seq<char>, allow_minus: bool) -> Seq<char> {
    if s.len() > 0 && (s[0] == '+' || (allow_minus && s[0] == '-')) {
        s.subrange(1, s.len() as int)
    } else {
        s
    }
}

/// The signed 32-bit integer that `s` denotes in base 10: an optional `+`
/// or `-`, then one or more decimal digits and nothing else, with the value
/// in range.
pub open spec fn parse_i32_spec(s: Seq<char>) -> Option<i32> {
    let digits = unsigned_part(s, true);
    let magnitude = number_value(digits, 10);
    let value = if s.len() > 0 && s[0] == '-' {
        -magnitude
    } else {
        magnitude
    };
    if digits.len() > 0 && all_digits(digits, 10) && i32::MIN <= value <= i32::MAX {
        Some(value as i32)
    } else {
        None
    }
}

/// The unsigned 32-bit integer that `s` denotes in base 16: an optional
/// `+`, then one or more hexadecimal digits and nothing else, with the value
/// in range.
pub open spec fn parse_u32_hex_spec(s: Seq<char>) -> Option<u32> {
    let digits = unsigned_part(s, false);
    let value = number_value(digits, 16);
    if digits.len() > 0 && all_digits(digits, 16) && value <= u32::MAX {
        Some(value as u32)
    } else {
        None
    }
}

/// A run of digits denotes a number that is at least what any of its
/// prefixes denotes.
pub proof fn lemma_number_value_prefix(s: Seq<char>, radix: int, n: int)
    requires
        1 <= radix,
        all_digits(s, radix),
        0 <= n <= s.len(),
    ensures
        0 <= number_value(s.take(n), radix) <= number_value(s, radix),
    decreases s.len() - n,
{
    if n == s.len() {
        assert(s.take(n) =~= s);
        lemma_number_value_nonnegative(s, radix);
    } else {
        lemma_number_value_prefix(s, radix, n + 1);
        let longer = s.take(n + 1);
        assert(longer.drop_last() =~= s.take(n));
        assert(longer.last() == s[n]);
        lemma_number_value_nonnegative(s.take(n), radix);
        let shorter = number_value(s.take(n), radix);
        assert(shorter * radix >= shorter) by (nonlinear_arith)
            requires
                shorter >= 0,
                radix >= 1,
        ;
    }
}

/// What a run of digits denotes is not negative.
pub proof fn lemma_number_value_nonnegative(s: Seq<char>, radix: int)
    requires
        1 <= radix,
        all_digits(s, radix),
    ensures
        0 <= number_value(s, radix),
    decreases s.len(),
{
    if s.len() > 0 {
        lemma_number_value_nonnegative(s.drop_last(), radix);
        let shorter = number_value(s.drop_last(), radix);
        assert(shorter * radix >= 0) by (nonlinear_arith)
            requires
                shorter >= 0,
                radix >= 1,
        ;
    }
}

/// The digit that `c` is in `radix`, if it is one.
pub fn digit_of(c: char, radix: u32) -> (digit: Option<u32>)
    requires
        2 <= radix <= 16,
    ensures
        digit_value(c, radix as int) == match digit {
            Some(d) => Some(d as int),
            None => None,
        },
{
    let code: u32 = c as u32;
    let v: u32 = if '0' <= c && c <= '9' {
        code - 0x30
    } else if 'a' <= c && c <= 'f' {
        code - 0x61 + 10
    } else if 'A' <= c && c <= 'F' {
        code - 0x41 + 10
    } else {
        16
    };
    if v < radix {
        Some(v)
    } else {
        None
    }
}

/// Reads the digits `chars[from..to]` in `radix`. Gives the number they
/// denote where it is at most `limit`, and `None` where the run is empty,
/// holds a character that is no digit, or denotes more than `limit`.
pub fn parse_digits(chars: &Vec<char>, from: usize, to: usize, radix: u32, limit: u64) -> (value:
    Option<u64>)
    requires
        from <= to <= chars.len(),
        2 <= radix <= 16,
        limit <= u32::MAX,
    ensures
        ({
            let s = chars@.subrange(from as int, to as int);
            let well_formed = s.len() > 0 && all_digits(s, radix as int);
            match value {
                Some(v) => well_formed && v == number_value(s, radix as int) && v <= limit,
                None => !well_formed || number_value(s, radix as int) > limit,
            }
        }),
{
    let ghost s = chars@.subrange(from as int, to as int);
    if from == to {
        return None;
    }
    let mut acc: u64 = 0;
    let mut i: usize = from;
    while i < to
        invariant
            from <= i <= to <= chars.len(),
            2 <= radix <= 16,
            limit <= u32::MAX,
            s == chars@.subrange(from as int, to as int),
            all_digits(s.take(i - from), radix as int),
            acc == number_value(s.take(i - from), radix as int),
            acc <= limit,
        decreases to - i,
    {
        let ghost seen = s.take(i - from);
        let ghost next = s.take(i - from + 1);
        proof {
            assert(next.drop_last() =~= seen);
            assert(next.last() == chars@[i as int]);
        }
        match digit_of(chars[i], radix) {
            None => {
                proof {
                    assert(s[i - from] == chars@[i as int]);
                    assert(!all_digits(s, radix as int));
                }
                return None;
            },
            Some(d) => {
                assert(acc * radix <= 0xffff_ffff * 16) by (nonlinear_arith)
                    requires
                        acc <= 0xffff_ffff,
                        radix <= 16,
                ;
                let grown: u64 = acc * (radix as u64) + (d as u64);
                proof {
                    assert forall|k: int| 0 <= k < next.len() implies (#[trigger] digit_value(
                        next[k],
                        radix as int,
                    )) is Some by {
                        if k < seen.len() {
                            assert(next[k] == seen[k]);
                        }
                    }
                    assert(grown == number_value(next, radix as int));
                }
                if grown > limit {
                    proof {
                        if all_digits(s, radix as int) {
                            lemma_number_value_prefix(s, radix as int, i - from + 1);
                        }
                    }
                    return None;
                }
                acc = grown;
                i = i + 1;
            },
        }
    }
    proof {
        assert(s.take(to - from) =~= s);
    }
    Some(acc)
}

/// Parses `chars[from..to]` as a signed 32-bit integer in base 10.
pub fn parse_i32(chars: &Vec<char>, from: usize, to: usize) -> (value: Option<i32>)
    requires
        from <= to <= chars.len(),
    ensures
        value == parse_i32_spec(chars@.subrange(from as int, to as int)),
{
    let ghost s = chars@.subrange(from as int, to as int);
    let negative = from < to && chars[from] == '-';
    let signed = from < to && (chars[from] == '+' || chars[from] == '-');
    let start: usize = if signed {
        from + 1
    } else {
        from
    };
    proof {
        if from < to {
            assert(s[0] == chars@[from as int]);
        }
        assert(unsigned_part(s, true) =~= chars@.subrange(start as int, to as int));
    }
    let limit: u64 = if negative {
        0x8000_0000
    } else {
        0x7fff_ffff
    };
    match parse_digits(chars, start, to, 10, limit) {
        None => None,
        Some(magnitude) => {
            if negative {
                Some((0 - (magnitude as i64)) as i32)
            } else {
                Some(magnitude as i32)
            }
        },
    }
}

/// Parses `chars[from..to]` as an unsigned 32-bit integer in base 16.
pub fn parse_u32_hex(chars: &Vec<char>, from: usize, to: usize) -> (value: Option<u32>)
    requires
        from <= to <= chars.len(),
    ensures
        value == parse_u32_hex_spec(chars@.subrange(from as int, to as int)),
{
    let ghost s = chars@.subrange(from as int, to as int);
    let signed = from < to && chars[from] == '+';
    let start: usize = if signed {
        from + 1
    } else {
        from
    };
    proof {
        if from < to {
            assert(s[0] == chars@[from as int]);
        }
        assert(unsigned_part(s, false) =~= chars@.subrange(start as int, to as int));
    }
    match parse_digits(chars, start, to, 16, 0xffff_ffff) {
        None => None,
        Some(value) => Some(value as u32),
    }
}

} // verus!
