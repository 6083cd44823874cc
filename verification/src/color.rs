//! The color-literal codec.  Three literal shapes are read: `rgba(RRGGBBAA)`
//! (eight hex digits, alpha last), `rgb(RRGGBB)` (six hex digits, alpha
//! full), and `0xAARRGGBB` (eight hex digits, alpha leading).  Channels are
//! byte values; scaling a byte into a unit interval is the caller's
//! business.  Formatting always emits the `rgba(..)` shape in lowercase.

use vstd::prelude::*;
use vstd::string::*;

use crate::model::HyprlandConfig;
use crate::text::spec_starts_with;

verus! {

/// The value of a hexadecimal digit, or `-1`.
pub open spec fn hex_val(c: char) -> int {
    if c == '0' { 0 }
    else if c == '1' { 1 }
    else if c == '2' { 2 }
    else if c == '3' { 3 }
    else if c == '4' { 4 }
    else if c == '5' { 5 }
    else if c == '6' { 6 }
    else if c == '7' { 7 }
    else if c == '8' { 8 }
    else if c == '9' { 9 }
    else if c == 'a' || c == 'A' { 10 }
    else if c == 'b' || c == 'B' { 11 }
    else if c == 'c' || c == 'C' { 12 }
    else if c == 'd' || c == 'D' { 13 }
    else if c == 'e' || c == 'E' { 14 }
    else if c == 'f' || c == 'F' { 15 }
    else { -1 }
}

/// Every character of `s[lo..hi]` is a hexadecimal digit.
pub open spec fn all_hex(s: Seq<char>, lo: int, hi: int) -> bool {
    forall|j: int| lo <= j < hi ==> hex_val(#[trigger] s[j]) >= 0
}

/// The byte written by the two digits at `s[i]` and `s[i + 1]`.
pub open spec fn hex_byte(s: Seq<char>, i: int) -> int {
    hex_val(s[i]) * 16 + hex_val(s[i + 1])
}

/// What parsing a color literal yields: the channel bytes in red, green,
/// blue, alpha order, or nothing for any other shape or non-hex content.
pub open spec fn spec_parse_color(s: Seq<char>) -> Option<(u8, u8, u8, u8)> {
    if spec_starts_with(s, "rgba("@) && s.len() == 14 && s[13] == ')' && all_hex(s, 5, 13) {
        Some(
            ((hex_byte(s, 5)) as u8, (hex_byte(s, 7)) as u8, (hex_byte(s, 9)) as u8, (hex_byte(
                s,
                11,
            )) as u8),
        )
    } else if spec_starts_with(s, "rgb("@) && s.len() == 11 && s[10] == ')' && all_hex(s, 4, 10) {
        Some(((hex_byte(s, 4)) as u8, (hex_byte(s, 6)) as u8, (hex_byte(s, 8)) as u8, 255u8))
    } else if spec_starts_with(s, "0x"@) && s.len() == 10 && all_hex(s, 2, 10) {
        Some(
            ((hex_byte(s, 4)) as u8, (hex_byte(s, 6)) as u8, (hex_byte(s, 8)) as u8, (hex_byte(
                s,
                2,
            )) as u8),
        )
    } else {
        None
    }
}

/// The lowercase digit character for a value below sixteen.
pub open spec fn hex_char(d: int) -> char {
    if d == 0 { '0' }
    else if d == 1 { '1' }
    else if d == 2 { '2' }
    else if d == 3 { '3' }
    else if d == 4 { '4' }
    else if d == 5 { '5' }
    else if d == 6 { '6' }
    else if d == 7 { '7' }
    else if d == 8 { '8' }
    else if d == 9 { '9' }
    else if d == 10 { 'a' }
    else if d == 11 { 'b' }
    else if d == 12 { 'c' }
    else if d == 13 { 'd' }
    else if d == 14 { 'e' }
    else { 'f' }
}

/// A byte as two lowercase hexadecimal digits.
pub open spec fn hex_pair(b: int) -> Seq<char> {
    seq![hex_char(b / 16), hex_char(b % 16)]
}

/// What formatting yields: always the `rgba(..)` shape, two lowercase
/// digits per channel, whatever shape any input was parsed from.
pub open spec fn spec_format_color(r: u8, g: u8, b: u8, a: u8) -> Seq<char> {
    "rgba("@ + hex_pair(r as int) + hex_pair(g as int) + hex_pair(b as int) + hex_pair(a as int)
        + seq![')']
}

/// The value of one hexadecimal digit character, if it is one.
fn hex_digit(c: char) -> (r: Option<u8>)
    ensures
        r == (if hex_val(c) >= 0 {
            Some(hex_val(c) as u8)
        } else {
            None::<u8>
        }),
{
    match c {
        '0' => Some(0),
        '1' => Some(1),
        '2' => Some(2),
        '3' => Some(3),
        '4' => Some(4),
        '5' => Some(5),
        '6' => Some(6),
        '7' => Some(7),
        '8' => Some(8),
        '9' => Some(9),
        'a' | 'A' => Some(10),
        'b' | 'B' => Some(11),
        'c' | 'C' => Some(12),
        'd' | 'D' => Some(13),
        'e' | 'E' => Some(14),
        'f' | 'F' => Some(15),
        _ => None,
    }
}

/// The byte written at `s[i..i + 2]`, if both characters are digits.
fn parse_hex_byte(s: &str, i: usize) -> (r: Option<u8>)
    requires
        i + 2 <= s@.len(),
        s@.len() <= usize::MAX - 2,
    ensures
        r == (if hex_val(s@[i as int]) >= 0 && hex_val(s@[i + 1]) >= 0 {
            Some(hex_byte(s@, i as int) as u8)
        } else {
            None::<u8>
        }),
{
    let hi = hex_digit(s.get_char(i));
    let lo = hex_digit(s.get_char(i + 1));
    match (hi, lo) {
        (Some(h), Some(l)) => Some(16 * h + l),
        _ => None,
    }
}

/// One lowercase digit character as a string slice.
fn hex_char_str(d: u8) -> (r: &'static str)
    requires
        d < 16,
    ensures
        r@ == seq![hex_char(d as int)],
{
    proof {
        reveal_strlit("0");
        reveal_strlit("1");
        reveal_strlit("2");
        reveal_strlit("3");
        reveal_strlit("4");
        reveal_strlit("5");
        reveal_strlit("6");
        reveal_strlit("7");
        reveal_strlit("8");
        reveal_strlit("9");
        reveal_strlit("a");
        reveal_strlit("b");
        reveal_strlit("c");
        reveal_strlit("d");
        reveal_strlit("e");
        reveal_strlit("f");
    }
    let r = match d {
        0 => "0",
        1 => "1",
        2 => "2",
        3 => "3",
        4 => "4",
        5 => "5",
        6 => "6",
        7 => "7",
        8 => "8",
        9 => "9",
        10 => "a",
        11 => "b",
        12 => "c",
        13 => "d",
        14 => "e",
        _ => "f",
    };
    proof {
        assert(r@ =~= seq![hex_char(d as int)]);
    }
    r
}

impl HyprlandConfig {
    /// Read a color literal in any accepted shape into channel bytes, in
    /// red, green, blue, alpha order.
    pub fn parse_color(&self, color_str: &str) -> (r: Option<(u8, u8, u8, u8)>)
        ensures
            r == spec_parse_color(color_str@),
    {
        let s = color_str;
        let n = s.unicode_len();
        proof {
            reveal_strlit("rgba(");
            reveal_strlit("rgb(");
            reveal_strlit("0x");
        }
        if crate::text::starts_with_str(s, "rgba(") && n == 14 && s.get_char(13) == ')' {
            let cr = parse_hex_byte(s, 5);
            let cg = parse_hex_byte(s, 7);
            let cb = parse_hex_byte(s, 9);
            let ca = parse_hex_byte(s, 11);
            match (cr, cg, cb, ca) {
                (Some(vr), Some(vg), Some(vb), Some(va)) => Some((vr, vg, vb, va)),
                _ => {
                    assert(!all_hex(s@, 5, 13));
                    None
                },
            }
        } else if crate::text::starts_with_str(s, "rgb(") && n == 11 && s.get_char(10) == ')' {
            let cr = parse_hex_byte(s, 4);
            let cg = parse_hex_byte(s, 6);
            let cb = parse_hex_byte(s, 8);
            match (cr, cg, cb) {
                (Some(vr), Some(vg), Some(vb)) => Some((vr, vg, vb, 255)),
                _ => {
                    assert(!all_hex(s@, 4, 10));
                    None
                },
            }
        } else if crate::text::starts_with_str(s, "0x") && n == 10 {
            let ca = parse_hex_byte(s, 2);
            let cr = parse_hex_byte(s, 4);
            let cg = parse_hex_byte(s, 6);
            let cb = parse_hex_byte(s, 8);
            match (ca, cr, cg, cb) {
                (Some(va), Some(vr), Some(vg), Some(vb)) => Some((vr, vg, vb, va)),
                _ => {
                    assert(!all_hex(s@, 2, 10));
                    None
                },
            }
        } else {
            None
        }
    }

    /// Write channel bytes as an `rgba(..)` literal with two lowercase
    /// hexadecimal digits per channel.
    pub fn format_color(&self, red: u8, green: u8, blue: u8, alpha: u8) -> (r: String)
        ensures
            r@ == spec_format_color(red, green, blue, alpha),
    {
        proof {
            reveal_strlit("rgba(");
            reveal_strlit(")");
        }
        let mut r = String::new();
        r.append("rgba(");
        r.append(hex_char_str(red / 16));
        r.append(hex_char_str(red % 16));
        r.append(hex_char_str(green / 16));
        r.append(hex_char_str(green % 16));
        r.append(hex_char_str(blue / 16));
        r.append(hex_char_str(blue % 16));
        r.append(hex_char_str(alpha / 16));
        r.append(hex_char_str(alpha % 16));
        r.append(")");
        proof {
            assert(r@ =~= spec_format_color(red, green, blue, alpha));
        }
        r
    }
}

} // verus!
