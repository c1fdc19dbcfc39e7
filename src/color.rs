//! The background colour: transparent, or a solid `#RRGGBB`.
use vstd::prelude::*;
use crate::lex::{chars_of, eq_ignore_case, eq_ignore_case_at};
use crate::pixel::Rgb;

verus! {

#[derive(Debug, Clone, Copy, PartialEq, Eq, Structural)]
pub enum Color {
    Transparent,
    Solid(Rgb),
}

/// The text is no colour.
#[derive(Debug, PartialEq, Eq, Structural)]
pub struct ColorParseError();

/// The value of a hexadecimal digit.
pub open spec fn hex_value(c: char) -> Option<nat> {
    if '0' <= c <= '9' {
        Some((c as u32 - '0' as u32) as nat)
    } else if 'a' <= c <= 'f' {
        Some((c as u32 - 'a' as u32 + 10) as nat)
    } else if 'A' <= c <= 'F' {
        Some((c as u32 - 'A' as u32 + 10) as nat)
    } else {
        None
    }
}

/// The byte that two hexadecimal digits spell.
pub open spec fn hex_byte(hi: char, lo: char) -> Option<u8> {
    if hex_value(hi) is Some && hex_value(lo) is Some {
        Some((hex_value(hi)->0 * 16 + hex_value(lo)->0) as u8)
    } else {
        None
    }
}

pub open spec fn kw_transparent() -> Seq<char> {
    seq!['t', 'r', 'a', 'n', 's', 'p', 'a', 'r', 'e', 'n', 't']
}

/// The colour that the text `s` spells: `transparent` (any ASCII case) or
/// `#` and six hexadecimal digits.
pub open spec fn color_of(s: Seq<char>) -> Option<Color> {
    if eq_ignore_case(s, kw_transparent()) {
        Some(Color::Transparent)
    } else if s.len() == 7 && s[0] == '#' && hex_byte(s[1], s[2]) is Some && hex_byte(s[3], s[4]) is Some
        && hex_byte(s[5], s[6]) is Some {
        Some(
            Color::Solid(
                Rgb {
                    r: hex_byte(s[1], s[2])->0,
                    g: hex_byte(s[3], s[4])->0,
                    b: hex_byte(s[5], s[6])->0,
                },
            ),
        )
    } else {
        None
    }
}

fn hex_digit(c: char) -> (r: Option<u8>)
    ensures
        r is Some <==> hex_value(c) is Some,
        r is Some ==> r->0 as nat == hex_value(c)->0,
{
    if '0' <= c && c <= '9' {
        Some((c as u32 - '0' as u32) as u8)
    } else if 'a' <= c && c <= 'f' {
        Some((c as u32 - 'a' as u32 + 10) as u8)
    } else if 'A' <= c && c <= 'F' {
        Some((c as u32 - 'A' as u32 + 10) as u8)
    } else {
        None
    }
}

fn hex_pair(hi: char, lo: char) -> (r: Option<u8>)
    ensures
        r == hex_byte(hi, lo),
{
    match (hex_digit(hi), hex_digit(lo)) {
        (Some(h), Some(l)) => Some(h * 16 + l),
        _ => None,
    }
}

impl Color {
    /// Parses a colour.
    pub fn parse(value: &str) -> (r: Result<Color, ColorParseError>)
        ensures
            r == (match color_of(value@) {
                Some(c) => Ok::<Color, ColorParseError>(c),
                None => Err(ColorParseError()),
            }),
    {
        let c = chars_of(value);
        let n = c.len();
        proof {
            assert(c@.subrange(0, n as int) =~= value@);
        }
        if eq_ignore_case_at(&c, 0, n, &vec!['t', 'r', 'a', 'n', 's', 'p', 'a', 'r', 'e', 'n', 't']) {
            return Ok(Color::Transparent);
        }
        if n != 7 || c[0] != '#' {
            return Err(ColorParseError());
        }
        let r = match hex_pair(c[1], c[2]) {
            Some(v) => v,
            None => return Err(ColorParseError()),
        };
        let g = match hex_pair(c[3], c[4]) {
            Some(v) => v,
            None => return Err(ColorParseError()),
        };
        let b = match hex_pair(c[5], c[6]) {
            Some(v) => v,
            None => return Err(ColorParseError()),
        };
        Ok(Color::Solid(Rgb { r, g, b }))
    }
}

/// The lower-case hexadecimal digit of `d < 16`.
pub open spec fn hex_char(d: nat) -> char {
    if d < 10 { ((d + '0' as u32) as u32) as char } else { ((d - 10 + 'a' as u32) as u32) as char }
}

/// The colour's text: `transparent` or `#rrggbb` in lower case.
pub open spec fn color_text(c: Color) -> Seq<char> {
    match c {
        Color::Transparent => kw_transparent(),
        Color::Solid(rgb) => seq![
            '#',
            hex_char(rgb.r as nat / 16),
            hex_char(rgb.r as nat % 16),
            hex_char(rgb.g as nat / 16),
            hex_char(rgb.g as nat % 16),
            hex_char(rgb.b as nat / 16),
            hex_char(rgb.b as nat % 16),
        ],
    }
}

fn hex_char_exec(d: u8) -> (c: char)
    requires
        d < 16,
    ensures
        c == hex_char(d as nat),
{
    let table = ['0', '1', '2', '3', '4', '5', '6', '7', '8', '9', 'a', 'b', 'c', 'd', 'e', 'f'];
    proof {
        assert(table@[d as int] == hex_char(d as nat));
    }
    table[d as usize]
}

impl Color {
    /// The colour's text, which `parse` reads back.
    pub fn to_string(&self) -> (r: String)
        ensures
            r@ == color_text(*self),
    {
        match *self {
            Color::Transparent => {
                proof {
                    reveal_strlit("transparent");
                }
                "transparent".to_owned()
            },
            Color::Solid(rgb) => {
                let mut out = String::new();
                out.push('#');
                out.push(hex_char_exec(rgb.r / 16));
                out.push(hex_char_exec(rgb.r % 16));
                out.push(hex_char_exec(rgb.g / 16));
                out.push(hex_char_exec(rgb.g % 16));
                out.push(hex_char_exec(rgb.b / 16));
                out.push(hex_char_exec(rgb.b % 16));
                assert(out@ =~= color_text(*self));
                out
            },
        }
    }
}

impl std::str::FromStr for Color {
    type Err = ColorParseError;

    /// Parses as `parse` does.
    fn from_str(value: &str) -> (r: Result<Color, ColorParseError>)
        ensures
            r == (match color_of(value@) {
                Some(c) => Ok::<Color, ColorParseError>(c),
                None => Err(ColorParseError()),
            }),
    {
        Color::parse(value)
    }
}

proof fn lemma_hex_digit_round_trip(d: nat)
    requires
        d < 16,
    ensures
        hex_value(hex_char(d)) == Some(d),
{
}

proof fn lemma_hex_byte_round_trip(b: u8)
    ensures
        hex_byte(hex_char(b as nat / 16), hex_char(b as nat % 16)) == Some(b),
{
    lemma_hex_digit_round_trip(b as nat / 16);
    lemma_hex_digit_round_trip(b as nat % 16);
}

/// Parsing a colour's text gives the colour back.
pub proof fn lemma_parse_color_text(c: Color)
    ensures
        color_of(color_text(c)) == Some(c),
{
    match c {
        Color::Transparent => {},
        Color::Solid(rgb) => {
            lemma_hex_byte_round_trip(rgb.r);
            lemma_hex_byte_round_trip(rgb.g);
            lemma_hex_byte_round_trip(rgb.b);
            assert(!eq_ignore_case(color_text(c), kw_transparent()));
        },
    }
}

} // verus!
