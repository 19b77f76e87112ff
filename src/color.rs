//! 8-bit sRGB colors: linear blending and `#rrggbb` hex text.
use vstd::prelude::*;
use crate::text::push_char;
use vstd::string::StrSliceExecFns;
use vstd::string::StringExecFns;

verus! {

/// An (r, g, b) triple of 8-bit channels.
pub type Color = (u8, u8, u8);

/// Truncating integer blend of two channels at strength `p` percent.
pub open spec fn blend(a: u8, b: u8, p: int) -> u8 {
    ((a as int * (100 - p) + b as int * p) / 100) as u8
}

/// Channel-wise blend of two colors; strengths above 100 count as 100.
pub open spec fn mix(f: Color, s: Color, pos: u8) -> Color {
    let p: int = if pos > 100 { 100 } else { pos as int };
    (blend(f.0, s.0, p), blend(f.1, s.1, p), blend(f.2, s.2, p))
}

fn interpolate(a: u8, b: u8, pos: u16) -> (r: u8)
    requires
        pos <= 100,
    ensures
        r == blend(a, b, pos as int),
        r as int == (a as int * (100 - pos) + b as int * pos) / 100,
{
    let a16 = a as u16;
    let b16 = b as u16;
    assert(a16 * (100 - pos) + b16 * pos <= 25500) by (nonlinear_arith)
        requires
            a16 <= 255,
            b16 <= 255,
            pos <= 100,
    ;
    let result = a16 * (100 - pos) + b16 * pos;
    (result / 100) as u8
}

/// Blends `f` toward `s` by `pos` percent, channel by channel, truncating.
pub fn mix_colors(f: Color, s: Color, pos: u8) -> (r: Color)
    ensures
        r == mix(f, s, pos),
{
    let pos: u16 = if pos > 100 { 100 } else { pos as u16 };
    (interpolate(f.0, s.0, pos), interpolate(f.1, s.1, pos), interpolate(f.2, s.2, pos))
}

/// Lower-case hexadecimal digits, in order.
pub open spec fn hex_char(n: int) -> char {
    seq!['0', '1', '2', '3', '4', '5', '6', '7', '8', '9', 'a', 'b', 'c', 'd', 'e', 'f'][n]
}

/// Two lower-case hex digits of a byte.
pub open spec fn byte_hex(b: u8) -> Seq<char> {
    seq![hex_char(b as int / 16), hex_char(b as int % 16)]
}

/// `#rrggbb` text of a color.
pub open spec fn hex_of(c: Color) -> Seq<char> {
    seq!['#'] + byte_hex(c.0) + byte_hex(c.1) + byte_hex(c.2)
}

/// Value of a hex digit of either case.
pub open spec fn hex_value(c: char) -> Option<u8> {
    if '0' <= c && c <= '9' {
        Some((c as u32 - '0' as u32) as u8)
    } else if 'a' <= c && c <= 'f' {
        Some((c as u32 - 'a' as u32 + 10) as u8)
    } else if 'A' <= c && c <= 'F' {
        Some((c as u32 - 'A' as u32 + 10) as u8)
    } else {
        None
    }
}

/// Byte written by two hex digits.
pub open spec fn hex_pair(hi: char, lo: char) -> Option<u8> {
    match (hex_value(hi), hex_value(lo)) {
        (Some(h), Some(l)) => Some((h * 16 + l) as u8),
        _ => None,
    }
}

/// Color written by `#` and six hex digits, if `s` is such text.
pub open spec fn parse_hex(s: Seq<char>) -> Option<Color> {
    if s.len() == 7 && s[0] == '#' {
        match (hex_pair(s[1], s[2]), hex_pair(s[3], s[4]), hex_pair(s[5], s[6])) {
            (Some(r), Some(g), Some(b)) => Some((r, g, b)),
            _ => None,
        }
    } else {
        None
    }
}

fn hex_digit(n: u8) -> (c: char)
    requires
        n < 16,
    ensures
        c == hex_char(n as int),
{
    if n < 10 {
        let c = if n == 0 { '0' } else if n == 1 { '1' } else if n == 2 { '2' } else if n == 3 {
            '3'
        } else if n == 4 { '4' } else if n == 5 { '5' } else if n == 6 { '6' } else if n == 7 {
            '7'
        } else if n == 8 { '8' } else { '9' };
        c
    } else {
        let c = if n == 10 { 'a' } else if n == 11 { 'b' } else if n == 12 { 'c' } else if n
            == 13 { 'd' } else if n == 14 { 'e' } else { 'f' };
        c
    }
}

fn hex_digit_value(c: char) -> (r: Option<u8>)
    ensures
        r == hex_value(c),
{
    if '0' <= c && c <= '9' {
        Some((c as u32 - '0' as u32) as u8)
    } else if 'a' <= c && c <= 'f' {
        Some((c as u32 - 'a' as u32 + 10) as u8)
    } else if 'A' <= c && c <= 'F' {
        Some((c as u32 - 'A' as u32 + 10) as u8)
    } else {
        None
    }
}

fn hex_byte_value(hi: char, lo: char) -> (r: Option<u8>)
    ensures
        r == hex_pair(hi, lo),
{
    match (hex_digit_value(hi), hex_digit_value(lo)) {
        (Some(h), Some(l)) => Some(h * 16 + l),
        _ => None,
    }
}

fn push_byte_hex(s: &mut String, b: u8)
    ensures
        final(s)@ == old(s)@ + byte_hex(b),
{
    push_char(s, hex_digit(b / 16));
    push_char(s, hex_digit(b % 16));
    assert(final(s)@ =~= old(s)@ + byte_hex(b));
}

/// Writes a color as `#rrggbb` with lower-case digits.
pub fn rgb_to_hex(rgb: Color) -> (r: String)
    ensures
        r@ == hex_of(rgb),
{
    let mut s = String::new();
    push_char(&mut s, '#');
    push_byte_hex(&mut s, rgb.0);
    push_byte_hex(&mut s, rgb.1);
    push_byte_hex(&mut s, rgb.2);
    assert(s@ =~= hex_of(rgb));
    s
}

/// Reads `#rrggbb` text (digits of either case) as a color.
pub fn hex_to_rgb(hex: &str) -> (r: Result<Color, String>)
    ensures
        match r {
            Ok(c) => parse_hex(hex@) == Some(c),
            Err(_) => parse_hex(hex@) is None,
        },
{
    let n = hex.unicode_len();
    if n != 7 || hex.get_char(0) != '#' {
        let mut msg = String::from_str("Invalid hex color format: ");
        msg.append(hex);
        return Err(msg);
    }
    let r = match hex_byte_value(hex.get_char(1), hex.get_char(2)) {
        Some(v) => v,
        None => {
            return Err(String::from_str("Invalid red component"));
        },
    };
    let g = match hex_byte_value(hex.get_char(3), hex.get_char(4)) {
        Some(v) => v,
        None => {
            return Err(String::from_str("Invalid green component"));
        },
    };
    let b = match hex_byte_value(hex.get_char(5), hex.get_char(6)) {
        Some(v) => v,
        None => {
            return Err(String::from_str("Invalid blue component"));
        },
    };
    Ok((r, g, b))
}

pub(crate) proof fn lemma_hex_char_value(n: int)
    requires
        0 <= n < 16,
    ensures
        hex_value(hex_char(n)) == Some(n as u8),
{
    let d = seq!['0', '1', '2', '3', '4', '5', '6', '7', '8', '9', 'a', 'b', 'c', 'd', 'e', 'f'];
    assert(hex_char(n) == d[n]);
    if n == 0 {} else if n == 1 {} else if n == 2 {} else if n == 3 {} else if n == 4 {}
    else if n == 5 {} else if n == 6 {} else if n == 7 {} else if n == 8 {} else if n == 9 {}
    else if n == 10 {} else if n == 11 {} else if n == 12 {} else if n == 13 {} else if n == 14 {}
    else {}
}

/// Reading back the hex text of a color gives that color.
pub proof fn lemma_hex_round_trip(c: Color)
    ensures
        parse_hex(hex_of(c)) == Some(c),
{
    lemma_hex_char_value(c.0 as int / 16);
    lemma_hex_char_value(c.0 as int % 16);
    lemma_hex_char_value(c.1 as int / 16);
    lemma_hex_char_value(c.1 as int % 16);
    lemma_hex_char_value(c.2 as int / 16);
    lemma_hex_char_value(c.2 as int % 16);
    let s = hex_of(c);
    assert(s.len() == 7);
    assert(s[0] == '#');
    assert(s[1] == hex_char(c.0 as int / 16));
    assert(s[2] == hex_char(c.0 as int % 16));
    assert(s[3] == hex_char(c.1 as int / 16));
    assert(s[4] == hex_char(c.1 as int % 16));
    assert(s[5] == hex_char(c.2 as int / 16));
    assert(s[6] == hex_char(c.2 as int % 16));
}

} // verus!
