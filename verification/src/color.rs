//! Color codec: three 8-bit channels to and from a `#RRGGBB` hex string.

use vstd::prelude::*;

use crate::text::push_char;

verus! {

/// An 8-bit-per-channel color value.  Any combination of channel values is
/// valid; the codec never rejects an `RGB`.
#[derive(Clone, Copy, PartialEq, Eq, Structural, Debug)]
pub struct RGB {
    pub red: u8,
    pub green: u8,
    pub blue: u8,
}

/// The uppercase hexadecimal digit for a value below sixteen.
pub open spec fn hex_char(d: u8) -> char
    recommends
        d < 16,
{
    if d < 10 {
        (48 + d) as char
    } else {
        (55 + d) as char
    }
}

/// The two uppercase hexadecimal digits of one byte, high digit first.
pub open spec fn byte_hex(b: u8) -> Seq<char> {
    seq![hex_char(b / 16), hex_char(b % 16)]
}

/// The text `to_hex_str` produces with the `#` prefix: seven characters,
/// uppercase digits.
pub open spec fn color_chars(c: RGB) -> Seq<char> {
    seq!['#'] + byte_hex(c.red) + byte_hex(c.green) + byte_hex(c.blue)
}

/// The value of one hexadecimal digit; upper and lower case are both
/// accepted on decode.
pub open spec fn hex_val(c: char) -> Option<u8> {
    let v = c as u32;
    if 48 <= v && v <= 57 {
        Some((v - 48) as u8)
    } else if 65 <= v && v <= 70 {
        Some((v - 55) as u8)
    } else if 97 <= v && v <= 102 {
        Some((v - 87) as u8)
    } else {
        None
    }
}

/// The byte two hexadecimal digits stand for, when both are digits.
pub open spec fn hex_pair(hi: char, lo: char) -> Option<u8> {
    match (hex_val(hi), hex_val(lo)) {
        (Some(h), Some(l)) => Some((h * 16 + l) as u8),
        _ => None,
    }
}

/// What `from_hex_str` returns: a color exactly when the text is `#`
/// followed by six hexadecimal digits, and nothing else.
pub open spec fn color_decoded(s: Seq<char>) -> Option<RGB> {
    if s.len() != 7 || s[0] != '#' {
        None
    } else {
        match (hex_pair(s[1], s[2]), hex_pair(s[3], s[4]), hex_pair(s[5], s[6])) {
            (Some(r), Some(g), Some(b)) => Some(RGB { red: r, green: g, blue: b }),
            _ => None,
        }
    }
}

/// The uppercase hexadecimal digit for a value below sixteen.
fn hex_digit_char(d: u8) -> (c: char)
    requires
        d < 16,
    ensures
        c == hex_char(d),
{
    if d < 10 {
        (48 + d) as char
    } else {
        (55 + d) as char
    }
}

/// Appends the two hexadecimal digits of one byte.
fn push_byte_hex(s: &mut String, b: u8)
    ensures
        final(s)@ == old(s)@ + byte_hex(b),
{
    push_char(s, hex_digit_char(b / 16));
    push_char(s, hex_digit_char(b % 16));
    proof {
        assert(final(s)@ =~= old(s)@ + byte_hex(b));
    }
}

/// The value of one hexadecimal digit character, if it is one.
fn hex_val_exec(c: char) -> (r: Option<u8>)
    ensures
        r == hex_val(c),
{
    let v = c as u32;
    if 48 <= v && v <= 57 {
        Some((v - 48) as u8)
    } else if 65 <= v && v <= 70 {
        Some((v - 55) as u8)
    } else if 97 <= v && v <= 102 {
        Some((v - 87) as u8)
    } else {
        None
    }
}

impl RGB {
    /// Encodes the color as six uppercase hexadecimal digits, two per
    /// channel, with a leading `#` when `with_hash` is set.
    pub fn to_hex_str(&self, with_hash: bool) -> (r: String)
        ensures
            with_hash ==> r@ == color_chars(*self),
            !with_hash ==> r@ == byte_hex(self.red) + byte_hex(self.green) + byte_hex(self.blue),
    {
        let mut s = String::new();
        if with_hash {
            push_char(&mut s, '#');
        }
        push_byte_hex(&mut s, self.red);
        push_byte_hex(&mut s, self.green);
        push_byte_hex(&mut s, self.blue);
        proof {
            if with_hash {
                assert(s@ =~= color_chars(*self));
            } else {
                assert(s@ =~= byte_hex(self.red) + byte_hex(self.green) + byte_hex(self.blue));
            }
        }
        s
    }

    /// Decodes a `#RRGGBB` string; returns `None` on any text that is not
    /// exactly `#` plus six hexadecimal digits.
    pub fn from_hex_str(s: &str) -> (r: Option<RGB>)
        ensures
            r == color_decoded(s@),
    {
        if s.unicode_len() != 7 {
            return None;
        }
        if s.get_char(0) != '#' {
            return None;
        }
        let r = hex_byte_at(s, 1);
        let g = hex_byte_at(s, 3);
        let b = hex_byte_at(s, 5);
        match (r, g, b) {
            (Some(red), Some(green), Some(blue)) => Some(RGB { red, green, blue }),
            _ => None,
        }
    }
}

/// Reads the two hexadecimal digits starting at the given position.
fn hex_byte_at(s: &str, i: usize) -> (r: Option<u8>)
    requires
        i + 1 < s@.len(),
        i + 1 < usize::MAX,
    ensures
        r == hex_pair(s@[i as int], s@[i as int + 1]),
{
    let hi = hex_val_exec(s.get_char(i));
    let lo = hex_val_exec(s.get_char(i + 1));
    match (hi, lo) {
        (Some(h), Some(l)) => Some(h * 16 + l),
        _ => None,
    }
}

/// Law: decoding an encoded color gives the color back, for every color.
pub proof fn lemma_color_round_trip(c: RGB)
    ensures
        color_decoded(color_chars(c)) == Some(c),
{
    lemma_byte_hex_round_trip(c.red);
    lemma_byte_hex_round_trip(c.green);
    lemma_byte_hex_round_trip(c.blue);
    let s = color_chars(c);
    assert(s.len() == 7);
    assert(s[0] == '#');
    assert(s[1] == hex_char(c.red / 16) && s[2] == hex_char(c.red % 16));
    assert(s[3] == hex_char(c.green / 16) && s[4] == hex_char(c.green % 16));
    assert(s[5] == hex_char(c.blue / 16) && s[6] == hex_char(c.blue % 16));
}

/// A byte's two hexadecimal digits decode back to the byte.
proof fn lemma_byte_hex_round_trip(b: u8)
    ensures
        hex_pair(hex_char(b / 16), hex_char(b % 16)) == Some(b),
{
    lemma_hex_char_val(b / 16);
    lemma_hex_char_val(b % 16);
}

/// The digit character of a value below sixteen decodes to that value.
proof fn lemma_hex_char_val(d: u8)
    requires
        d < 16,
    ensures
        hex_val(hex_char(d)) == Some(d),
{
}

} // verus!
