//! Colors with an alpha channel.
//!
//! A color is held as its four channels. It goes to and from a pixel as
//! the array of the four, in the order red, green, blue, alpha.

use vstd::prelude::*;

verus! {

/// A color: red, green, blue and alpha, each from 0 to 255.
#[derive(Clone, Copy, Debug, PartialEq, Eq, Structural)]
pub struct Rgba {
    pub r: u8,
    pub g: u8,
    pub b: u8,
    pub a: u8,
}

/// The hexadecimal digit for a number below 16, in lower case.
pub open spec fn hex_digit(n: int) -> char {
    if n == 0 {
        '0'
    } else if n == 1 {
        '1'
    } else if n == 2 {
        '2'
    } else if n == 3 {
        '3'
    } else if n == 4 {
        '4'
    } else if n == 5 {
        '5'
    } else if n == 6 {
        '6'
    } else if n == 7 {
        '7'
    } else if n == 8 {
        '8'
    } else if n == 9 {
        '9'
    } else if n == 10 {
        'a'
    } else if n == 11 {
        'b'
    } else if n == 12 {
        'c'
    } else if n == 13 {
        'd'
    } else if n == 14 {
        'e'
    } else {
        'f'
    }
}

/// A channel as two hexadecimal digits, the high one first.
pub open spec fn hex_pair(v: u8) -> Seq<char> {
    seq![hex_digit(v as int / 16), hex_digit(v as int % 16)]
}

/// The text of one hexadecimal digit.
fn hex_digit_text(n: u8) -> (r: &'static str)
    requires
        n < 16,
    ensures
        r@ == seq![hex_digit(n as int)],
{
    proof {
        reveal_strlit("0");
        reveal_strlit("1");
        reveal_strlit("2");
        reveal_strlit("3");
        reveal_strlit("4");
        reveal_strlit("5");
        reveal_strlit("6");
        reveal_strlit("7");
        reveal_strlit("8");
        reveal_strlit("9");
        reveal_strlit("a");
        reveal_strlit("b");
        reveal_strlit("c");
        reveal_strlit("d");
        reveal_strlit("e");
        reveal_strlit("f");
    }
    let r = if n == 0 {
        "0"
    } else if n == 1 {
        "1"
    } else if n == 2 {
        "2"
    } else if n == 3 {
        "3"
    } else if n == 4 {
        "4"
    } else if n == 5 {
        "5"
    } else if n == 6 {
        "6"
    } else if n == 7 {
        "7"
    } else if n == 8 {
        "8"
    } else if n == 9 {
        "9"
    } else if n == 10 {
        "a"
    } else if n == 11 {
        "b"
    } else if n == 12 {
        "c"
    } else if n == 13 {
        "d"
    } else if n == 14 {
        "e"
    } else {
        "f"
    };
    assert(r@ =~= seq![hex_digit(n as int)]);
    r
}

/// Appends a channel's two hexadecimal digits to `out`.
fn push_hex_pair(out: &mut String, v: u8)
    ensures
        final(out)@ == old(out)@ + hex_pair(v),
{
    let ghost before = out@;
    out.append(hex_digit_text(v / 16));
    out.append(hex_digit_text(v % 16));
    assert(out@ =~= before + hex_pair(v));
}

impl Rgba {
    /// The four channels in the order red, green, blue, alpha.
    pub open spec fn channels(self) -> Seq<u8> {
        seq![self.r, self.g, self.b, self.a]
    }

    /// The text form: `#`, then each channel as two hexadecimal digits.
    pub open spec fn hex_text(self) -> Seq<char> {
        seq!['#'] + hex_pair(self.r) + hex_pair(self.g) + hex_pair(self.b) + hex_pair(self.a)
    }

    /// The channels as the array that a pixel is made of.
    pub fn to_rgba(&self) -> (p: [u8; 4])
        ensures
            p@ == self.channels(),
    {
        let p = [self.r, self.g, self.b, self.a];
        assert(p@ =~= self.channels());
        p
    }

    /// The color of a pixel, from its channel array.
    pub fn from_channels(p: [u8; 4]) -> (c: Rgba)
        ensures
            c.channels() == p@,
    {
        let c = Rgba { r: p[0], g: p[1], b: p[2], a: p[3] };
        assert(c.channels() =~= p@);
        c
    }

    /// The color as text, `#rrggbbaa` in lower case.
    pub fn to_hex(&self) -> (s: String)
        ensures
            s@ == self.hex_text(),
    {
        proof {
            reveal_strlit("#");
        }
        let mut s = String::from_str("#");
        assert(s@ =~= seq!['#']);
        push_hex_pair(&mut s, self.r);
        push_hex_pair(&mut s, self.g);
        push_hex_pair(&mut s, self.b);
        push_hex_pair(&mut s, self.a);
        s
    }
}

} // verus!
