use vstd::prelude::*;
use vstd::string::StringExecFns;
use crate::canvas::{Canvas, Point};
use crate::pixels::Pixel;

verus! {

/// The character of a decimal digit.
pub open spec fn digit_char(d: int) -> char {
    if d == 0 {
        '0'
    } else if d == 1 {
        '1'
    } else if d == 2 {
        '2'
    } else if d == 3 {
        '3'
    } else if d == 4 {
        '4'
    } else if d == 5 {
        '5'
    } else if d == 6 {
        '6'
    } else if d == 7 {
        '7'
    } else if d == 8 {
        '8'
    } else {
        '9'
    }
}

/// `n` written in decimal, without leading zeros.
pub open spec fn decimal(n: nat) -> Seq<char>
    decreases n,
{
    if n < 10 {
        seq![digit_char(n as int)]
    } else {
        decimal(n / 10) + seq![digit_char((n % 10) as int)]
    }
}

/// `(r, g, b, a)` with each channel in decimal.
pub open spec fn pixel_text(p: Pixel) -> Seq<char> {
    seq!['('] + decimal(p.r as nat) + seq![',', ' '] + decimal(p.g as nat) + seq![',', ' '] + decimal(
        p.b as nat,
    ) + seq![',', ' '] + decimal(p.a as nat) + seq![')']
}

/// `(x, y)` in decimal.
pub open spec fn point_text(p: Point) -> Seq<char> {
    seq!['('] + decimal(p.x as nat) + seq![',', ' '] + decimal(p.y as nat) + seq![')']
}

fn digit_str(d: u64) -> (s: &'static str)
    requires
        d < 10,
    ensures
        s@ == seq![digit_char(d as int)],
{
    proof {
        reveal_strlit("0");
        reveal_strlit("1");
        reveal_strlit("2");
        reveal_strlit("3");
        reveal_strlit("4");
        reveal_strlit("5");
        reveal_strlit("6");
        reveal_strlit("7");
        reveal_strlit("8");
        reveal_strlit("9");
    }
    if d == 0 {
        "0"
    } else if d == 1 {
        "1"
    } else if d == 2 {
        "2"
    } else if d == 3 {
        "3"
    } else if d == 4 {
        "4"
    } else if d == 5 {
        "5"
    } else if d == 6 {
        "6"
    } else if d == 7 {
        "7"
    } else if d == 8 {
        "8"
    } else {
        "9"
    }
}

/// Appends `n` in decimal.
fn append_decimal(s: &mut String, n: u64)
    ensures
        final(s)@ == old(s)@ + decimal(n as nat),
    decreases n,
{
    if n >= 10 {
        append_decimal(s, n / 10);
    }
    s.append(digit_str(n % 10));
    proof {
        if n >= 10 {
            assert(final(s)@ =~= old(s)@ + decimal(n as nat));
        } else {
            assert(final(s)@ =~= old(s)@ + decimal(n as nat));
        }
    }
}

fn append_separator(s: &mut String)
    ensures
        final(s)@ == old(s)@ + seq![',', ' '],
{
    proof {
        reveal_strlit(", ");
    }
    s.append(", ");
}

impl Pixel {
    /// The colour as text: `(r, g, b, a)` in decimal.
    pub fn to_string(&self) -> (t: String)
        ensures
            t@ == pixel_text(*self),
    {
        proof {
            reveal_strlit("(");
            reveal_strlit(")");
        }
        let mut t = String::new();
        t.append("(");
        append_decimal(&mut t, self.r as u64);
        append_separator(&mut t);
        append_decimal(&mut t, self.g as u64);
        append_separator(&mut t);
        append_decimal(&mut t, self.b as u64);
        append_separator(&mut t);
        append_decimal(&mut t, self.a as u64);
        t.append(")");
        assert(t@ =~= pixel_text(*self));
        t
    }
}

impl Point {
    /// The position as text: `(x, y)` in decimal.
    pub fn to_string(&self) -> (t: String)
        ensures
            t@ == point_text(*self),
    {
        proof {
            reveal_strlit("(");
            reveal_strlit(")");
        }
        let mut t = String::new();
        t.append("(");
        append_decimal(&mut t, self.x as u64);
        append_separator(&mut t);
        append_decimal(&mut t, self.y as u64);
        t.append(")");
        assert(t@ =~= point_text(*self));
        t
    }
}

impl Canvas {
    /// A one-line description: pixel count and dimensions.
    pub fn to_string(&self) -> (t: String)
        requires
            self.wf(),
        ensures
            t@ == "Image with "@ + decimal(self@.pixels.len()) + " pixels and dimensions: ("@ + decimal(
                self@.width,
            ) + seq![',', ' '] + decimal(self@.height) + ")."@,
    {
        let mut t = String::new();
        t.append("Image with ");
        append_decimal(&mut t, self.pixels().len() as u64);
        t.append(" pixels and dimensions: (");
        let d = self.dimensions();
        append_decimal(&mut t, d.width as u64);
        append_separator(&mut t);
        append_decimal(&mut t, d.height as u64);
        t.append(").");
        t
    }
}

} // verus!
