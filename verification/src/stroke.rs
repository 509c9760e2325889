//! Letters of the built-in font, stroked onto a picture.
//!
//! A glyph's strokes lie on a unit square. The square is scaled to the
//! size of a letter, seven tenths as wide as it is high, and moved to
//! where the letter stands; all of this is computed in single precision
//! and then cut to whole pixels. Every stroke is drawn as a line of width
//! three.

use crate::arith::{
    add_values, from_int, int_to_value, multiply_values, plus, times, to_i32, to_u32,
    value_to_i32, value_to_u32, HALF,
};
use crate::font::{glyph, strokes_of, Stroke};
use crate::picture::{Picture, RGBA};
use crate::single::ONE;
use crate::thick::thick_drawn;
use vstd::prelude::*;
use vstd::string::StrSliceExecFns;

verus! {

/// Seven tenths, as nearly as single precision holds it.
pub const SEVEN_TENTHS: u32 = 0x3f33_3333;

/// Three, the width of a stroke.
pub const THREE: u32 = 0x4040_0000;

/// Six, the gap between two letters.
pub const SIX: u32 = 0x40c0_0000;

/// The value of a glyph coordinate, which counts halves.
pub open spec fn half_of(k: u8) -> u32 {
    if k == 0 {
        0
    } else if k == 1 {
        HALF
    } else {
        ONE
    }
}

/// The pixel column of the glyph coordinate `k` in a letter of the size
/// `char_size` that stands at the column `x`.
pub open spec fn stroke_x(k: u8, x: u32, char_size: u32) -> i32 {
    to_i32(plus(times(times(half_of(k), char_size), SEVEN_TENTHS), from_int(x as int)))
}

/// The pixel row of the glyph coordinate `k` in a letter that stands at
/// the row `y`.
pub open spec fn stroke_y(k: u8, y: u32, char_size: u32) -> i32 {
    to_i32(plus(times(half_of(k), char_size), from_int(y as int)))
}

/// `bytes`, read as a picture of the given size, after the strokes were
/// drawn in turn for a letter at `(x, y)`.
pub open spec fn letter_drawn(
    bytes: Seq<u8>,
    width: int,
    height: int,
    strokes: Seq<Stroke>,
    x: u32,
    y: u32,
    char_size: u32,
    rgba: RGBA,
) -> Seq<u8>
    decreases strokes.len(),
{
    if strokes.len() == 0 {
        bytes
    } else {
        let s = strokes.last();
        thick_drawn(
            letter_drawn(bytes, width, height, strokes.drop_last(), x, y, char_size, rgba),
            width,
            height,
            stroke_x(s.x0, x, char_size) as int,
            stroke_y(s.y0, y, char_size) as int,
            stroke_x(s.x1, x, char_size) as int,
            stroke_y(s.y1, y, char_size) as int,
            rgba,
            THREE,
        )
    }
}

/// How many pixels lie between the starts of two letters: seven tenths of
/// the size and six, cut to a whole number.
pub open spec fn advance_of(char_size: u32) -> u32 {
    to_u32(plus(times(char_size, SEVEN_TENTHS), SIX))
}

/// `bytes` after the letters of `text` were drawn in turn, the first at
/// `(x, y)` and each further one an advance to the right. A letter whose
/// column does not fit in 32 bits is left out.
pub open spec fn string_drawn(
    bytes: Seq<u8>,
    width: int,
    height: int,
    text: Seq<char>,
    x: u32,
    y: u32,
    char_size: u32,
    rgba: RGBA,
) -> Seq<u8>
    decreases text.len(),
{
    if text.len() == 0 {
        bytes
    } else {
        let before = string_drawn(bytes, width, height, text.drop_last(), x, y, char_size, rgba);
        let at = x + (text.len() - 1) * advance_of(char_size);
        if at > u32::MAX {
            before
        } else {
            letter_drawn(
                before,
                width,
                height,
                strokes_of(text.last()),
                at as u32,
                y,
                char_size,
                rgba,
            )
        }
    }
}

fn half_value(k: u8) -> (v: u32)
    ensures
        v == half_of(k),
{
    if k == 0 {
        0
    } else if k == 1 {
        HALF
    } else {
        ONE
    }
}

fn column(k: u8, x: u32, char_size: u32) -> (v: i32)
    ensures
        v == stroke_x(k, x, char_size),
{
    value_to_i32(
        add_values(
            multiply_values(multiply_values(half_value(k), char_size), SEVEN_TENTHS),
            int_to_value(x as i64),
        ),
    )
}

fn row(k: u8, y: u32, char_size: u32) -> (v: i32)
    ensures
        v == stroke_y(k, y, char_size),
{
    value_to_i32(add_values(multiply_values(half_value(k), char_size), int_to_value(y as i64)))
}

impl Picture {
    /// Strokes the glyph for `c` at `(x, y)`; `char_size` is the height of
    /// the letter as a single-precision value. A character that the font
    /// lacks leaves no mark.
    pub fn stroke_letter(&mut self, x: u32, y: u32, c: char, char_size: u32, rgba: &RGBA)
        ensures
            final(self).wf(),
            final(self).spec_width() == old(self).spec_width(),
            final(self).spec_height() == old(self).spec_height(),
            final(self).bytes() == letter_drawn(
                old(self).bytes(),
                old(self).spec_width() as int,
                old(self).spec_height() as int,
                strokes_of(c),
                x,
                y,
                char_size,
                *rgba,
            ),
    {
        let strokes = glyph(c);
        let ghost w = old(self).spec_width() as int;
        let ghost h = old(self).spec_height() as int;
        let mut i: usize = 0;
        proof {
            use_type_invariant(&*self);
            assert(strokes@.subrange(0, 0) =~= Seq::<Stroke>::empty());
        }
        while i < strokes.len()
            invariant
                i <= strokes@.len(),
                strokes@ == strokes_of(c),
                self.wf(),
                self.spec_width() == w,
                self.spec_height() == h,
                self.bytes() == letter_drawn(
                    old(self).bytes(),
                    w,
                    h,
                    strokes@.subrange(0, i as int),
                    x,
                    y,
                    char_size,
                    *rgba,
                ),
            decreases strokes@.len() - i,
        {
            let s = strokes[i];
            self.thick_line(
                column(s.x0, x, char_size),
                row(s.y0, y, char_size),
                column(s.x1, x, char_size),
                row(s.y1, y, char_size),
                rgba,
                THREE,
            );
            proof {
                let next = strokes@.subrange(0, i as int + 1);
                assert(next.drop_last() =~= strokes@.subrange(0, i as int));
                assert(next.last() == strokes@[i as int]);
            }
            i = i + 1;
        }
        proof {
            assert(strokes@.subrange(0, strokes@.len() as int) =~= strokes@);
        }
    }

    /// Strokes the letters of `text` from `(x, y)` on to the right.
    pub fn stroke_chars(&mut self, x: u32, y: u32, text: &[char], char_size: u32, rgba: &RGBA)
        ensures
            final(self).wf(),
            final(self).spec_width() == old(self).spec_width(),
            final(self).spec_height() == old(self).spec_height(),
            final(self).bytes() == string_drawn(
                old(self).bytes(),
                old(self).spec_width() as int,
                old(self).spec_height() as int,
                text@,
                x,
                y,
                char_size,
                *rgba,
            ),
    {
        let advance: u64 = value_to_u32(
            add_values(multiply_values(char_size, SEVEN_TENTHS), SIX),
        ) as u64;
        let n = text.len();
        let ghost w = old(self).spec_width() as int;
        let ghost h = old(self).spec_height() as int;
        let mut i: usize = 0;
        proof {
            use_type_invariant(&*self);
            assert(text@.subrange(0, 0) =~= Seq::<char>::empty());
        }
        while i < n
            invariant
                i <= n,
                n == text@.len(),
                advance == advance_of(char_size),
                self.wf(),
                self.spec_width() == w,
                self.spec_height() == h,
                self.bytes() == string_drawn(
                    old(self).bytes(),
                    w,
                    h,
                    text@.subrange(0, i as int),
                    x,
                    y,
                    char_size,
                    *rgba,
                ),
            decreases n - i,
        {
            let c = text[i];
            proof {
                let next = text@.subrange(0, i as int + 1);
                assert(next.drop_last() =~= text@.subrange(0, i as int));
                assert(next.last() == c);
                assert(next.len() - 1 == i);
            }
            // the column of letter `i`, where it fits in 32 bits
            let offset: Option<u64> = if advance == 0 {
                Some(0)
            } else if i as u64 > 0xffff_ffff {
                None
            } else {
                assert(i * advance <= 0xffff_ffff * 0xffff_ffff) by (nonlinear_arith)
                    requires
                        0 <= i <= 0xffff_ffff,
                        0 <= advance <= 0xffff_ffff,
                ;
                Some(i as u64 * advance)
            };
            proof {
                let product = i * advance_of(char_size);
                if advance == 0 {
                    assert(product == 0) by (nonlinear_arith)
                        requires
                            product == i * advance_of(char_size),
                            advance_of(char_size) == 0,
                    ;
                } else if i > 0xffff_ffff {
                    assert(product > 0xffff_ffff) by (nonlinear_arith)
                        requires
                            product == i * advance_of(char_size),
                            advance_of(char_size) >= 1,
                            i > 0xffff_ffff,
                    ;
                }
            }
            match offset {
                Some(o) => {
                    if o <= 0xffff_ffff - x as u64 {
                        self.stroke_letter((x as u64 + o) as u32, y, c, char_size, rgba);
                    }
                },
                None => {},
            }
            i = i + 1;
        }
        proof {
            assert(text@.subrange(0, n as int) =~= text@);
        }
    }

    /// Strokes the letters of `s` from `(x, y)` on to the right.
    pub fn stroke_string(&mut self, x: u32, y: u32, s: &str, char_size: u32, rgba: &RGBA)
        ensures
            final(self).wf(),
            final(self).spec_width() == old(self).spec_width(),
            final(self).spec_height() == old(self).spec_height(),
            final(self).bytes() == string_drawn(
                old(self).bytes(),
                old(self).spec_width() as int,
                old(self).spec_height() as int,
                s@,
                x,
                y,
                char_size,
                *rgba,
            ),
    {
        let n = s.unicode_len();
        let mut text: Vec<char> = Vec::new();
        let mut i: usize = 0;
        while i < n
            invariant
                i <= n,
                n == s@.len(),
                text@ == s@.subrange(0, i as int),
            decreases n - i,
        {
            text.push(s.get_char(i));
            proof {
                assert(text@ =~= s@.subrange(0, i as int + 1));
            }
            i = i + 1;
        }
        proof {
            assert(s@.subrange(0, n as int) =~= s@);
        }
        self.stroke_chars(x, y, text.as_slice(), char_size, rgba);
    }
}

} // verus!
