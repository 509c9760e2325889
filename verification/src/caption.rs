//! The caption that states a model's size: a banner along the bottom edge
//! of the picture, and on it the three dimensions as `WxHxD` in whole
//! numbers.

use crate::aabb::{size_of, AABB};
use crate::arith::{from_int, int_to_value, to_i32, value_to_i32};
use crate::picture::{rect_filled, Picture, RGBA};
use crate::stroke::string_drawn;
use vstd::prelude::*;

verus! {

/// Distance of the text from the edges of the banner, in pixels.
pub const MARGIN: u32 = 3;

/// How many times the height of the text goes into the height of the
/// picture.
pub const TEXT_TO_HEIGHT_RATIO: u32 = 16;

/// The colour of the banner: opaque dark grey.
pub open spec fn banner_colour() -> RGBA {
    RGBA { r: 0x33, g: 0x33, b: 0x33, a: 0xff }
}

/// The height of the text on a picture of the given height.
pub open spec fn text_height(height: int) -> int {
    height / (TEXT_TO_HEIGHT_RATIO as int)
}

/// The first row of the banner: the text's height and two margins above
/// the bottom edge.
pub open spec fn banner_top(height: int) -> int {
    height - (text_height(height) + 2 * MARGIN)
}

/// `bytes`, read as a picture of the given size, with the banner painted:
/// every row from [`banner_top`] down has the banner's colour.
pub open spec fn with_banner(bytes: Seq<u8>, width: int, height: int) -> Seq<u8> {
    rect_filled(
        bytes,
        width,
        height,
        0,
        banner_top(height),
        i32::MAX as int,
        i32::MAX as int,
        banner_colour(),
    )
}

/// The colour of the caption: opaque white.
pub open spec fn text_colour() -> RGBA {
    RGBA { r: 0xff, g: 0xff, b: 0xff, a: 0xff }
}

/// `bytes`, read as a picture of the given size, with the size hint for a
/// model of the extent `size` drawn: the banner, and on it the three
/// extents, cut to whole numbers.
pub open spec fn with_size_hint(bytes: Seq<u8>, width: int, height: int, size: crate::mesh::Vec3) -> Seq<
    u8,
> {
    string_drawn(
        with_banner(bytes, width, height),
        width,
        height,
        caption_of(to_i32(size.x) as int, to_i32(size.y) as int, to_i32(size.z) as int),
        MARGIN,
        (height - text_height(height) - MARGIN) as u32,
        from_int(text_height(height)),
        text_colour(),
    )
}

/// The decimal digit for a value below ten.
pub open spec fn digit_char(d: int) -> char {
    if d == 0 {
        '0'
    } else if d == 1 {
        '1'
    } else if d == 2 {
        '2'
    } else if d == 3 {
        '3'
    } else if d == 4 {
        '4'
    } else if d == 5 {
        '5'
    } else if d == 6 {
        '6'
    } else if d == 7 {
        '7'
    } else if d == 8 {
        '8'
    } else {
        '9'
    }
}

/// The decimal digits of `n`, without leading zeros.
pub open spec fn digits(n: nat) -> Seq<char>
    decreases n,
{
    if n < 10 {
        seq![digit_char(n as int)]
    } else {
        digits(n / 10).push(digit_char((n % 10) as int))
    }
}

/// `v` in decimal, with a minus sign where it is negative.
pub open spec fn decimal(v: int) -> Seq<char> {
    if v < 0 {
        seq!['-'] + digits((-v) as nat)
    } else {
        digits(v as nat)
    }
}

/// The caption for a model of the given width, height and depth:
/// the three in decimal with an `x` between them.
pub open spec fn caption_of(width: int, height: int, depth: int) -> Seq<char> {
    decimal(width) + seq!['x'] + decimal(height) + seq!['x'] + decimal(depth)
}

/// The height of the text on a picture of the given height.
pub fn text_size(height: u32) -> (size: u32)
    ensures
        size == text_height(height as int),
{
    height / TEXT_TO_HEIGHT_RATIO
}

/// Where the caption starts on a picture of the given height: a margin
/// from the left edge, and the text's height and a margin above the bottom
/// edge.
pub fn caption_origin(height: u32) -> (origin: (u32, u32))
    requires
        height >= MARGIN,
    ensures
        origin.0 == MARGIN,
        origin.1 == height - text_height(height as int) - MARGIN,
{
    (MARGIN, height - height / TEXT_TO_HEIGHT_RATIO - MARGIN)
}

/// Paints the banner: every row from [`banner_top`] down takes the banner's
/// colour over its whole width.
pub fn draw_banner(pic: &mut Picture)
    ensures
        final(pic).wf(),
        final(pic).spec_width() == old(pic).spec_width(),
        final(pic).spec_height() == old(pic).spec_height(),
        final(pic).bytes().len() == old(pic).bytes().len(),
        forall|x: int, y: int|
            old(pic).contains(x, y) ==> #[trigger] final(pic).pixel(x, y) == (if y >= banner_top(
                old(pic).spec_height() as int,
            ) {
                banner_colour()
            } else {
                old(pic).pixel(x, y)
            }),
        final(pic).bytes() == with_banner(
            old(pic).bytes(),
            old(pic).spec_width() as int,
            old(pic).spec_height() as int,
        ),
{
    proof {
        use_type_invariant(&*pic);
        pic.lemma_layout(0, 0);
    }
    let w = pic.width();
    let h = pic.height();
    if w == 0 || h == 0 {
        proof {
            assert(4 * w * h == 0) by (nonlinear_arith)
                requires
                    w == 0 || h == 0,
            ;
            assert(pic.bytes() =~= with_banner(pic.bytes(), w as int, h as int));
        }
        return ;
    }
    assert(h <= 0x4000_0000 && w <= 0x4000_0000) by (nonlinear_arith)
        requires
            4 * w * h <= u32::MAX,
            w >= 1,
            h >= 1,
    ;
    let top: i32 = h as i32 - (h / TEXT_TO_HEIGHT_RATIO + 2 * MARGIN) as i32;
    pic.fill_rect(0, top, i32::MAX, i32::MAX, &RGBA { r: 0x33, g: 0x33, b: 0x33, a: 0xff });
}

fn digit(d: u32) -> (c: char)
    requires
        d < 10,
    ensures
        c == digit_char(d as int),
{
    if d == 0 {
        '0'
    } else if d == 1 {
        '1'
    } else if d == 2 {
        '2'
    } else if d == 3 {
        '3'
    } else if d == 4 {
        '4'
    } else if d == 5 {
        '5'
    } else if d == 6 {
        '6'
    } else if d == 7 {
        '7'
    } else if d == 8 {
        '8'
    } else {
        '9'
    }
}

/// Appends `n` in decimal to `out`.
fn push_digits(out: &mut Vec<char>, n: u32)
    ensures
        final(out)@ == old(out)@ + digits(n as nat),
    decreases n,
{
    if n >= 10 {
        push_digits(out, n / 10);
    }
    out.push(digit(n % 10));
    proof {
        if n >= 10 {
            assert(final(out)@ =~= old(out)@ + digits((n / 10) as nat).push(
                digit_char((n % 10) as int),
            ));
        } else {
            assert(final(out)@ =~= old(out)@ + seq![digit_char(n as int)]);
        }
    }
}

/// Appends `v` in decimal to `out`.
fn push_decimal(out: &mut Vec<char>, v: i32)
    ensures
        final(out)@ == old(out)@ + decimal(v as int),
{
    if v < 0 {
        out.push('-');
        push_digits(out, (-(v as i64)) as u32);
        proof {
            assert(out@ =~= old(out)@ + (seq!['-'] + digits((-v) as nat)));
        }
    } else {
        push_digits(out, v as u32);
    }
}

/// The caption for a model of the given width, height and depth.
pub fn caption(width: i32, height: i32, depth: i32) -> (text: Vec<char>)
    ensures
        text@ == caption_of(width as int, height as int, depth as int),
{
    let mut text: Vec<char> = Vec::new();
    push_decimal(&mut text, width);
    text.push('x');
    push_decimal(&mut text, height);
    text.push('x');
    push_decimal(&mut text, depth);
    proof {
        assert(text@ =~= caption_of(width as int, height as int, depth as int));
    }
    text
}

/// Draws the size hint for a model in the box `aabb`: the banner along the
/// bottom edge and on it the caption that states the size of the box.
pub fn draw_size_hint(pic: &mut Picture, aabb: &AABB)
    requires
        old(pic).spec_height() >= MARGIN,
    ensures
        final(pic).wf(),
        final(pic).spec_width() == old(pic).spec_width(),
        final(pic).spec_height() == old(pic).spec_height(),
        final(pic).bytes() == with_size_hint(
            old(pic).bytes(),
            old(pic).spec_width() as int,
            old(pic).spec_height() as int,
            size_of(*aabb),
        ),
{
    let size = aabb.size();
    let text = caption(value_to_i32(size.x), value_to_i32(size.y), value_to_i32(size.z));
    let height = pic.height();
    let origin = caption_origin(height);
    draw_banner(pic);
    pic.stroke_chars(
        origin.0,
        origin.1,
        text.as_slice(),
        int_to_value(text_size(height) as i64),
        &RGBA { r: 0xff, g: 0xff, b: 0xff, a: 0xff },
    );
}

} // verus!
