//! An RGBA8 picture with bounds-checked pixel access and integer drawing
//! primitives.

use crate::rounding::{
    add_up, complement, complement_of, divide, fraction, fraction_of, lemma_significand_positive,
    multiply, product, quotient, scale_to_byte, scaled_byte, sum, unit_byte, unit_to_byte,
};
use vstd::prelude::*;
use vstd::string::StringSliceAdditionalSpecFns;

verus! {

/// One pixel: red, green, blue and alpha, eight bits each.
#[derive(Debug, PartialEq, Eq, Clone, Copy, Structural)]
pub struct RGBA {
    pub r: u8,
    pub g: u8,
    pub b: u8,
    pub a: u8,
}

impl From<(u8, u8, u8, u8)> for RGBA {
    fn from(rgba: (u8, u8, u8, u8)) -> (res: Self) {
        RGBA { r: rgba.0, g: rgba.1, b: rgba.2, a: rgba.3 }
    }
}

impl vstd::std_specs::convert::FromSpecImpl<(u8, u8, u8, u8)> for RGBA {
    open spec fn obeys_from_spec() -> bool {
        true
    }

    open spec fn from_spec(rgba: (u8, u8, u8, u8)) -> Self {
        RGBA { r: rgba.0, g: rgba.1, b: rgba.2, a: rgba.3 }
    }
}

/// The alpha of `a` drawn over `b`, as a single-precision value: with both
/// alphas read as fractions of 255 it is `alpha_a + (1 - alpha_a) *
/// alpha_b`. Every quotient, difference, product and sum is rounded to
/// single precision before it is used.
pub open spec fn over_alpha(alpha_a: u8, alpha_b: u8) -> u32 {
    sum(fraction(alpha_a as int), over_rest(alpha_a, alpha_b))
}

/// The part of the result's alpha that comes from below:
/// `(1 - alpha_a) * alpha_b`.
pub open spec fn over_rest(alpha_a: u8, alpha_b: u8) -> u32 {
    product(complement(fraction(alpha_a as int)), fraction(alpha_b as int))
}

/// One colour channel of `a` drawn over `b`: each of the two channel
/// values is multiplied by its share of the result's alpha, `alpha_a /
/// alpha_c` above and `(1 - alpha_a) * alpha_b / alpha_c` below, and cut
/// to a whole number, and the two are added.
pub open spec fn over_channel(ca: u8, cb: u8, alpha_a: u8, alpha_b: u8) -> u8 {
    let alpha_c = over_alpha(alpha_a, alpha_b);
    let above = scaled_byte(quotient(fraction(alpha_a as int), alpha_c), ca as int);
    let below = scaled_byte(quotient(over_rest(alpha_a, alpha_b), alpha_c), cb as int);
    ((above + below) % 256) as u8
}

/// `a` drawn over `b`, by the Porter-Duff "over" operator, computed in
/// single precision. Where neither has any alpha the result is
/// transparent black.
pub open spec fn over_spec(a: RGBA, b: RGBA) -> RGBA {
    if over_alpha(a.a, b.a) == 0 {
        clear_black()
    } else {
        RGBA {
            r: over_channel(a.r, b.r, a.a, b.a),
            g: over_channel(a.g, b.g, a.a, b.a),
            b: over_channel(a.b, b.b, a.a, b.a),
            a: scaled_byte(over_alpha(a.a, b.a), 255) as u8,
        }
    }
}

/// The value of a hexadecimal digit in either case.
pub open spec fn hex_digit(b: u8) -> Option<int> {
    if 48 <= b <= 57 {
        Some(b - 48)
    } else if 97 <= b <= 102 {
        Some(b - 87)
    } else if 65 <= b <= 70 {
        Some(b - 55)
    } else {
        None
    }
}

/// The byte that two characters give: two hexadecimal digits, or a sign
/// and one digit, a negative value counting back from 256.
pub open spec fn hex_pair(a: u8, b: u8) -> Option<u8> {
    match hex_digit(b) {
        None => None,
        Some(low) => match hex_digit(a) {
            Some(high) => Some((16 * high + low) as u8),
            None => if a == 43 {
                Some(low as u8)
            } else if a == 45 {
                Some(((256 - low) % 256) as u8)
            } else {
                None
            },
        },
    }
}

/// The colour that the eight characters `RRGGBBAA` give; `None` for text
/// of any other form.
pub open spec fn hex_colour(s: Seq<u8>) -> Option<RGBA> {
    if s.len() != 8 {
        None
    } else {
        match (hex_pair(s[0], s[1]), hex_pair(s[2], s[3]), hex_pair(s[4], s[5]), hex_pair(s[6], s[7])) {
            (Some(r), Some(g), Some(b), Some(a)) => Some(RGBA { r, g, b, a }),
            _ => None,
        }
    }
}

/// The sum of two bytes, as a byte.
fn mix(above: u8, below: u8) -> (c: u8)
    ensures
        c == ((above + below) % 256) as u8,
{
    ((above as u16 + below as u16) % 256) as u8
}

fn digit_value(b: u8) -> (v: Option<u8>)
    ensures
        match v {
            Some(d) => hex_digit(b) == Some(d as int) && d < 16,
            None => hex_digit(b).is_none(),
        },
{
    if 48 <= b && b <= 57 {
        Some(b - 48)
    } else if 97 <= b && b <= 102 {
        Some(b - 87)
    } else if 65 <= b && b <= 70 {
        Some(b - 55)
    } else {
        None
    }
}

fn pair_value(a: u8, b: u8) -> (v: Option<u8>)
    ensures
        v == hex_pair(a, b),
{
    let low = match digit_value(b) {
        Some(d) => d,
        None => {
            return None;
        },
    };
    match digit_value(a) {
        Some(high) => Some(16 * high + low),
        None => if a == 43 {
            Some(low)
        } else if a == 45 {
            if low == 0 {
                Some(0)
            } else {
                Some(((256 - low as u16) as u8))
            }
        } else {
            None
        },
    }
}

impl RGBA {
    /// The colour written as `RRGGBBAA` in hexadecimal digits; `None` for
    /// text of any other form.
    pub fn from_hex(text: &str) -> (c: Option<RGBA>)
        ensures
            c == hex_colour(text.spec_bytes()),
    {
        let s = text.as_bytes();
        if s.len() != 8 {
            return None;
        }
        let r = match pair_value(s[0], s[1]) {
            Some(v) => v,
            None => {
                return None;
            },
        };
        let g = match pair_value(s[2], s[3]) {
            Some(v) => v,
            None => {
                return None;
            },
        };
        let b = match pair_value(s[4], s[5]) {
            Some(v) => v,
            None => {
                return None;
            },
        };
        let a = match pair_value(s[6], s[7]) {
            Some(v) => v,
            None => {
                return None;
            },
        };
        Some(RGBA { r, g, b, a })
    }

    /// The colour whose channels are given as single-precision values
    /// between 0 and 1, each by its bit pattern: every value is held within
    /// 0 and 1, scaled by 255 in single precision and cut to a whole number.
    pub fn from_unit(r: u32, g: u32, b: u32, a: u32) -> (c: RGBA)
        ensures
            c.r == unit_byte(r),
            c.g == unit_byte(g),
            c.b == unit_byte(b),
            c.a == unit_byte(a),
    {
        RGBA { r: unit_to_byte(r), g: unit_to_byte(g), b: unit_to_byte(b), a: unit_to_byte(a) }
    }

    /// This colour with its alpha multiplied by the single-precision value
    /// given by the bit pattern `a`.
    pub fn alpha(&self, a: u32) -> (c: RGBA)
        ensures
            c.r == self.r,
            c.g == self.g,
            c.b == self.b,
            c.a == scaled_byte(a, self.a as int),
    {
        RGBA { r: self.r, g: self.g, b: self.b, a: scale_to_byte(a, self.a) }
    }

    /// This colour with its three colour channels multiplied by the
    /// single-precision value given by the bit pattern `factor`: each
    /// product is cut to a whole number and held within 0 and 255. The
    /// alpha stays.
    pub fn times(&self, factor: u32) -> (c: RGBA)
        ensures
            c.r == scaled_byte(factor, self.r as int),
            c.g == scaled_byte(factor, self.g as int),
            c.b == scaled_byte(factor, self.b as int),
            c.a == self.a,
    {
        RGBA {
            r: scale_to_byte(factor, self.r),
            g: scale_to_byte(factor, self.g),
            b: scale_to_byte(factor, self.b),
            a: self.a,
        }
    }

    /// The sum of two colours, channel by channel; a sum above 255 starts
    /// again at 0.
    pub fn plus(&self, other: &RGBA) -> (c: RGBA)
        ensures
            c.r == (self.r + other.r) % 256,
            c.g == (self.g + other.g) % 256,
            c.b == (self.b + other.b) % 256,
            c.a == (self.a + other.a) % 256,
    {
        RGBA {
            r: mix(self.r, other.r),
            g: mix(self.g, other.g),
            b: mix(self.b, other.b),
            a: mix(self.a, other.a),
        }
    }

    /// `self` drawn over `b`.
    pub fn over(&self, b: RGBA) -> (c: RGBA)
        ensures
            c == over_spec(*self, b),
    {
        let alpha_a = fraction_of(self.a);
        let alpha_b = fraction_of(b.a);
        let rest = multiply(complement_of(alpha_a), alpha_b);
        let alpha_c = add_up(alpha_a, rest);
        if alpha_c == 0 {
            return RGBA { r: 0, g: 0, b: 0, a: 0 };
        }
        proof {
            lemma_significand_positive(alpha_c);
        }
        let above = divide(alpha_a, alpha_c);
        let below = divide(rest, alpha_c);
        let both = self.times(above).plus(&b.times(below));
        RGBA { r: both.r, g: both.g, b: both.b, a: scale_to_byte(alpha_c, 255) }
    }
}

/// Opaque black, the colour of a new picture.
pub open spec fn opaque_black() -> RGBA {
    RGBA { r: 0, g: 0, b: 0, a: 255 }
}

/// Fully transparent black, what reading outside a picture gives.
pub open spec fn clear_black() -> RGBA {
    RGBA { r: 0, g: 0, b: 0, a: 0 }
}

/// The byte of `c` that is stored at position `k` of a pixel's four bytes.
pub open spec fn channel(c: RGBA, k: int) -> u8 {
    if k == 0 {
        c.r
    } else if k == 1 {
        c.g
    } else if k == 2 {
        c.b
    } else {
        c.a
    }
}

/// Index of the first byte of pixel `(x, y)` in a row-major buffer of the
/// given width with four bytes per pixel.
pub open spec fn pixel_offset(width: int, x: int, y: int) -> int {
    4 * (y * width + x)
}

/// The pixel whose four bytes start at `offset` in `bytes`.
pub open spec fn pixel_in(bytes: Seq<u8>, offset: int) -> RGBA {
    RGBA { r: bytes[offset], g: bytes[offset + 1], b: bytes[offset + 2], a: bytes[offset + 3] }
}

/// `bytes` with the four bytes from `offset` on replaced by `c`.
pub open spec fn with_pixel(bytes: Seq<u8>, offset: int, c: RGBA) -> Seq<u8> {
    bytes.update(offset, c.r).update(offset + 1, c.g).update(offset + 2, c.b).update(
        offset + 3,
        c.a,
    )
}

/// `bytes`, read as a picture of the given size, after storing `c` at
/// `(x, y)`: unchanged when the position lies outside.
pub open spec fn plot(bytes: Seq<u8>, width: int, height: int, x: int, y: int, c: RGBA) -> Seq<
    u8,
> {
    if 0 <= x < width && 0 <= y < height {
        with_pixel(bytes, pixel_offset(width, x, y), c)
    } else {
        bytes
    }
}

/// `bytes` after storing `c` at each of `points` in turn.
pub open spec fn plot_all(
    bytes: Seq<u8>,
    width: int,
    height: int,
    points: Seq<(int, int)>,
    c: RGBA,
) -> Seq<u8>
    decreases points.len(),
{
    if points.len() == 0 {
        bytes
    } else {
        plot(
            plot_all(bytes, width, height, points.drop_last(), c),
            width,
            height,
            points.last().0,
            points.last().1,
            c,
        )
    }
}

/// Storing a colour at a position inside a picture changes the pixel there
/// and no other, and keeps the length of the buffer.
pub proof fn lemma_plot(
    bytes: Seq<u8>,
    width: int,
    height: int,
    x: int,
    y: int,
    c: RGBA,
    x2: int,
    y2: int,
)
    requires
        bytes.len() == 4 * width * height,
        0 <= x < width,
        0 <= y < height,
        0 <= x2 < width,
        0 <= y2 < height,
    ensures
        plot(bytes, width, height, x, y, c).len() == bytes.len(),
        pixel_in(plot(bytes, width, height, x, y, c), pixel_offset(width, x2, y2)) == (if x2 == x
            && y2 == y {
            c
        } else {
            pixel_in(bytes, pixel_offset(width, x2, y2))
        }),
{
    let w = width;
    let h = height;
    assert(4 * (w * h) == 4 * w * h) by (nonlinear_arith);
    assert(0 <= y * w + x && y * w + x + 1 <= w * h) by (nonlinear_arith)
        requires
            0 <= x < w,
            0 <= y < h,
    ;
    assert(0 <= y2 * w + x2 && y2 * w + x2 + 1 <= w * h) by (nonlinear_arith)
        requires
            0 <= x2 < w,
            0 <= y2 < h,
    ;
    if y2 == y {
    } else if y < y2 {
        assert(y2 * w + x2 >= y * w + x + 1) by (nonlinear_arith)
            requires
                y < y2,
                0 <= x < w,
                0 <= x2 < w,
        ;
    } else {
        assert(y * w + x >= y2 * w + x2 + 1) by (nonlinear_arith)
            requires
                y2 < y,
                0 <= x < w,
                0 <= x2 < w,
        ;
    }
}

/// `bytes`, read as a picture of the given size, with every pixel of the
/// rectangle from `(x0, y0)` to `(x1, y1)`, both corners included, set to
/// `c`.
pub open spec fn rect_filled(
    bytes: Seq<u8>,
    width: int,
    height: int,
    x0: int,
    y0: int,
    x1: int,
    y1: int,
    c: RGBA,
) -> Seq<u8> {
    Seq::new(
        bytes.len(),
        |i: int|
            if x0 <= (i / 4) % width <= x1 && y0 <= (i / 4) / width <= y1 {
                channel(c, i % 4)
            } else {
                bytes[i]
            },
    )
}

/// A buffer whose pixels are those of another, but for the pixels of a
/// rectangle, which have one colour, is the other with the rectangle
/// filled.
pub proof fn lemma_rect_filled(
    before: Seq<u8>,
    after: Seq<u8>,
    width: int,
    height: int,
    x0: int,
    y0: int,
    x1: int,
    y1: int,
    c: RGBA,
)
    requires
        0 < width,
        0 <= height,
        before.len() == 4 * width * height,
        after.len() == before.len(),
        forall|x: int, y: int|
            0 <= x < width && 0 <= y < height ==> #[trigger] pixel_in(
                after,
                pixel_offset(width, x, y),
            ) == (if x0 <= x <= x1 && y0 <= y <= y1 {
                c
            } else {
                pixel_in(before, pixel_offset(width, x, y))
            }),
    ensures
        after == rect_filled(before, width, height, x0, y0, x1, y1, c),
{
    let filled = rect_filled(before, width, height, x0, y0, x1, y1, c);
    assert forall|i: int| 0 <= i < after.len() implies after[i] == filled[i] by {
        let p = i / 4;
        let x = p % width;
        let y = p / width;
        vstd::arithmetic::div_mod::lemma_fundamental_div_mod(p, width);
        assert(4 * (width * height) == 4 * width * height) by (nonlinear_arith);
        assert(0 <= p < width * height);
        assert(0 <= y < height) by (nonlinear_arith)
            requires
                0 <= p < width * height,
                y == p / width,
                0 < width,
        ;
        assert(y * width == width * y) by (nonlinear_arith);
        assert(pixel_offset(width, x, y) == 4 * p);
        let inside = pixel_in(after, pixel_offset(width, x, y));
        assert(inside == (if x0 <= x <= x1 && y0 <= y <= y1 {
            c
        } else {
            pixel_in(before, pixel_offset(width, x, y))
        }));
    }
    assert(after =~= filled);
}

/// Where byte `i` of a BGRA copy comes from in the RGBA buffer: the first
/// and third byte of every pixel change places.
pub open spec fn bgra_source(i: int) -> int {
    if i % 4 == 0 {
        i + 2
    } else if i % 4 == 2 {
        i - 2
    } else {
        i
    }
}

/// `Vec::into_boxed_slice`: the box holds the vector's elements, in order.
#[verifier::external_body]
fn into_boxed_bytes(v: Vec<u8>) -> (b: Box<[u8]>)
    ensures
        b@ == v@,
{
    v.into_boxed_slice()
}

/// A row-major RGBA8 framebuffer: `width * height` pixels of four bytes.
#[derive(Debug)]
pub struct Picture {
    data: Vec<u8>,
    width: u32,
    height: u32,
    depth: u32,
}

impl Picture {
    /// What every picture satisfies: four bytes per pixel, a buffer of exactly
    /// `width * height * 4` bytes, and a byte count that fits in 32 bits.
    #[verifier::type_invariant]
    pub closed spec fn wf(&self) -> bool {
        &&& self.depth == 4
        &&& self.data@.len() == self.width * self.height * 4
        &&& self.width * self.height * 4 <= u32::MAX
    }

    /// The pixel bytes, row by row.
    pub closed spec fn bytes(&self) -> Seq<u8> {
        self.data@
    }

    pub closed spec fn spec_width(&self) -> nat {
        self.width as nat
    }

    pub closed spec fn spec_height(&self) -> nat {
        self.height as nat
    }

    /// Whether `(x, y)` names a pixel of this picture.
    pub open spec fn contains(&self, x: int, y: int) -> bool {
        0 <= x < self.spec_width() && 0 <= y < self.spec_height()
    }

    /// Index of the first byte of pixel `(x, y)`.
    pub open spec fn offset(&self, x: int, y: int) -> int {
        pixel_offset(self.spec_width() as int, x, y)
    }

    /// The colour stored at `(x, y)`; meaningful where `contains(x, y)`.
    pub open spec fn pixel(&self, x: int, y: int) -> RGBA {
        pixel_in(self.bytes(), self.offset(x, y))
    }

    /// A well-formed picture holds `4 * width * height` bytes, and every pixel
    /// inside it lies wholly inside the buffer.
    pub proof fn lemma_layout(&self, x: int, y: int)
        requires
            self.wf(),
        ensures
            self.bytes().len() == 4 * self.spec_width() * self.spec_height(),
            self.bytes().len() <= u32::MAX,
            self.contains(x, y) ==> 0 <= self.offset(x, y) && self.offset(x, y) + 4
                <= self.bytes().len(),
    {
        let w = self.spec_width() as int;
        let h = self.spec_height() as int;
        assert(self.width * self.height * 4 == 4 * w * h) by (nonlinear_arith)
            requires
                w == self.width,
                h == self.height,
        ;
        if self.contains(x, y) {
            assert(y * w + x + 1 <= w * h) by (nonlinear_arith)
                requires
                    0 <= x < w,
                    0 <= y < h,
            ;
            assert(0 <= y * w + x) by (nonlinear_arith)
                requires
                    0 <= x < w,
                    0 <= y < h,
            ;
            assert(4 * (w * h) == 4 * w * h) by (nonlinear_arith);
        }
    }

    /// A picture of the given size, every pixel opaque black.
    pub fn new(width: u32, height: u32) -> (pic: Self)
        requires
            width * height * 4 <= u32::MAX,
        ensures
            pic.wf(),
            pic.spec_width() == width,
            pic.spec_height() == height,
            pic.bytes().len() == 4 * width * height,
            forall|i: int|
                0 <= i < pic.bytes().len() ==> #[trigger] pic.bytes()[i] == channel(
                    opaque_black(),
                    i % 4,
                ),
    {
        let depth: u32 = 4;
        assert(width * height <= u32::MAX) by (nonlinear_arith)
            requires
                width * height * 4 <= u32::MAX,
        ;
        assert(width * height * 4 == 4 * width * height) by (nonlinear_arith);
        let len: u32 = width * height * depth;
        let mut data: Vec<u8> = Vec::new();
        data.resize(len as usize, 0);
        let mut pic = Picture { data, width, height, depth };
        pic.fill(&RGBA { r: 0, g: 0, b: 0, a: 255 });
        pic
    }

    /// Bytes per row.
    pub fn stride(&self) -> (s: u32)
        requires
            4 * self.spec_width() <= u32::MAX,
        ensures
            s == 4 * self.spec_width(),
    {
        proof {
            use_type_invariant(self);
        }
        self.width * self.depth
    }

    pub fn width(&self) -> (w: u32)
        ensures
            w == self.spec_width(),
    {
        self.width
    }

    pub fn height(&self) -> (h: u32)
        ensures
            h == self.spec_height(),
    {
        self.height
    }

    /// Bytes per pixel, always four.
    pub fn depth(&self) -> (d: u32)
        ensures
            d == 4,
    {
        proof {
            use_type_invariant(self);
        }
        self.depth
    }

    /// The pixel bytes, row by row, four per pixel in the order red, green,
    /// blue, alpha.
    pub fn data(&self) -> (bytes: &[u8])
        ensures
            bytes@ == self.bytes(),
            bytes@.len() == 4 * self.spec_width() * self.spec_height(),
            self.wf(),
    {
        proof {
            use_type_invariant(self);
            self.lemma_layout(0, 0);
        }
        self.data.as_slice()
    }

    /// Sets every pixel to `rgba`.
    pub fn fill(&mut self, rgba: &RGBA)
        ensures
            final(self).wf(),
            final(self).spec_width() == old(self).spec_width(),
            final(self).spec_height() == old(self).spec_height(),
            final(self).bytes().len() == old(self).bytes().len(),
            forall|i: int|
                0 <= i < final(self).bytes().len() ==> #[trigger] final(self).bytes()[i]
                    == channel(*rgba, i % 4),
    {
        proof {
            use_type_invariant(&*self);
            self.lemma_layout(0, 0);
        }
        let n: usize = self.data.len();
        let mut i: usize = 0;
        while i < n
            invariant
                n == self.data@.len(),
                n % 4 == 0,
                i % 4 == 0,
                i <= n,
                self.width == old(self).width,
                self.height == old(self).height,
                self.depth == old(self).depth,
                self.wf(),
                forall|j: int| 0 <= j < i ==> #[trigger] self.data@[j] == channel(*rgba, j % 4),
            decreases n - i,
        {
            self.data[i] = rgba.r;
            self.data[i + 1] = rgba.g;
            self.data[i + 2] = rgba.b;
            self.data[i + 3] = rgba.a;
            i = i + 4;
        }
    }

    /// Stores `rgba` at `(x, y)`; does nothing when the position lies outside
    /// the picture.
    pub fn set(&mut self, x: u32, y: u32, rgba: &RGBA)
        ensures
            final(self).wf(),
            final(self).spec_width() == old(self).spec_width(),
            final(self).spec_height() == old(self).spec_height(),
            final(self).bytes() == plot(
                old(self).bytes(),
                old(self).spec_width() as int,
                old(self).spec_height() as int,
                x as int,
                y as int,
                *rgba,
            ),
        no_unwind
    {
        proof {
            use_type_invariant(&*self);
            self.lemma_layout(x as int, y as int);
        }
        if x >= self.width || y >= self.height {
            return ;
        }
        let o: usize = 4 * (y as usize * self.width as usize + x as usize);
        self.data[o] = rgba.r;
        self.data[o + 1] = rgba.g;
        self.data[o + 2] = rgba.b;
        self.data[o + 3] = rgba.a;
    }

    /// The colour at `(x, y)`, or transparent black when the position lies
    /// outside the picture.
    pub fn get(&self, x: u32, y: u32) -> (c: RGBA)
        ensures
            self.contains(x as int, y as int) ==> c == self.pixel(x as int, y as int),
            !self.contains(x as int, y as int) ==> c == clear_black(),
    {
        proof {
            use_type_invariant(self);
            self.lemma_layout(x as int, y as int);
        }
        if x >= self.width || y >= self.height {
            return RGBA { r: 0, g: 0, b: 0, a: 0 };
        }
        let o: usize = 4 * (y as usize * self.width as usize + x as usize);
        RGBA { r: self.data[o], g: self.data[o + 1], b: self.data[o + 2], a: self.data[o + 3] }
    }

    /// Draws `rgba` over the pixel at `(x, y)`; does nothing when the
    /// position lies outside the picture.
    pub fn alpha_blend(&mut self, x: u32, y: u32, rgba: RGBA)
        ensures
            final(self).wf(),
            final(self).spec_width() == old(self).spec_width(),
            final(self).spec_height() == old(self).spec_height(),
            final(self).bytes() == plot(
                old(self).bytes(),
                old(self).spec_width() as int,
                old(self).spec_height() as int,
                x as int,
                y as int,
                over_spec(rgba, old(self).pixel(x as int, y as int)),
            ),
    {
        proof {
            use_type_invariant(&*self);
        }
        if x >= self.width || y >= self.height {
            return ;
        }
        let below = self.get(x, y);
        self.set(x, y, &rgba.over(below));
    }

    /// Storing a colour at a position inside the picture changes the pixel
    /// there and no other.
    pub proof fn lemma_set(&self, x: int, y: int, c: RGBA, x2: int, y2: int)
        requires
            self.wf(),
            self.contains(x, y),
            self.contains(x2, y2),
        ensures
            pixel_in(
                plot(self.bytes(), self.spec_width() as int, self.spec_height() as int, x, y, c),
                self.offset(x2, y2),
            ) == (if x2 == x && y2 == y {
                c
            } else {
                self.pixel(x2, y2)
            }),
    {
        self.lemma_layout(x, y);
        lemma_plot(
            self.bytes(),
            self.spec_width() as int,
            self.spec_height() as int,
            x,
            y,
            c,
            x2,
            y2,
        );
    }

    /// Fills the rectangle with corners `(x0, y0)` and `(x1, y1)`, both
    /// included, clipped to the picture.
    pub fn fill_rect(&mut self, x0: i32, y0: i32, x1: i32, y1: i32, rgba: &RGBA)
        ensures
            final(self).wf(),
            final(self).spec_width() == old(self).spec_width(),
            final(self).spec_height() == old(self).spec_height(),
            final(self).bytes().len() == old(self).bytes().len(),
            forall|x: int, y: int|
                old(self).contains(x, y) ==> #[trigger] final(self).pixel(x, y) == (if x0 <= x
                    <= x1 && y0 <= y <= y1 {
                    *rgba
                } else {
                    old(self).pixel(x, y)
                }),
            final(self).bytes() == rect_filled(
                old(self).bytes(),
                old(self).spec_width() as int,
                old(self).spec_height() as int,
                x0 as int,
                y0 as int,
                x1 as int,
                y1 as int,
                *rgba,
            ),
    {
        proof {
            use_type_invariant(&*self);
            self.lemma_layout(0, 0);
        }
        if self.width == 0 || self.height == 0 {
            proof {
                assert(4 * self.spec_width() * self.spec_height() == 0) by (nonlinear_arith)
                    requires
                        self.spec_width() == 0 || self.spec_height() == 0,
                ;
                assert(self.bytes() =~= rect_filled(
                    self.bytes(),
                    self.spec_width() as int,
                    self.spec_height() as int,
                    x0 as int,
                    y0 as int,
                    x1 as int,
                    y1 as int,
                    *rgba,
                ));
            }
            return ;
        }
        let xa: i64 = if x0 > 0 {
            x0 as i64
        } else {
            0
        };
        let ya: i64 = if y0 > 0 {
            y0 as i64
        } else {
            0
        };
        let xb: i64 = if (x1 as i64) < self.width as i64 - 1 {
            x1 as i64
        } else {
            self.width as i64 - 1
        };
        let yb: i64 = if (y1 as i64) < self.height as i64 - 1 {
            y1 as i64
        } else {
            self.height as i64 - 1
        };
        let mut x: i64 = xa;
        while x <= xb
            invariant
                self.wf(),
                self.spec_width() == old(self).spec_width(),
                self.spec_height() == old(self).spec_height(),
                self.bytes().len() == old(self).bytes().len(),
                0 <= xa <= x,
                x <= xb + 1 || x == xa,
                xb < self.spec_width(),
                0 <= ya,
                yb < self.spec_height(),
                xa == (if x0 > 0 {
                    x0 as int
                } else {
                    0
                }),
                ya == (if y0 > 0 {
                    y0 as int
                } else {
                    0
                }),
                xb == (if x1 < self.spec_width() - 1 {
                    x1 as int
                } else {
                    self.spec_width() - 1
                }),
                yb == (if y1 < self.spec_height() - 1 {
                    y1 as int
                } else {
                    self.spec_height() - 1
                }),
                forall|px: int, py: int|
                    old(self).contains(px, py) ==> #[trigger] self.pixel(px, py) == (if xa <= px
                        < x && ya <= py <= yb {
                        *rgba
                    } else {
                        old(self).pixel(px, py)
                    }),
            decreases xb + 1 - x,
        {
            let mut y: i64 = ya;
            while y <= yb
                invariant
                    self.wf(),
                    self.spec_width() == old(self).spec_width(),
                    self.spec_height() == old(self).spec_height(),
                    self.bytes().len() == old(self).bytes().len(),
                    0 <= xa <= x <= xb,
                    xb < self.spec_width(),
                    0 <= ya <= y,
                    y <= yb + 1 || y == ya,
                    yb < self.spec_height(),
                    forall|px: int, py: int|
                        old(self).contains(px, py) ==> #[trigger] self.pixel(px, py) == (if (xa
                            <= px < x && ya <= py <= yb) || (px == x && ya <= py < y) {
                            *rgba
                        } else {
                            old(self).pixel(px, py)
                        }),
                decreases yb + 1 - y,
            {
                let ghost before = *self;
                self.set(x as u32, y as u32, rgba);
                proof {
                    assert forall|px: int, py: int| old(self).contains(px, py) implies #[trigger] self.pixel(
                        px,
                        py,
                    ) == (if (xa <= px < x && ya <= py <= yb) || (px == x && ya <= py < y + 1) {
                        *rgba
                    } else {
                        old(self).pixel(px, py)
                    }) by {
                        before.lemma_set(x as int, y as int, *rgba, px, py);
                    }
                    before.lemma_set(x as int, y as int, *rgba, x as int, y as int);
                }
                y = y + 1;
            }
            x = x + 1;
        }
        proof {
            let w = old(self).spec_width() as int;
            let h = old(self).spec_height() as int;
            assert forall|px: int, py: int| 0 <= px < w && 0 <= py < h implies #[trigger] pixel_in(
                self.bytes(),
                pixel_offset(w, px, py),
            ) == (if x0 <= px <= x1 && y0 <= py <= y1 {
                *rgba
            } else {
                pixel_in(old(self).bytes(), pixel_offset(w, px, py))
            }) by {
                assert(old(self).contains(px, py));
                assert(self.pixel(px, py) == pixel_in(self.bytes(), pixel_offset(w, px, py)));
            }
            lemma_rect_filled(
                old(self).bytes(),
                self.bytes(),
                w,
                h,
                x0 as int,
                y0 as int,
                x1 as int,
                y1 as int,
                *rgba,
            );
        }
    }

    /// Marks the main diagonal with transparent red.
    pub fn test_pattern(&mut self)
        ensures
            final(self).wf(),
            final(self).spec_width() == old(self).spec_width(),
            final(self).spec_height() == old(self).spec_height(),
            final(self).bytes().len() == old(self).bytes().len(),
            forall|x: int, y: int|
                old(self).contains(x, y) ==> #[trigger] final(self).pixel(x, y) == (if x == y {
                    RGBA { r: 255, g: 0, b: 0, a: 0 }
                } else {
                    old(self).pixel(x, y)
                }),
    {
        proof {
            use_type_invariant(&*self);
        }
        let n: u32 = if self.height < self.width {
            self.height
        } else {
            self.width
        };
        let red = RGBA { r: 255, g: 0, b: 0, a: 0 };
        let mut i: u32 = 0;
        while i < n
            invariant
                self.wf(),
                self.spec_width() == old(self).spec_width(),
                self.spec_height() == old(self).spec_height(),
                self.bytes().len() == old(self).bytes().len(),
                i <= n,
                n <= self.spec_width(),
                n <= self.spec_height(),
                n == self.spec_width() || n == self.spec_height(),
                red == (RGBA { r: 255, g: 0, b: 0, a: 0 }),
                forall|x: int, y: int|
                    old(self).contains(x, y) ==> #[trigger] self.pixel(x, y) == (if x == y && x
                        < i {
                        red
                    } else {
                        old(self).pixel(x, y)
                    }),
            decreases n - i,
        {
            let ghost before = *self;
            self.set(i, i, &red);
            proof {
                assert forall|x: int, y: int| old(self).contains(x, y) implies #[trigger] self.pixel(
                    x,
                    y,
                ) == (if x == y && x < i + 1 {
                    red
                } else {
                    old(self).pixel(x, y)
                }) by {
                    before.lemma_set(i as int, i as int, red, x, y);
                }
                before.lemma_set(i as int, i as int, red, i as int, i as int);
            }
            i = i + 1;
        }
    }

    /// A copy of the pixel bytes with red and blue exchanged in every pixel:
    /// blue, green, red, alpha.
    pub fn to_bgra(&self) -> (bgra: Vec<u8>)
        ensures
            bgra@.len() == self.bytes().len(),
            forall|i: int|
                0 <= i < bgra@.len() ==> #[trigger] bgra@[i] == self.bytes()[bgra_source(i)],
    {
        proof {
            use_type_invariant(self);
            self.lemma_layout(0, 0);
        }
        let n: usize = self.data.len();
        let mut bgra: Vec<u8> = Vec::with_capacity(n);
        let mut i: usize = 0;
        while i < n
            invariant
                n == self.data@.len(),
                n % 4 == 0,
                i % 4 == 0,
                i <= n,
                bgra@.len() == i,
                forall|j: int| 0 <= j < i ==> #[trigger] bgra@[j] == self.data@[bgra_source(j)],
            decreases n - i,
        {
            bgra.push(self.data[i + 2]);
            bgra.push(self.data[i + 1]);
            bgra.push(self.data[i]);
            bgra.push(self.data[i + 3]);
            i = i + 4;
        }
        bgra
    }

    /// An independently allocated copy of the pixel bytes, for handing to a
    /// consumer that takes ownership of the buffer.
    pub fn data_as_boxed_slice(&mut self) -> (copy: Box<[u8]>)
        ensures
            copy@ == old(self).bytes(),
            *final(self) == *old(self),
    {
        into_boxed_bytes(self.data.clone())
    }
}

} // verus!
