//! The built-in stroke font: the digits and the letters `x` and `m`, each a
//! fixed list of straight strokes on a unit square.
//!
//! Coordinates are counted in halves of the square's side, so 0, 1 and 2
//! stand for the near edge, the middle and the far edge. The y axis points
//! down.

use vstd::prelude::*;

verus! {

/// One stroke of a glyph, from `(x0, y0)` to `(x1, y1)`, in halves of the
/// unit square.
#[derive(Debug, Clone, Copy, PartialEq, Eq, Structural)]
pub struct Stroke {
    pub x0: u8,
    pub y0: u8,
    pub x1: u8,
    pub y1: u8,
}

/// A stroke between two corners or mid-points of the unit square.
pub open spec fn stroke(x0: u8, y0: u8, x1: u8, y1: u8) -> Stroke {
    Stroke { x0, y0, x1, y1 }
}

/// The strokes of the glyph for `c`, in the order drawn; none for a
/// character that the font lacks.
pub open spec fn strokes_of(c: char) -> Seq<Stroke> {
    if c == '0' {
        seq![stroke(0, 0, 2, 0), stroke(2, 0, 2, 2), stroke(2, 2, 0, 2), stroke(0, 2, 0, 0)]
    } else if c == '1' {
        seq![stroke(2, 0, 2, 2)]
    } else if c == '2' {
        seq![
            stroke(0, 0, 2, 0),
            stroke(2, 0, 2, 1),
            stroke(2, 1, 0, 1),
            stroke(0, 1, 0, 2),
            stroke(0, 2, 2, 2),
        ]
    } else if c == '3' {
        seq![stroke(0, 0, 2, 0), stroke(2, 0, 2, 2), stroke(2, 2, 0, 2), stroke(2, 1, 0, 1)]
    } else if c == '4' {
        seq![stroke(0, 0, 0, 1), stroke(0, 1, 2, 1), stroke(2, 0, 2, 2)]
    } else if c == '5' {
        seq![
            stroke(0, 2, 2, 2),
            stroke(2, 2, 2, 1),
            stroke(2, 1, 0, 1),
            stroke(0, 1, 0, 0),
            stroke(0, 0, 2, 0),
        ]
    } else if c == '6' {
        seq![
            stroke(0, 0, 2, 0),
            stroke(0, 0, 0, 2),
            stroke(0, 2, 2, 2),
            stroke(2, 2, 2, 1),
            stroke(2, 1, 0, 1),
        ]
    } else if c == '7' {
        seq![stroke(0, 0, 2, 0), stroke(2, 0, 2, 2)]
    } else if c == '8' {
        seq![
            stroke(0, 0, 2, 0),
            stroke(2, 0, 2, 2),
            stroke(2, 2, 0, 2),
            stroke(0, 2, 0, 0),
            stroke(0, 1, 2, 1),
        ]
    } else if c == '9' {
        seq![
            stroke(0, 0, 2, 0),
            stroke(2, 0, 2, 2),
            stroke(2, 2, 0, 2),
            stroke(0, 0, 0, 1),
            stroke(0, 1, 2, 1),
        ]
    } else if c == 'x' {
        seq![stroke(0, 0, 2, 2), stroke(2, 0, 0, 2)]
    } else if c == 'm' {
        seq![stroke(0, 1, 2, 1), stroke(0, 1, 0, 2), stroke(1, 1, 1, 2), stroke(2, 1, 2, 2)]
    } else {
        Seq::empty()
    }
}

/// Every stroke of every glyph joins points of the unit square.
pub proof fn lemma_strokes_in_square(c: char, i: int)
    requires
        0 <= i < strokes_of(c).len(),
    ensures
        strokes_of(c)[i].x0 <= 2,
        strokes_of(c)[i].y0 <= 2,
        strokes_of(c)[i].x1 <= 2,
        strokes_of(c)[i].y1 <= 2,
{
}

fn make(x0: u8, y0: u8, x1: u8, y1: u8) -> (s: Stroke)
    ensures
        s == stroke(x0, y0, x1, y1),
{
    Stroke { x0, y0, x1, y1 }
}

/// The strokes of the glyph for `c`.
pub fn glyph(c: char) -> (strokes: Vec<Stroke>)
    ensures
        strokes@ == strokes_of(c),
{
    let strokes = if c == '0' {
        vec![make(0, 0, 2, 0), make(2, 0, 2, 2), make(2, 2, 0, 2), make(0, 2, 0, 0)]
    } else if c == '1' {
        vec![make(2, 0, 2, 2)]
    } else if c == '2' {
        vec![
            make(0, 0, 2, 0),
            make(2, 0, 2, 1),
            make(2, 1, 0, 1),
            make(0, 1, 0, 2),
            make(0, 2, 2, 2),
        ]
    } else if c == '3' {
        vec![make(0, 0, 2, 0), make(2, 0, 2, 2), make(2, 2, 0, 2), make(2, 1, 0, 1)]
    } else if c == '4' {
        vec![make(0, 0, 0, 1), make(0, 1, 2, 1), make(2, 0, 2, 2)]
    } else if c == '5' {
        vec![
            make(0, 2, 2, 2),
            make(2, 2, 2, 1),
            make(2, 1, 0, 1),
            make(0, 1, 0, 0),
            make(0, 0, 2, 0),
        ]
    } else if c == '6' {
        vec![
            make(0, 0, 2, 0),
            make(0, 0, 0, 2),
            make(0, 2, 2, 2),
            make(2, 2, 2, 1),
            make(2, 1, 0, 1),
        ]
    } else if c == '7' {
        vec![make(0, 0, 2, 0), make(2, 0, 2, 2)]
    } else if c == '8' {
        vec![
            make(0, 0, 2, 0),
            make(2, 0, 2, 2),
            make(2, 2, 0, 2),
            make(0, 2, 0, 0),
            make(0, 1, 2, 1),
        ]
    } else if c == '9' {
        vec![
            make(0, 0, 2, 0),
            make(2, 0, 2, 2),
            make(2, 2, 0, 2),
            make(0, 0, 0, 1),
            make(0, 1, 2, 1),
        ]
    } else if c == 'x' {
        vec![make(0, 0, 2, 2), make(2, 0, 0, 2)]
    } else if c == 'm' {
        vec![make(0, 1, 2, 1), make(0, 1, 0, 2), make(1, 1, 1, 2), make(2, 1, 2, 2)]
    } else {
        Vec::new()
    };
    proof {
        assert(strokes@ =~= strokes_of(c));
    }
    strokes
}

} // verus!
