//! The rasterizer, as a machine that is driven from outside.
//!
//! Fetching the next triangle, reading the clock and shading a fragment
//! are done outside. Everything between is done here: whether a triangle
//! is drawn at all, which pixels are sampled and in what order, whether a
//! sample lies inside the triangle, what its depth is, whether that depth
//! is visible, what reaches the picture, and whether the picture gets its
//! size hint in the end. The machine names the action that it needs next;
//! the caller performs it and hands back the event that came of it.

use crate::aabb::{max3, min3, size_of, AABB};
use crate::caption::{draw_size_hint, with_size_hint, MARGIN};
use crate::fit::filled;
use crate::coverage::{
    covers, depth_at, is_covered, pixel_of, sample_point, screen_of, to_pixel, weigh, weights_at,
    weights_of, Point, Weights,
};
use crate::matrix::{matmul, transformed, Mat4};
use crate::mesh::{Triangle, Vec3};
use crate::picture::{lemma_plot, pixel_in, pixel_offset, plot, Picture, RGBA};
use crate::single::{less, less_than, maximum, minimum, MIN};
use crate::vector::{dot, dot3, normalize, normalized3, reverse, reversed};
use crate::zbuffer::{tested, visible, ZBuffer};
use vstd::prelude::*;

verus! {

/// What the machine needs next.
#[derive(Debug, Clone, Copy, PartialEq, Eq, Structural)]
pub enum Action {
    /// The next triangle, projected; or word that none is left, or that
    /// the time is up.
    Project,
    /// The colour of the current triangle at a pixel, where it has the
    /// given weights.
    Shade { x: u32, y: u32, weights: Weights },
    /// Nothing: every triangle is drawn and the picture is finished.
    Done,
    /// Nothing: the time was up, and the picture is left as far as it was
    /// drawn.
    Stopped,
}

/// What came of an action.
#[derive(Debug, Clone, Copy, PartialEq, Eq, Structural)]
pub enum Event {
    /// The time allowed for drawing is used up.
    TimedOut,
    /// No triangle is left.
    End,
    /// A triangle: its normal, and its three vertices on the screen, each
    /// with its depth.
    Triangle { normal: Vec3, v0: Vec3, v1: Vec3, v2: Vec3 },
    /// The colour at the pixel asked for.
    Colour { rgba: RGBA },
}

/// The state of a drawing: the picture, the depths, what is awaited, and
/// the triangle that is being drawn with its pixel rectangle.
pub struct Scene {
    pub bytes: Seq<u8>,
    pub cells: Seq<u32>,
    pub width: int,
    pub height: int,
    /// The direction to the eye, of length one.
    pub eye: Vec3,
    pub action: Action,
    pub v0: Vec3,
    pub v1: Vec3,
    pub v2: Vec3,
    pub first_x: int,
    pub last_x: int,
    pub last_y: int,
}

/// Whether a triangle with the given normal faces away from the eye: the
/// inner product of the direction to the eye and the reversed normal is
/// negative.
pub open spec fn faces_away(eye: Vec3, normal: Vec3) -> bool {
    less(dot3(eye, reversed(normal)), 0)
}

/// The smaller of two whole numbers.
pub open spec fn at_most_limit(v: int, limit: int) -> int {
    if v < limit {
        v
    } else {
        limit
    }
}

/// The first pixel, along an axis of `size` pixels, of the rectangle
/// around three screen coordinates.
pub open spec fn first_pixel(a: u32, b: u32, c: u32, size: int) -> int {
    to_pixel(min3(a, b, c), size) as int
}

/// The last pixel of the rectangle, which reaches at most one pixel past
/// the picture.
pub open spec fn last_pixel(a: u32, b: u32, c: u32, size: int) -> int {
    at_most_limit(to_pixel(max3(a, b, c), size) as int, size)
}

/// The depth of the current triangle at the pixel `(x, y)`, where the
/// triangle covers the pixel's sample point and is visible there.
pub open spec fn fragment(s: Scene, x: int, y: int) -> Option<u32> {
    let p = sample_point(x, y, s.width, s.height);
    let z = depth_at(s.v0, s.v1, s.v2, p);
    if covers(s.v0, s.v1, s.v2, p) && visible(s.cells, s.width, s.height, x, y, z) {
        Some(z)
    } else {
        None
    }
}

/// The scene once the pixels from `(x, y)` on are sampled, row by row, up
/// to the first at which the current triangle is visible: its depth is
/// stored and its colour awaited. Where no such pixel is left in the
/// rectangle the next triangle is awaited.
pub open spec fn scan(s: Scene, x: int, y: int) -> Scene
    decreases s.last_y - y, s.last_x - x,
    when s.first_x <= x <= s.last_x && y <= s.last_y
{
    match fragment(s, x, y) {
        Some(z) => Scene {
            cells: tested(s.cells, s.width, s.height, x, y, z),
            action: Action::Shade {
                x: x as u32,
                y: y as u32,
                weights: weights_at(s.v0, s.v1, s.v2, sample_point(x, y, s.width, s.height)),
            },
            ..s
        },
        None => if x < s.last_x {
            scan(s, x + 1, y)
        } else if y < s.last_y {
            scan(s, s.first_x, y + 1)
        } else {
            Scene { action: Action::Project, ..s }
        },
    }
}

/// The scene once the pixels after `(x, y)` are sampled.
pub open spec fn onward(s: Scene, x: int, y: int) -> Scene {
    if x < s.last_x {
        scan(s, x + 1, y)
    } else if y < s.last_y {
        scan(s, s.first_x, y + 1)
    } else {
        Scene { action: Action::Project, ..s }
    }
}

/// The scene with a new triangle and the pixel rectangle around it.
pub open spec fn with_triangle(s: Scene, v0: Vec3, v1: Vec3, v2: Vec3) -> Scene {
    Scene {
        v0,
        v1,
        v2,
        first_x: first_pixel(v0.x, v1.x, v2.x, s.width),
        last_x: last_pixel(v0.x, v1.x, v2.x, s.width),
        last_y: last_pixel(v0.y, v1.y, v2.y, s.height),
        ..s
    }
}

/// The scene with the awaited colour stored in the picture.
pub open spec fn painted(s: Scene, rgba: RGBA) -> Scene {
    match s.action {
        Action::Shade { x, y, weights } => Scene {
            bytes: plot(s.bytes, s.width, s.height, x as int, y as int, rgba),
            action: Action::Project,
            ..s
        },
        _ => s,
    }
}

/// The scene after an event. An event that does not answer the awaited
/// action changes nothing. A triangle that faces away changes nothing, and
/// neither does one whose rectangle holds no pixel.
pub open spec fn after(s: Scene, e: Event) -> Scene {
    match (s.action, e) {
        (Action::Project, Event::TimedOut) => Scene { action: Action::Stopped, ..s },
        (Action::Project, Event::End) => Scene { action: Action::Done, ..s },
        (Action::Project, Event::Triangle { normal, v0, v1, v2 }) => {
            let t = with_triangle(s, v0, v1, v2);
            let first_y = first_pixel(v0.y, v1.y, v2.y, s.height);
            if faces_away(s.eye, normal) || t.first_x > t.last_x || first_y > t.last_y {
                s
            } else {
                scan(t, t.first_x, first_y)
            }
        },
        (Action::Shade { x, y, weights }, Event::Colour { rgba }) => onward(painted(s, rgba), x as int, y as int),
        _ => s,
    }
}

/// The scene after a sequence of events.
pub open spec fn after_all(s: Scene, events: Seq<Event>) -> Scene
    decreases events.len(),
{
    if events.len() == 0 {
        s
    } else {
        after(after_all(s, events.drop_last()), events.last())
    }
}

/// What holds of every scene that a machine is in: the picture and the
/// depths have the lengths that the size gives, and where a pixel is to be
/// shaded, it lies in the rectangle of the triangle being drawn.
pub open spec fn consistent(s: Scene) -> bool {
    &&& s.bytes.len() == 4 * s.width * s.height
    &&& s.cells.len() == s.width * s.height
    &&& awaits_in_rectangle(s)
}

/// Where a pixel is to be shaded, it lies in the rectangle of the triangle
/// being drawn, which reaches at most one pixel past the picture.
pub open spec fn awaits_in_rectangle(s: Scene) -> bool {
    &&& 0 <= s.width <= u32::MAX
    &&& 0 <= s.height <= u32::MAX
    &&& match s.action {
        Action::Shade { x, y, weights } => 0 <= s.first_x <= x <= s.last_x <= s.width && y
            <= s.last_y <= s.height,
        _ => true,
    }
}

/// Sampling changes no pixel, and nothing of the triangle or of the size;
/// it leaves the scene consistent and awaiting a colour or a triangle.
pub proof fn lemma_scan(s: Scene, x: int, y: int)
    requires
        0 <= s.width <= u32::MAX,
        0 <= s.height <= u32::MAX,
        s.bytes.len() == 4 * s.width * s.height,
        s.cells.len() == s.width * s.height,
        0 <= s.first_x <= x <= s.last_x <= s.width,
        0 <= y <= s.last_y <= s.height,
    ensures
        consistent(scan(s, x, y)),
        scan(s, x, y).bytes == s.bytes,
        scan(s, x, y).width == s.width,
        scan(s, x, y).height == s.height,
        scan(s, x, y).eye == s.eye,
        scan(s, x, y).v0 == s.v0 && scan(s, x, y).v1 == s.v1 && scan(s, x, y).v2 == s.v2,
        scan(s, x, y).first_x == s.first_x && scan(s, x, y).last_x == s.last_x && scan(
            s,
            x,
            y,
        ).last_y == s.last_y,
        scan(s, x, y).action is Shade || scan(s, x, y).action is Project,
        scan(s, x, y).action is Project ==> scan(s, x, y).cells == s.cells,
    decreases s.last_y - y, s.last_x - x,
{
    match fragment(s, x, y) {
        Some(z) => {
            assert(0 <= y * s.width + x && y * s.width + x + 1 <= s.width * s.height)
                by (nonlinear_arith)
                requires
                    0 <= x < s.width,
                    0 <= y < s.height,
            ;
        },
        None => {
            if x < s.last_x {
                lemma_scan(s, x + 1, y);
            } else if y < s.last_y {
                lemma_scan(s, s.first_x, y + 1);
            }
        },
    }
}

/// No event changes the size of the picture, and the scene afterwards is
/// again consistent.
pub proof fn lemma_after_keeps_shape(s: Scene, e: Event)
    requires
        consistent(s),
    ensures
        consistent(after(s, e)),
        after(s, e).width == s.width,
        after(s, e).height == s.height,
        after(s, e).bytes.len() == s.bytes.len(),
        after(s, e).cells.len() == s.cells.len(),
{
    match (s.action, e) {
        (Action::Project, Event::Triangle { normal, v0, v1, v2 }) => {
            let t = with_triangle(s, v0, v1, v2);
            let first_y = first_pixel(v0.y, v1.y, v2.y, s.height);
            if !(faces_away(s.eye, normal) || t.first_x > t.last_x || first_y > t.last_y) {
                lemma_scan(t, t.first_x, first_y);
            }
        },
        (Action::Shade { x, y, weights }, Event::Colour { rgba }) => {
            if 0 <= x < s.width && 0 <= y < s.height {
                lemma_plot(s.bytes, s.width, s.height, x as int, y as int, rgba, x as int, y as int);
            }
            let p = painted(s, rgba);
            if x < s.last_x {
                lemma_scan(p, x + 1, y as int);
            } else if y < s.last_y {
                lemma_scan(p, s.first_x, y + 1);
            }
        },
        _ => {},
    }
}

/// A scene in which no triangle arrives keeps the picture it began with.
pub proof fn lemma_no_triangle_no_change(s: Scene)
    requires
        s.action == Action::Project,
    ensures
        after(s, Event::End).bytes == s.bytes,
        after(s, Event::End).action == Action::Done,
{
}

/// A triangle that faces away from the eye changes nothing: no pixel is
/// sampled for it, and the picture and the depths stay as they are.
pub proof fn lemma_back_face_changes_nothing(s: Scene, normal: Vec3, v0: Vec3, v1: Vec3, v2: Vec3)
    requires
        s.action == Action::Project,
        faces_away(s.eye, normal),
    ensures
        after(s, Event::Triangle { normal, v0, v1, v2 }) == s,
{
}

/// When the time is up the drawing ends at once, with the picture as far
/// as it has come: the bytes are untouched by the event and the picture
/// keeps its size.
pub proof fn lemma_timeout_ends_drawing(s: Scene)
    requires
        s.action == Action::Project,
    ensures
        after(s, Event::TimedOut).action == Action::Stopped,
        after(s, Event::TimedOut).bytes == s.bytes,
        after(s, Event::TimedOut).cells == s.cells,
{
}

/// Once the drawing has ended no event changes the scene.
pub proof fn lemma_done_is_final(s: Scene, events: Seq<Event>)
    requires
        s.action == Action::Done || s.action == Action::Stopped,
    ensures
        after_all(s, events) == s,
    decreases events.len(),
{
    if events.len() > 0 {
        lemma_done_is_final(s, events.drop_last());
    }
}

/// Only a colour changes the picture, and only at the pixel that was to be
/// shaded.
pub proof fn lemma_what_changes(s: Scene, e: Event)
    requires
        consistent(s),
    ensures
        !(e is Colour) ==> after(s, e).bytes == s.bytes,
        after(s, e).bytes != s.bytes ==> s.action is Shade,
        s.action matches Action::Shade { x, y, weights } ==> e matches Event::Colour { rgba }
            ==> after(s, e).bytes == plot(s.bytes, s.width, s.height, x as int, y as int, rgba),
{
    match (s.action, e) {
        (Action::Project, Event::Triangle { normal, v0, v1, v2 }) => {
            let t = with_triangle(s, v0, v1, v2);
            let first_y = first_pixel(v0.y, v1.y, v2.y, s.height);
            if !(faces_away(s.eye, normal) || t.first_x > t.last_x || first_y > t.last_y) {
                lemma_scan(t, t.first_x, first_y);
            }
        },
        (Action::Shade { x, y, weights }, Event::Colour { rgba }) => {
            if 0 <= x < s.width && 0 <= y < s.height {
                lemma_plot(s.bytes, s.width, s.height, x as int, y as int, rgba, x as int, y as int);
            }
            let p = painted(s, rgba);
            if x < s.last_x {
                lemma_scan(p, x + 1, y as int);
            } else if y < s.last_y {
                lemma_scan(p, s.first_x, y + 1);
            }
        },
        _ => {},
    }
}

/// Whether two scenes show the same picture and hold the same depths, and
/// await the same action; while a triangle is being drawn, also whether
/// the triangle and its rectangle are the same.
pub open spec fn alike(a: Scene, b: Scene) -> bool {
    &&& a.bytes == b.bytes
    &&& a.cells == b.cells
    &&& a.width == b.width
    &&& a.height == b.height
    &&& a.eye == b.eye
    &&& a.action == b.action
    &&& (a.action is Project || a.action is Done || a.action is Stopped || (a.v0 == b.v0 && a.v1 == b.v1 && a.v2 == b.v2
        && a.first_x == b.first_x && a.last_x == b.last_x && a.last_y == b.last_y))
}

/// The picture is determined by the picture that the drawing began with,
/// the depths, and the events: scenes that are alike stay alike under the
/// same events.
pub proof fn lemma_picture_is_determined(a: Scene, b: Scene, events: Seq<Event>)
    requires
        alike(a, b),
        consistent(a),
        consistent(b),
    ensures
        alike(after_all(a, events), after_all(b, events)),
        consistent(after_all(a, events)),
        consistent(after_all(b, events)),
        after_all(a, events).bytes == after_all(b, events).bytes,
    decreases events.len(),
{
    if events.len() > 0 {
        lemma_picture_is_determined(a, b, events.drop_last());
        let a1 = after_all(a, events.drop_last());
        let b1 = after_all(b, events.drop_last());
        let e = events.last();
        lemma_after_keeps_shape(a1, e);
        lemma_after_keeps_shape(b1, e);
        match (a1.action, e) {
            (Action::Project, Event::Triangle { normal, v0, v1, v2 }) => {
                let ta = with_triangle(a1, v0, v1, v2);
                let tb = with_triangle(b1, v0, v1, v2);
                let first_y = first_pixel(v0.y, v1.y, v2.y, a1.height);
                if !(faces_away(a1.eye, normal) || ta.first_x > ta.last_x || first_y > ta.last_y) {
                    assert(ta == tb);
                    lemma_scan(ta, ta.first_x, first_y);
                }
            },
            (Action::Shade { x, y, weights }, Event::Colour { rgba }) => {
                let pa = painted(a1, rgba);
                let pb = painted(b1, rgba);
                assert(pa == pb);
                if 0 <= x < a1.width && 0 <= y < a1.height {
                    lemma_plot(
                        a1.bytes,
                        a1.width,
                        a1.height,
                        x as int,
                        y as int,
                        rgba,
                        x as int,
                        y as int,
                    );
                }
                if x < a1.last_x {
                    lemma_scan(pa, x + 1, y as int);
                } else if y < a1.last_y {
                    lemma_scan(pa, a1.first_x, y + 1);
                }
            },
            _ => {},
        }
    }
}

/// The picture and the depths after a fragment of depth `z` and colour `c`
/// was offered at the pixel `(x, y)`: where it is visible the pixel takes
/// its colour and the buffer its depth.
pub open spec fn with_fragment(
    drawn: (Seq<u8>, Seq<u32>),
    width: int,
    height: int,
    x: int,
    y: int,
    z: u32,
    c: RGBA,
) -> (Seq<u8>, Seq<u32>) {
    if visible(drawn.1, width, height, x, y, z) {
        (plot(drawn.0, width, height, x, y, c), tested(drawn.1, width, height, x, y, z))
    } else {
        drawn
    }
}

/// Of two fragments of different depths at one pixel, the one of greater
/// depth gives the pixel its colour and the buffer its depth, whichever of
/// the two is offered first, provided that it is visible against what the
/// buffer held before.
pub proof fn lemma_greater_depth_survives(
    bytes: Seq<u8>,
    cells: Seq<u32>,
    width: int,
    height: int,
    x: int,
    y: int,
    far: u32,
    far_colour: RGBA,
    near: u32,
    near_colour: RGBA,
)
    requires
        bytes.len() == 4 * width * height,
        cells.len() == width * height,
        0 <= x < width,
        0 <= y < height,
        less(far, near),
        less(cells[y * width + x], near),
    ensures
        ({
            let end = with_fragment(
                with_fragment((bytes, cells), width, height, x, y, far, far_colour),
                width,
                height,
                x,
                y,
                near,
                near_colour,
            );
            end.1[y * width + x] == near && pixel_in(end.0, pixel_offset(width, x, y))
                == near_colour
        }),
        ({
            let end = with_fragment(
                with_fragment((bytes, cells), width, height, x, y, near, near_colour),
                width,
                height,
                x,
                y,
                far,
                far_colour,
            );
            end.1[y * width + x] == near && pixel_in(end.0, pixel_offset(width, x, y))
                == near_colour
        }),
{
    let w = width;
    let h = height;
    assert(0 <= y * w + x && y * w + x + 1 <= w * h) by (nonlinear_arith)
        requires
            0 <= x < w,
            0 <= y < h,
    ;
    let first = with_fragment((bytes, cells), w, h, x, y, far, far_colour);
    lemma_plot(bytes, w, h, x, y, far_colour, x, y);
    lemma_plot(bytes, w, h, x, y, near_colour, x, y);
    lemma_plot(first.0, w, h, x, y, near_colour, x, y);
}

/// What the machine does with a fragment is what [`with_fragment`] says:
/// while a colour is awaited for a pixel, the fragment's depth is stored
/// there, and the colour that arrives is stored in the picture.
pub proof fn lemma_fragment_is_drawn(s: Scene, x: int, y: int, rgba: RGBA)
    requires
        consistent(s),
        s.first_x <= x <= s.last_x,
        0 <= y <= s.last_y,
        0 <= s.first_x,
        s.last_x <= s.width,
        s.last_y <= s.height,
        fragment(s, x, y) is Some,
    ensures
        scan(s, x, y).action is Shade,
        (after(scan(s, x, y), Event::Colour { rgba }).bytes, scan(s, x, y).cells) == with_fragment(
            (s.bytes, s.cells),
            s.width,
            s.height,
            x,
            y,
            fragment(s, x, y).unwrap(),
            rgba,
        ),
{
    let t = scan(s, x, y);
    lemma_scan(s, x, y);
    lemma_what_changes(t, Event::Colour { rgba });
}

/// The picture that a drawing is closed with: the picture of the scene,
/// and on it the size hint for a model in the box `hint` where one is
/// given and every triangle was drawn.
pub open spec fn closed_picture(s: Scene, hint: Option<&AABB>) -> Seq<u8> {
    match hint {
        Some(aabb) if s.action == Action::Done => with_size_hint(
            s.bytes,
            s.width,
            s.height,
            size_of(*aabb),
        ),
        _ => s.bytes,
    }
}

/// A drawing that the time-out stopped is closed without a size hint,
/// whatever was asked for: the picture is the one that was drawn so far.
pub proof fn lemma_stopped_has_no_hint(s: Scene, hint: Option<&AABB>)
    requires
        s.action == Action::Project,
    ensures
        closed_picture(after(s, Event::TimedOut), hint) == s.bytes,
{
}

/// A drawing without triangles shows the background and nothing else:
/// begun on a picture filled with one colour, and closed without a size
/// hint when no triangle has arrived, it is that picture.
pub proof fn lemma_empty_drawing_is_background(s: Scene, background: RGBA)
    requires
        s.action == Action::Project,
        s.bytes == filled(s.width, s.height, background),
    ensures
        closed_picture(after(s, Event::End), None) == filled(s.width, s.height, background),
{
}

/// The machine.
#[derive(Debug)]
pub struct Rasterizer {
    pic: Picture,
    zbuf: ZBuffer,
    eye: Vec3,
    action: Action,
    v0: Vec3,
    v1: Vec3,
    v2: Vec3,
    first_x: u32,
    last_x: u32,
    last_y: u32,
}

impl View for Rasterizer {
    type V = Scene;

    closed spec fn view(&self) -> Scene {
        Scene {
            bytes: self.pic.bytes(),
            cells: self.zbuf.cells(),
            width: self.pic.spec_width() as int,
            height: self.pic.spec_height() as int,
            eye: self.eye,
            action: self.action,
            v0: self.v0,
            v1: self.v1,
            v2: self.v2,
            first_x: self.first_x as int,
            last_x: self.last_x as int,
            last_y: self.last_y as int,
        }
    }
}

impl Rasterizer {
    #[verifier::type_invariant]
    pub closed spec fn wf(&self) -> bool {
        &&& self.pic.wf()
        &&& self.zbuf.wf()
        &&& self.zbuf.spec_width() == self.pic.spec_width()
        &&& self.zbuf.spec_height() == self.pic.spec_height()
        &&& awaits_in_rectangle(self@)
    }

    /// The scene of a machine is consistent.
    pub proof fn lemma_consistent(&self)
        requires
            self.wf(),
        ensures
            consistent(self@),
    {
        self.pic.lemma_layout(0, 0);
        self.zbuf.lemma_layout(0, 0);
    }

    /// A machine that draws onto `pic` what is seen from `view_pos`, with
    /// depths in which nothing is drawn yet. It awaits the first triangle.
    pub fn new(pic: Picture, view_pos: &Vec3) -> (r: Self)
        ensures
            r.wf(),
            consistent(r@),
            r@.eye == normalized3(*view_pos),
            r@.bytes == pic.bytes(),
            r@.width == pic.spec_width(),
            r@.height == pic.spec_height(),
            r@.action == Action::Project,
            r@.cells.len() == pic.spec_width() * pic.spec_height(),
            forall|i: int| 0 <= i < r@.cells.len() ==> #[trigger] r@.cells[i] == MIN,
    {
        proof {
            use_type_invariant(&pic);
            pic.lemma_layout(0, 0);
        }
        let w = pic.width();
        let h = pic.height();
        assert(w * h <= u32::MAX) by (nonlinear_arith)
            requires
                4 * w * h <= u32::MAX,
                0 <= w,
                0 <= h,
        ;
        let zbuf = ZBuffer::new(w, h);
        let origin = Vec3 { x: 0, y: 0, z: 0 };
        let r = Rasterizer {
            pic,
            zbuf,
            eye: normalize(view_pos),
            action: Action::Project,
            v0: origin,
            v1: origin,
            v2: origin,
            first_x: 0,
            last_x: 0,
            last_y: 0,
        };
        proof {
            r.lemma_consistent();
        }
        r
    }

    /// What the machine needs next.
    pub fn action(&self) -> (a: Action)
        ensures
            a == self@.action,
    {
        self.action
    }

    /// The picture as far as it is drawn.
    pub fn picture(&self) -> (pic: &Picture)
        ensures
            pic.bytes() == self@.bytes,
            pic.spec_width() == self@.width,
            pic.spec_height() == self@.height,
            pic.wf(),
    {
        proof {
            use_type_invariant(self);
        }
        &self.pic
    }

    /// Ends the drawing and hands out the picture.
    pub fn into_picture(self) -> (pic: Picture)
        ensures
            pic.bytes() == self@.bytes,
            pic.spec_width() == self@.width,
            pic.spec_height() == self@.height,
            pic.wf(),
    {
        proof {
            use_type_invariant(&self);
        }
        self.pic
    }

    /// Ends the drawing and hands out the picture, with the size hint for
    /// a model in the box `hint` where one is given and every triangle was
    /// drawn. A drawing that was stopped, or that still awaits something,
    /// gets no size hint.
    pub fn finish(self, hint: Option<&AABB>) -> (pic: Picture)
        requires
            hint is Some && self@.action == Action::Done ==> self@.height >= MARGIN,
        ensures
            pic.wf(),
            pic.spec_width() == self@.width,
            pic.spec_height() == self@.height,
            pic.bytes() == closed_picture(self@, hint),
    {
        proof {
            use_type_invariant(&self);
        }
        let complete = match self.action {
            Action::Done => true,
            _ => false,
        };
        let mut pic = self.pic;
        match hint {
            Some(aabb) => {
                if complete {
                    draw_size_hint(&mut pic, aabb);
                }
            },
            None => {},
        }
        pic
    }

    /// Samples the pixels from `(x, y)` on, up to the first at which the
    /// current triangle is visible.
    fn scan_from(&mut self, x: u32, y: u32)
        requires
            old(self).wf(),
            old(self).first_x <= x <= old(self).last_x <= old(self)@.width,
            y <= old(self).last_y <= old(self)@.height,
            !(old(self)@.action is Shade),
        ensures
            final(self).wf(),
            final(self)@ == scan(old(self)@, x as int, y as int),
    {
        let width = self.pic.width();
        let height = self.pic.height();
        let mut x: u32 = x;
        let mut y: u32 = y;
        let ghost start = self@;
        let ghost x0 = x as int;
        let ghost y0 = y as int;
        loop
            invariant_except_break
                self@ == start,
                self.first_x <= x <= self.last_x <= width,
                y <= self.last_y <= height,
                scan(start, x0, y0) == scan(start, x as int, y as int),
            invariant
                self.wf(),
                width == start.width,
                height == start.height,
            ensures
                self.wf(),
                self@ == scan(start, x0, y0),
            decreases self.last_y - y, self.last_x - x,
        {
            let p = Point { x: screen_of(x, width), y: screen_of(y, height) };
            if is_covered(&self.v0, &self.v1, &self.v2, &p) {
                let weights = weights_of(&self.v0, &self.v1, &self.v2, &p);
                let z = weigh(&weights, self.v0.z, self.v1.z, self.v2.z);
                let ghost before = self@;
                if self.zbuf.test_and_set(x, y, z) {
                    self.action = Action::Shade { x, y, weights };
                    break ;
                }
            }
            if x < self.last_x {
                x = x + 1;
            } else if y < self.last_y {
                x = self.first_x;
                y = y + 1;
            } else {
                self.action = Action::Project;
                break ;
            }
        }
    }

    /// Samples the pixels after `(x, y)`.
    fn scan_onward(&mut self, x: u32, y: u32)
        requires
            old(self).wf(),
            old(self).first_x <= x <= old(self).last_x <= old(self)@.width,
            y <= old(self).last_y <= old(self)@.height,
            !(old(self)@.action is Shade),
        ensures
            final(self).wf(),
            final(self)@ == onward(old(self)@, x as int, y as int),
    {
        if x < self.last_x {
            self.scan_from(x + 1, y);
        } else if y < self.last_y {
            self.scan_from(self.first_x, y + 1);
        } else {
            self.action = Action::Project;
        }
    }

    /// Takes in the event that came of the awaited action and tells what
    /// is needed next.
    pub fn step(&mut self, event: Event) -> (next: Action)
        ensures
            final(self).wf(),
            consistent(final(self)@),
            final(self)@ == after(old(self)@, event),
            next == final(self)@.action,
    {
        proof {
            use_type_invariant(&*self);
            self.lemma_consistent();
            lemma_after_keeps_shape(self@, event);
        }
        match (self.action, event) {
            (Action::Project, Event::TimedOut) => {
                self.action = Action::Stopped;
            },
            (Action::Project, Event::End) => {
                self.action = Action::Done;
            },
            (Action::Project, Event::Triangle { normal, v0, v1, v2 }) => {
                let w = self.pic.width();
                let h = self.pic.height();
                let first_x = pixel_of(minimum(minimum(v0.x, v1.x), v2.x), w);
                let first_y = pixel_of(minimum(minimum(v0.y, v1.y), v2.y), h);
                let max_x = pixel_of(maximum(maximum(v0.x, v1.x), v2.x), w);
                let max_y = pixel_of(maximum(maximum(v0.y, v1.y), v2.y), h);
                let last_x = if max_x < w {
                    max_x
                } else {
                    w
                };
                let last_y = if max_y < h {
                    max_y
                } else {
                    h
                };
                let facing = dot(&self.eye, &reverse(&normal));
                if !(less_than(facing, 0) || first_x > last_x || first_y > last_y) {
                    self.v0 = v0;
                    self.v1 = v1;
                    self.v2 = v2;
                    self.first_x = first_x;
                    self.last_x = last_x;
                    self.last_y = last_y;
                    self.scan_from(first_x, first_y);
                }
            },
            (Action::Shade { x, y, weights }, Event::Colour { rgba }) => {
                self.pic.set(x, y, &rgba);
                self.action = Action::Project;
                self.scan_onward(x, y);
            },
            _ => {},
        }
        self.action
    }
}

/// The event that tells of a triangle: its normal as it stands, and its
/// vertices brought to the screen by the transformation `mvp`.
pub open spec fn projected(mvp: Mat4, t: Triangle) -> Event {
    Event::Triangle {
        normal: t.normal,
        v0: transformed(mvp, t.vertices[0]),
        v1: transformed(mvp, t.vertices[1]),
        v2: transformed(mvp, t.vertices[2]),
    }
}

/// Brings a triangle to the screen.
pub fn project(mvp: &Mat4, t: &Triangle) -> (event: Event)
    ensures
        event == projected(*mvp, *t),
{
    Event::Triangle {
        normal: t.normal,
        v0: matmul(mvp, &t.vertices[0]),
        v1: matmul(mvp, &t.vertices[1]),
        v2: matmul(mvp, &t.vertices[2]),
    }
}

} // verus!
