//! Reads triangles from STL data in either encoding.
//!
//! The encoding is detected once, when the parser is made. Triangles are
//! then pulled one at a time from a cursor that can be sent back to the
//! first triangle. A binary record holds a triangle's twelve values; a text
//! block holds them as decimal numbers, each of which is read as the value
//! nearest to it.

use crate::ascii::{
    facet_word, find_line_end, is_solid_line, is_text, lemma_skips, line_end, line_numbers,
    read_numbers, solid_line, vertex_word, Keyword,
};
use crate::decimal::{number_value, value_of};
use crate::binary::{
    declared_count, detect_binary, is_binary, read_record, record_at, u32_at, HEADER_SIZE,
    RECORDS_START, TRIANGLE_SIZE,
};
use crate::mesh::{Mesh, Triangle, TriangleSource, Vec3};
use crate::single::{is_nan, is_zero, nan, zero};
use crate::vector::{face_normal, normal_of};
use vstd::prelude::*;
use vstd::slice::slice_subrange;
use vstd::utf8::valid_utf8;

verus! {

/// The two encodings of the format.
#[derive(Debug, Clone, Copy, PartialEq, Eq, Structural)]
pub enum StlType {
    Binary,
    Ascii,
}

/// Why data cannot be opened.
#[derive(Debug, Clone, Copy, PartialEq, Eq, Structural)]
pub enum StlError {
    /// The data ends before the triangle count, which occupies the four
    /// bytes after the 80-byte header.
    Truncated,
}

/// The vector that the texts of three numbers stand for.
pub open spec fn vector_of(texts: (Seq<u8>, Seq<u8>, Seq<u8>)) -> Vec3 {
    Vec3 { x: number_value(texts.0), y: number_value(texts.1), z: number_value(texts.2) }
}

/// The outcome of one pull: the triangle read, if any, and where the cursor
/// stands afterwards.
pub struct Pull {
    pub facet: Option<Triangle>,
    pub next: int,
}

/// A pull from binary data at `pos`: the record there, if a whole record is
/// left; otherwise nothing, and the cursor goes to the end.
pub open spec fn binary_pull(data: Seq<u8>, pos: int) -> Pull {
    if pos + TRIANGLE_SIZE <= data.len() {
        Pull {
            facet: Some(record_at(data, pos)),
            next: pos + TRIANGLE_SIZE,
        }
    } else {
        Pull { facet: None, next: data.len() as int }
    }
}

/// The line of `data` that starts at `pos`, with its line feed.
pub open spec fn line_at(data: Seq<u8>, pos: int) -> Seq<u8> {
    data.subrange(pos, line_end(data, pos))
}

/// A pull from text data at `pos`. Seven lines make a triangle: a facet
/// line, any line of text, three vertex lines, and two more lines of text.
/// The pull reads them in turn and stops behind the first line that does
/// not fit, yielding nothing.
#[verifier::opaque]
pub open spec fn ascii_pull(data: Seq<u8>, pos: int) -> Pull {
    let p1 = line_end(data, pos);
    let p2 = line_end(data, p1);
    let p3 = line_end(data, p2);
    let p4 = line_end(data, p3);
    let p5 = line_end(data, p4);
    let p6 = line_end(data, p5);
    let p7 = line_end(data, p6);
    let normal = line_numbers(line_at(data, pos), facet_word());
    let v0 = line_numbers(line_at(data, p2), vertex_word());
    let v1 = line_numbers(line_at(data, p3), vertex_word());
    let v2 = line_numbers(line_at(data, p4), vertex_word());
    if normal.is_none() {
        Pull { facet: None, next: p1 }
    } else if !valid_utf8(line_at(data, p1)) {
        Pull { facet: None, next: p2 }
    } else if v0.is_none() {
        Pull { facet: None, next: p3 }
    } else if v1.is_none() {
        Pull { facet: None, next: p4 }
    } else if v2.is_none() {
        Pull { facet: None, next: p5 }
    } else if !valid_utf8(line_at(data, p5)) {
        Pull { facet: None, next: p6 }
    } else if !valid_utf8(line_at(data, p6)) {
        Pull { facet: None, next: p7 }
    } else {
        Pull {
            facet: Some(
                Triangle {
                    vertices: [
                        vector_of(v0.unwrap()),
                        vector_of(v1.unwrap()),
                        vector_of(v2.unwrap()),
                    ],
                    normal: vector_of(normal.unwrap()),
                },
            ),
            next: p7,
        }
    }
}

/// A pull at `pos` from data of the given encoding.
pub open spec fn pull(data: Seq<u8>, kind: StlType, pos: int) -> Pull {
    match kind {
        StlType::Binary => binary_pull(data, pos),
        StlType::Ascii => ascii_pull(data, pos),
    }
}

/// A pull stays inside the data, and one that yields a triangle moves the
/// cursor forward.
pub proof fn lemma_pull(data: Seq<u8>, kind: StlType, pos: int)
    requires
        0 <= pos <= data.len(),
    ensures
        pos <= pull(data, kind, pos).next <= data.len(),
        pull(data, kind, pos).facet.is_some() ==> pos < pull(data, kind, pos).next,
{
    match kind {
        StlType::Binary => {},
        StlType::Ascii => {
            reveal(ascii_pull);
            let p1 = line_end(data, pos);
            lemma_skips(data, pos);
            let p2 = line_end(data, p1);
            lemma_skips(data, p1);
            let p3 = line_end(data, p2);
            lemma_skips(data, p2);
            let p4 = line_end(data, p3);
            lemma_skips(data, p3);
            let p5 = line_end(data, p4);
            lemma_skips(data, p4);
            let p6 = line_end(data, p5);
            lemma_skips(data, p5);
            lemma_skips(data, p6);
            if pos == data.len() {
                // an empty line holds no keyword
                assert(line_at(data, pos).len() == 0);
                crate::ascii::lemma_empty_line(line_at(data, pos), facet_word());
            }
        },
    }
}

/// The triangles that pulling from `pos` yields until a pull yields none.
pub open spec fn facets_from(data: Seq<u8>, kind: StlType, pos: int) -> Seq<Triangle>
    decreases data.len() - pos,
    when 0 <= pos <= data.len()
    via facets_from_decreases
{
    let step = pull(data, kind, pos);
    match step.facet {
        None => Seq::empty(),
        Some(f) => seq![f] + facets_from(data, kind, step.next),
    }
}

#[via_fn]
proof fn facets_from_decreases(data: Seq<u8>, kind: StlType, pos: int) {
    lemma_pull(data, kind, pos);
}

/// Where the cursor stands after pulling from `pos` until a pull yields
/// nothing.
pub open spec fn drained_from(data: Seq<u8>, kind: StlType, pos: int) -> int
    decreases data.len() - pos,
    when 0 <= pos <= data.len()
    via drained_from_decreases
{
    let step = pull(data, kind, pos);
    match step.facet {
        None => step.next,
        Some(_) => drained_from(data, kind, step.next),
    }
}

#[via_fn]
proof fn drained_from_decreases(data: Seq<u8>, kind: StlType, pos: int) {
    lemma_pull(data, kind, pos);
}

/// How the triangles and the final cursor from `pos` on follow from one
/// pull.
pub proof fn lemma_facets_step(data: Seq<u8>, kind: StlType, pos: int)
    requires
        0 <= pos <= data.len(),
    ensures
        pos <= pull(data, kind, pos).next <= data.len(),
        match pull(data, kind, pos).facet {
            None => facets_from(data, kind, pos) == Seq::<Triangle>::empty() && drained_from(
                data,
                kind,
                pos,
            ) == pull(data, kind, pos).next,
            Some(f) => pos < pull(data, kind, pos).next && facets_from(data, kind, pos) == seq![f]
                + facets_from(data, kind, pull(data, kind, pos).next) && drained_from(
                data,
                kind,
                pos,
            ) == drained_from(data, kind, pull(data, kind, pos).next),
        },
{
    lemma_pull(data, kind, pos);
}

/// A binary file holds as many triangles as it declares, one per record,
/// and reading them all ends at the end of the data.
pub proof fn lemma_binary_facets(data: Seq<u8>, k: int)
    requires
        is_binary(data),
        0 <= k <= declared_count(data),
    ensures
        facets_from(data, StlType::Binary, RECORDS_START + TRIANGLE_SIZE * k).len()
            == declared_count(data) - k,
        forall|i: int|
            0 <= i < declared_count(data) - k ==> #[trigger] facets_from(
                data,
                StlType::Binary,
                RECORDS_START + TRIANGLE_SIZE * k,
            )[i] == record_at(data, RECORDS_START + TRIANGLE_SIZE * (k + i)),
        drained_from(data, StlType::Binary, RECORDS_START + TRIANGLE_SIZE * k) == data.len(),
    decreases declared_count(data) - k,
{
    let pos = RECORDS_START + TRIANGLE_SIZE * k;
    if k < declared_count(data) {
        lemma_binary_facets(data, k + 1);
        let rest = facets_from(data, StlType::Binary, pos + TRIANGLE_SIZE);
        assert(facets_from(data, StlType::Binary, pos) =~= seq![
            record_at(data, pos),
        ] + rest);
        assert forall|i: int| 0 <= i < declared_count(data) - k implies #[trigger] facets_from(
            data,
            StlType::Binary,
            pos,
        )[i] == record_at(data, RECORDS_START + TRIANGLE_SIZE * (k + i)) by {
            if i > 0 {
                assert(facets_from(data, StlType::Binary, pos)[i] == rest[i - 1]);
                assert(RECORDS_START + TRIANGLE_SIZE * (k + 1 + (i - 1)) == RECORDS_START
                    + TRIANGLE_SIZE * (k + i));
            }
        }
    }
}

/// The search for the line that opens the solid, from `pos` on: the offset
/// behind that line, and where the search stopped. The search gives up, with
/// offset 0, at a line that is not text and at the end of the data.
pub open spec fn solid_search(data: Seq<u8>, pos: int) -> (int, int)
    decreases data.len() - pos,
{
    if 0 <= pos < data.len() {
        let end = line_end(data, pos);
        if !valid_utf8(line_at(data, pos)) {
            (0, end)
        } else if is_solid_line(line_at(data, pos)) {
            (end, end)
        } else {
            proof {
                lemma_skips(data, pos);
            }
            solid_search(data, end)
        }
    } else {
        (0, pos)
    }
}

/// The encoding that data of at least 84 bytes is read in.
pub open spec fn kind_of(data: Seq<u8>) -> StlType {
    if is_binary(data) {
        StlType::Binary
    } else {
        StlType::Ascii
    }
}

/// The offset of the first triangle.
pub open spec fn first_offset(data: Seq<u8>) -> int {
    match kind_of(data) {
        StlType::Binary => RECORDS_START as int,
        StlType::Ascii => solid_search(data, 0).0,
    }
}

/// Where the cursor stands in newly opened data: at the start of a binary
/// file, and where the search for the opening line stopped in a text file.
pub open spec fn opening_position(data: Seq<u8>) -> int {
    match kind_of(data) {
        StlType::Binary => 0,
        StlType::Ascii => solid_search(data, 0).1,
    }
}

/// Whether a stored normal is to be replaced by one computed from the
/// vertices: it is the zero vector, or one of its coordinates is not a
/// number.
pub open spec fn normal_missing(n: Vec3) -> bool {
    (zero(n.x) && zero(n.y) && zero(n.z)) || nan(n.x) || nan(n.y) || nan(n.z)
}

/// The triangle with the normal that the policy gives it: the normal
/// computed from the vertices by the right-hand rule where that is always
/// asked for or the stored normal is missing, and the stored normal
/// otherwise.
pub open spec fn with_policy(t: Triangle, recalculate: bool) -> Triangle {
    if recalculate || normal_missing(t.normal) {
        Triangle {
            vertices: t.vertices,
            normal: face_normal(t.vertices[0], t.vertices[1], t.vertices[2]),
        }
    } else {
        t
    }
}

/// Whether a stored normal is to be replaced by one computed from the
/// vertices.
pub fn is_normal_missing(normal: &Vec3) -> (r: bool)
    ensures
        r == normal_missing(*normal),
{
    (is_zero(normal.x) && is_zero(normal.y) && is_zero(normal.z)) || is_nan(normal.x) || is_nan(
        normal.y,
    ) || is_nan(normal.z)
}

/// Applies the normal policy to a triangle.
pub fn apply_normal_policy(t: &Triangle, recalculate: bool) -> (r: Triangle)
    ensures
        r == with_policy(*t, recalculate),
{
    if recalculate || is_normal_missing(&t.normal) {
        let normal = normal_of(&t.vertices[0], &t.vertices[1], &t.vertices[2]);
        let r = Triangle { vertices: t.vertices, normal };
        r
    } else {
        *t
    }
}

/// A cursor over the triangles of STL data.
#[derive(Debug)]
pub struct Parser {
    data: Vec<u8>,
    pos: usize,
    stl_type: StlType,
    header_length: usize,
    recalculate_normals: bool,
}

impl Parser {
    /// What every parser satisfies: the data holds the triangle count, the
    /// encoding and the first triangle's offset are those of the data, and
    /// the cursor is inside the data.
    #[verifier::type_invariant]
    pub closed spec fn wf(&self) -> bool {
        &&& self.data@.len() >= RECORDS_START
        &&& self.pos <= self.data@.len()
        &&& self.stl_type == kind_of(self.data@)
        &&& self.header_length == first_offset(self.data@)
        &&& self.header_length <= self.data@.len()
    }

    /// The data that is read.
    pub closed spec fn bytes(&self) -> Seq<u8> {
        self.data@
    }

    /// Where the cursor stands.
    pub closed spec fn position(&self) -> int {
        self.pos as int
    }

    /// The encoding.
    pub closed spec fn kind(&self) -> StlType {
        self.stl_type
    }

    /// Whether normals are always to be computed anew.
    pub closed spec fn recalculates(&self) -> bool {
        self.recalculate_normals
    }

    /// A well-formed parser reads its data in the data's encoding, and its
    /// cursor is inside the data.
    pub proof fn lemma_wf(&self)
        requires
            self.wf(),
        ensures
            self.bytes().len() >= RECORDS_START,
            self.kind() == kind_of(self.bytes()),
            0 <= self.position() <= self.bytes().len(),
            0 <= first_offset(self.bytes()) <= self.bytes().len(),
    {
    }

    /// Opens `data`. The encoding is binary where the length of the data is
    /// the one that the declared triangle count gives, and text otherwise.
    /// Data too short to hold the count is refused.
    pub fn from_buf(data: Vec<u8>, recalculate_normals: bool) -> (r: Result<Self, StlError>)
        ensures
            data@.len() < RECORDS_START ==> r == Err::<Self, StlError>(StlError::Truncated),
            data@.len() >= RECORDS_START ==> r.is_ok() && r.unwrap().wf() && r.unwrap().bytes()
                == data@ && r.unwrap().kind() == kind_of(data@) && r.unwrap().position()
                == opening_position(data@) && r.unwrap().recalculates() == recalculate_normals,
    {
        if data.len() < RECORDS_START {
            return Err(StlError::Truncated);
        }
        if detect_binary(data.as_slice()) {
            return Ok(
                Parser {
                    data,
                    pos: 0,
                    stl_type: StlType::Binary,
                    header_length: RECORDS_START,
                    recalculate_normals,
                },
            );
        }
        let n = data.len();
        let mut pos: usize = 0;
        let mut header_length: usize = 0;
        while pos < n
            invariant_except_break
                header_length == 0,
                solid_search(data@, 0) == solid_search(data@, pos as int),
            invariant
                pos <= n,
                n == data@.len(),
            ensures
                pos <= n,
                header_length <= n,
                solid_search(data@, 0) == (header_length as int, pos as int),
            decreases n - pos,
        {
            let end = find_line_end(data.as_slice(), pos);
            let line = slice_subrange(data.as_slice(), pos, end);
            proof {
                lemma_skips(data@, pos as int);
            }
            if !is_text(line) {
                pos = end;
                break ;
            }
            if solid_line(line) {
                header_length = end;
                pos = end;
                break ;
            }
            pos = end;
        }
        Ok(Parser { data, pos, stl_type: StlType::Ascii, header_length, recalculate_normals })
    }

    /// The encoding that was detected.
    pub fn stl_type(&self) -> (kind: StlType)
        ensures
            kind == self.kind(),
            kind == kind_of(self.bytes()),
    {
        proof {
            use_type_invariant(self);
        }
        self.stl_type
    }

    /// Sends the cursor back to the first triangle.
    pub fn rewind(&mut self)
        ensures
            final(self).wf(),
            final(self).bytes() == old(self).bytes(),
            final(self).kind() == old(self).kind(),
            final(self).recalculates() == old(self).recalculates(),
            final(self).position() == first_offset(old(self).bytes()),
    {
        proof {
            use_type_invariant(&*self);
        }
        self.pos = self.header_length;
    }

    /// Pulls one triangle at the cursor, or nothing where the data there
    /// gives none. The triangle comes with the normal that the policy
    /// gives it.
    pub fn next_triangle(&mut self) -> (facet: Option<Triangle>)
        ensures
            final(self).wf(),
            final(self).bytes() == old(self).bytes(),
            final(self).kind() == old(self).kind(),
            final(self).recalculates() == old(self).recalculates(),
            final(self).position() == pull(
                old(self).bytes(),
                old(self).kind(),
                old(self).position(),
            ).next,
            match facet {
                Some(f) => pull(
                    old(self).bytes(),
                    old(self).kind(),
                    old(self).position(),
                ).facet is Some && f == with_policy(
                    pull(old(self).bytes(), old(self).kind(), old(self).position()).facet.unwrap(),
                    old(self).recalculates(),
                ),
                None => pull(old(self).bytes(), old(self).kind(), old(self).position()).facet.is_none(),
            },
    {
        proof {
            use_type_invariant(&*self);
        }
        let stored = match self.stl_type {
            StlType::Binary => self.next_binary(),
            StlType::Ascii => self.next_ascii(),
        };
        match stored {
            Some(t) => Some(apply_normal_policy(&t, self.recalculate_normals)),
            None => None,
        }
    }

    fn next_binary(&mut self) -> (facet: Option<Triangle>)
        ensures
            final(self).wf(),
            final(self).bytes() == old(self).bytes(),
            final(self).kind() == old(self).kind(),
            final(self).recalculates() == old(self).recalculates(),
            final(self).position() == binary_pull(old(self).bytes(), old(self).position()).next,
            facet == binary_pull(old(self).bytes(), old(self).position()).facet,
    {
        proof {
            use_type_invariant(&*self);
        }
        let n = self.data.len();
        if n - self.pos >= TRIANGLE_SIZE {
            let t = read_record(self.data.as_slice(), self.pos);
            self.pos = self.pos + TRIANGLE_SIZE;
            Some(t)
        } else {
            self.pos = n;
            None
        }
    }

    /// Reads the line at the cursor as a line of three numbers and moves the
    /// cursor behind it.
    fn numbers_line(&mut self, word: Keyword) -> (r: Option<Vec3>)
        ensures
            final(self).wf(),
            final(self).bytes() == old(self).bytes(),
            final(self).kind() == old(self).kind(),
            final(self).recalculates() == old(self).recalculates(),
            final(self).position() == line_end(old(self).bytes(), old(self).position()),
            match r {
                Some(v) => line_numbers(
                    line_at(old(self).bytes(), old(self).position()),
                    word.letters(),
                ) is Some && v == vector_of(
                    line_numbers(
                        line_at(old(self).bytes(), old(self).position()),
                        word.letters(),
                    ).unwrap(),
                ),
                None => line_numbers(
                    line_at(old(self).bytes(), old(self).position()),
                    word.letters(),
                ).is_none(),
            },
    {
        proof {
            use_type_invariant(&*self);
        }
        let end = find_line_end(self.data.as_slice(), self.pos);
        let r = read_numbers(slice_subrange(self.data.as_slice(), self.pos, end), word);
        self.pos = end;
        match r {
            Some(t) => Some(
                Vec3 {
                    x: value_of(t.0.as_slice()),
                    y: value_of(t.1.as_slice()),
                    z: value_of(t.2.as_slice()),
                },
            ),
            None => None,
        }
    }

    /// Reads the line at the cursor, whatever it says, and moves the cursor
    /// behind it. Tells whether the line is text.
    fn any_line(&mut self) -> (ok: bool)
        ensures
            final(self).wf(),
            final(self).bytes() == old(self).bytes(),
            final(self).kind() == old(self).kind(),
            final(self).recalculates() == old(self).recalculates(),
            final(self).position() == line_end(old(self).bytes(), old(self).position()),
            ok == valid_utf8(line_at(old(self).bytes(), old(self).position())),
    {
        proof {
            use_type_invariant(&*self);
        }
        let end = find_line_end(self.data.as_slice(), self.pos);
        let ok = is_text(slice_subrange(self.data.as_slice(), self.pos, end));
        self.pos = end;
        ok
    }

    fn next_ascii(&mut self) -> (facet: Option<Triangle>)
        ensures
            final(self).wf(),
            final(self).bytes() == old(self).bytes(),
            final(self).kind() == old(self).kind(),
            final(self).recalculates() == old(self).recalculates(),
            final(self).position() == ascii_pull(old(self).bytes(), old(self).position()).next,
            facet == ascii_pull(old(self).bytes(), old(self).position()).facet,
    {
        reveal(ascii_pull);
        let normal = match self.numbers_line(Keyword::Facet) {
            Some(t) => t,
            None => {
                return None;
            },
        };
        if !self.any_line() {
            return None;
        }
        let v0 = match self.numbers_line(Keyword::Vertex) {
            Some(t) => t,
            None => {
                return None;
            },
        };
        let v1 = match self.numbers_line(Keyword::Vertex) {
            Some(t) => t,
            None => {
                return None;
            },
        };
        let v2 = match self.numbers_line(Keyword::Vertex) {
            Some(t) => t,
            None => {
                return None;
            },
        };
        if !self.any_line() {
            return None;
        }
        if !self.any_line() {
            return None;
        }
        Some(Triangle { vertices: [v0, v1, v2], normal })
    }

    /// The number of triangles: pulls from the first triangle on until one
    /// yields nothing. In a binary file this is the declared count, which
    /// is read from its field; a text file is read through.
    pub fn triangle_count(&mut self) -> (count: u64)
        ensures
            final(self).wf(),
            final(self).bytes() == old(self).bytes(),
            final(self).kind() == old(self).kind(),
            final(self).recalculates() == old(self).recalculates(),
            count == facets_from(
                old(self).bytes(),
                old(self).kind(),
                first_offset(old(self).bytes()),
            ).len(),
            old(self).kind() == StlType::Binary ==> count == declared_count(old(self).bytes())
                && final(self).position() == RECORDS_START,
            old(self).kind() == StlType::Ascii ==> final(self).position() == drained_from(
                old(self).bytes(),
                StlType::Ascii,
                first_offset(old(self).bytes()),
            ),
    {
        proof {
            use_type_invariant(&*self);
        }
        self.rewind();
        match self.stl_type {
            StlType::Binary => {
                proof {
                    lemma_binary_facets(self.data@, 0);
                }
                u32_at(self.data.as_slice(), HEADER_SIZE) as u64
            },
            StlType::Ascii => {
                let ghost data = self.data@;
                let ghost start = self.pos as int;
                let mut count: u64 = 0;
                loop
                    invariant_except_break
                        facets_from(data, StlType::Ascii, start).len() == count + facets_from(
                            data,
                            StlType::Ascii,
                            self.position(),
                        ).len(),
                        drained_from(data, StlType::Ascii, start) == drained_from(
                            data,
                            StlType::Ascii,
                            self.position(),
                        ),
                    invariant
                        self.wf(),
                        self.bytes() == data,
                        self.kind() == StlType::Ascii,
                        self.recalculates() == old(self).recalculates(),
                        0 <= self.position() <= data.len(),
                        count <= self.position(),
                    ensures
                        self.wf(),
                        self.bytes() == data,
                        self.kind() == StlType::Ascii,
                        self.recalculates() == old(self).recalculates(),
                        facets_from(data, StlType::Ascii, start).len() == count,
                        self.position() == drained_from(data, StlType::Ascii, start),
                    decreases data.len() - self.position(),
                {
                    proof {
                        lemma_facets_step(data, StlType::Ascii, self.position());
                        self.lemma_wf();
                    }
                    match self.next_triangle() {
                        Some(_) => {
                            count = count + 1;
                        },
                        None => {
                            break ;
                        },
                    }
                }
                count
            },
        }
    }

    /// All triangles, in the order of the file: what pulling from the first
    /// triangle on yields until a pull yields nothing.
    pub fn read_all(&mut self) -> (mesh: Mesh)
        ensures
            final(self).wf(),
            final(self).bytes() == old(self).bytes(),
            final(self).kind() == old(self).kind(),
            final(self).recalculates() == old(self).recalculates(),
            mesh@.len() == facets_from(
                old(self).bytes(),
                old(self).kind(),
                first_offset(old(self).bytes()),
            ).len(),
            forall|i: int|
                0 <= i < mesh@.len() ==> #[trigger] mesh@[i] == with_policy(
                    facets_from(
                        old(self).bytes(),
                        old(self).kind(),
                        first_offset(old(self).bytes()),
                    )[i],
                    old(self).recalculates(),
                ),
            final(self).position() == drained_from(
                old(self).bytes(),
                old(self).kind(),
                first_offset(old(self).bytes()),
            ),
            old(self).kind() == StlType::Binary ==> mesh@.len() == declared_count(
                old(self).bytes(),
            ),
    {
        proof {
            use_type_invariant(&*self);
        }
        self.rewind();
        let ghost data = self.data@;
        let ghost kind = self.stl_type;
        let ghost start = self.pos as int;
        let ghost all = facets_from(data, kind, start);
        proof {
            if kind == StlType::Binary {
                lemma_binary_facets(data, 0);
            }
        }
        let mut facets: Vec<Triangle> = Vec::new();
        loop
            invariant_except_break
                all =~= all.subrange(0, facets@.len() as int) + facets_from(
                    data,
                    kind,
                    self.position(),
                ),
                drained_from(data, kind, start) == drained_from(data, kind, self.position()),
            invariant
                self.wf(),
                self.bytes() == data,
                self.kind() == kind,
                self.recalculates() == old(self).recalculates(),
                0 <= self.position() <= data.len(),
                all == facets_from(data, kind, start),
                facets@.len() <= all.len(),
                forall|i: int|
                    0 <= i < facets@.len() ==> (#[trigger] facets@[i]) == with_policy(
                        all[i],
                        old(self).recalculates(),
                    ),
            ensures
                self.wf(),
                self.bytes() == data,
                self.kind() == kind,
                self.recalculates() == old(self).recalculates(),
                facets@.len() == all.len(),
                forall|i: int|
                    0 <= i < facets@.len() ==> (#[trigger] facets@[i]) == with_policy(
                        all[i],
                        old(self).recalculates(),
                    ),
                self.position() == drained_from(data, kind, start),
            decreases data.len() - self.position(),
        {
            proof {
                lemma_facets_step(data, kind, self.position());
                self.lemma_wf();
            }
            let ghost before = self.position();
            match self.next_triangle() {
                Some(f) => {
                    proof {
                        let rest = facets_from(data, kind, self.position());
                        let raw = pull(data, kind, before).facet.unwrap();
                        assert(facets_from(data, kind, before) =~= seq![raw] + rest);
                        assert(all[facets@.len() as int] == raw);
                        assert(all.subrange(0, facets@.len() as int + 1) =~= all.subrange(
                            0,
                            facets@.len() as int,
                        ).push(raw));
                    }
                    facets.push(f);
                },
                None => {
                    break ;
                },
            }
        }
        Mesh::new(facets)
    }
}

/// A mesh that is read from its parser each time it is walked, so that no
/// more than one triangle is held at a time.
#[derive(Debug)]
pub struct LazyMesh {
    parser: Parser,
}

impl LazyMesh {
    pub closed spec fn parser(&self) -> Parser {
        self.parser
    }

    pub fn new(parser: Parser) -> (mesh: Self)
        ensures
            mesh.parser() == parser,
    {
        LazyMesh { parser }
    }

    /// A cursor at the first triangle. While it lives, it alone reads from
    /// the parser.
    pub fn iter(&mut self) -> (it: LazyMeshIter<'_>)
        ensures
            it.bytes() == old(self).parser().bytes(),
            it.kind() == old(self).parser().kind(),
            it.recalculates() == old(self).parser().recalculates(),
            it.position() == first_offset(old(self).parser().bytes()),
    {
        self.parser.rewind();
        LazyMeshIter { parser: &mut self.parser }
    }
}

/// The triangles that pulling from `pos` yields, each with the normal that
/// the policy gives it.
pub open spec fn triangles_from(data: Seq<u8>, kind: StlType, pos: int, recalculate: bool) -> Seq<
    Triangle,
> {
    facets_from(data, kind, pos).map_values(|t: Triangle| with_policy(t, recalculate))
}

/// A pull that yields a triangle takes the first of the triangles that
/// are still to come, and one that yields nothing finds none left.
pub proof fn lemma_triangles_step(data: Seq<u8>, kind: StlType, pos: int, recalculate: bool)
    requires
        0 <= pos <= data.len(),
    ensures
        match pull(data, kind, pos).facet {
            None => triangles_from(data, kind, pos, recalculate).len() == 0,
            Some(f) => triangles_from(data, kind, pos, recalculate).len() > 0 && triangles_from(
                data,
                kind,
                pos,
                recalculate,
            )[0] == with_policy(f, recalculate) && triangles_from(
                data,
                kind,
                pos,
                recalculate,
            ).drop_first() == triangles_from(data, kind, pull(data, kind, pos).next, recalculate),
        },
{
    lemma_facets_step(data, kind, pos);
    match pull(data, kind, pos).facet {
        None => {},
        Some(f) => {
            let more = facets_from(data, kind, pull(data, kind, pos).next);
            let here = facets_from(data, kind, pos);
            assert(here == seq![f] + more);
            assert(here.len() == more.len() + 1);
            assert(here[0] == f);
            let mapped = triangles_from(data, kind, pos, recalculate);
            let rest = triangles_from(data, kind, pull(data, kind, pos).next, recalculate);
            assert(mapped.len() == here.len());
            assert(mapped.drop_first() =~= rest) by {
                assert forall|i: int| 0 <= i < rest.len() implies #[trigger] mapped.drop_first()[i]
                    == rest[i] by {
                    assert(here[i + 1] == more[i]);
                }
            }
        },
    }
}

impl TriangleSource for LazyMesh {
    open spec fn all(&self) -> Seq<Triangle> {
        triangles_from(
            self.parser().bytes(),
            self.parser().kind(),
            first_offset(self.parser().bytes()),
            self.parser().recalculates(),
        )
    }

    open spec fn rest(&self) -> Seq<Triangle> {
        triangles_from(
            self.parser().bytes(),
            self.parser().kind(),
            self.parser().position(),
            self.parser().recalculates(),
        )
    }

    fn rewind(&mut self) {
        self.parser.rewind();
    }

    fn next(&mut self) -> (t: Option<Triangle>) {
        proof {
            use_type_invariant(&self.parser);
            self.parser.lemma_wf();
            lemma_triangles_step(
                self.parser.bytes(),
                self.parser.kind(),
                self.parser.position(),
                self.parser.recalculates(),
            );
        }
        self.parser.next_triangle()
    }
}

/// A cursor over the triangles of a [`LazyMesh`].
pub struct LazyMeshIter<'a> {
    parser: &'a mut Parser,
}

impl<'a> LazyMeshIter<'a> {
    pub closed spec fn bytes(&self) -> Seq<u8> {
        self.parser.bytes()
    }

    pub closed spec fn kind(&self) -> StlType {
        self.parser.kind()
    }

    pub closed spec fn position(&self) -> int {
        self.parser.position()
    }

    pub closed spec fn recalculates(&self) -> bool {
        self.parser.recalculates()
    }

    /// Pulls the next triangle, as [`Parser::next_triangle`] does.
    pub fn next(&mut self) -> (facet: Option<Triangle>)
        ensures
            final(self).bytes() == old(self).bytes(),
            final(self).kind() == old(self).kind(),
            final(self).recalculates() == old(self).recalculates(),
            final(self).position() == pull(
                old(self).bytes(),
                old(self).kind(),
                old(self).position(),
            ).next,
            match facet {
                Some(f) => pull(
                    old(self).bytes(),
                    old(self).kind(),
                    old(self).position(),
                ).facet is Some && f == with_policy(
                    pull(old(self).bytes(), old(self).kind(), old(self).position()).facet.unwrap(),
                    old(self).recalculates(),
                ),
                None => pull(old(self).bytes(), old(self).kind(), old(self).position()).facet.is_none(),
            },
    {
        self.parser.next_triangle()
    }
}

} // verus!
