//! The line grammar of the text encoding.
//!
//! A text file is a sequence of lines. A line is read as text only if it is
//! well-formed UTF-8; leading white space is dropped and ASCII letters are
//! lowered before it is matched. A facet line and a vertex line hold a
//! keyword followed by three decimal numbers. Blanks may stand anywhere
//! between the letters of the keyword and between the numbers, and nothing
//! needs to separate them; whatever follows the third number is ignored.

use vstd::prelude::*;
use vstd::slice::slice_subrange;
use vstd::utf8::valid_utf8;

verus! {

/// One of the four characters that may separate the parts of a line.
pub open spec fn is_blank(b: u8) -> bool {
    b == 32 || b == 9 || b == 10 || b == 13
}

pub open spec fn is_digit(b: u8) -> bool {
    48 <= b <= 57
}

pub open spec fn is_sign(b: u8) -> bool {
    b == 43 || b == 45
}

/// An ASCII capital letter becomes its small letter, every other byte stays.
pub open spec fn lower(b: u8) -> u8 {
    if 65 <= b <= 90 {
        (b + 32) as u8
    } else {
        b
    }
}

/// The letters of `facet normal`.
pub open spec fn facet_word() -> Seq<u8> {
    seq![102u8, 97u8, 99u8, 101u8, 116u8, 110u8, 111u8, 114u8, 109u8, 97u8, 108u8]
}

/// The letters of `vertex`.
pub open spec fn vertex_word() -> Seq<u8> {
    seq![118u8, 101u8, 114u8, 116u8, 101u8, 120u8]
}

/// The letters of `solid`.
pub open spec fn solid_word() -> Seq<u8> {
    seq![115u8, 111u8, 108u8, 105u8, 100u8]
}

/// Index just past the line that starts at `pos`: past its line feed, or the
/// end of the data where no line feed follows.
pub open spec fn line_end(data: Seq<u8>, pos: int) -> int
    decreases data.len() - pos,
{
    if 0 <= pos < data.len() {
        if data[pos] == 10 {
            pos + 1
        } else {
            line_end(data, pos + 1)
        }
    } else {
        pos
    }
}

/// Number of bytes that the white-space character at `i` takes, or 0 where
/// none stands: the characters with the Unicode property `White_Space`, in
/// their UTF-8 encoding.
pub open spec fn space_width(s: Seq<u8>, i: int) -> int {
    if 0 <= i < s.len() && (9 <= s[i] <= 13 || s[i] == 32) {
        1
    } else if 0 <= i && i + 1 < s.len() && s[i] == 0xC2 && (s[i + 1] == 0x85 || s[i + 1] == 0xA0) {
        2
    } else if 0 <= i && i + 2 < s.len() && s[i] == 0xE1 && s[i + 1] == 0x9A && s[i + 2] == 0x80 {
        3
    } else if 0 <= i && i + 2 < s.len() && s[i] == 0xE2 && s[i + 1] == 0x80 && (0x80 <= s[i + 2]
        <= 0x8A || s[i + 2] == 0xA8 || s[i + 2] == 0xA9 || s[i + 2] == 0xAF) {
        3
    } else if 0 <= i && i + 2 < s.len() && s[i] == 0xE2 && s[i + 1] == 0x81 && s[i + 2] == 0x9F {
        3
    } else if 0 <= i && i + 2 < s.len() && s[i] == 0xE3 && s[i + 1] == 0x80 && s[i + 2] == 0x80 {
        3
    } else {
        0
    }
}

/// Index of the first byte at or after `i` that does not begin a white-space
/// character.
pub open spec fn skip_space(s: Seq<u8>, i: int) -> int
    decreases s.len() - i,
{
    if space_width(s, i) > 0 {
        skip_space(s, i + space_width(s, i))
    } else {
        i
    }
}

/// A line as it is matched: without its leading white space, in small
/// letters.
pub open spec fn normalized(line: Seq<u8>) -> Seq<u8> {
    let start = skip_space(line, 0);
    Seq::new((line.len() - start) as nat, |k: int| lower(line[start + k]))
}

/// Index of the first byte at or after `i` that is not a blank.
pub open spec fn skip_blanks(s: Seq<u8>, i: int) -> int
    decreases s.len() - i,
{
    if 0 <= i < s.len() && is_blank(s[i]) {
        skip_blanks(s, i + 1)
    } else {
        i
    }
}

/// Index of the first byte at or after `i` that is not a decimal digit.
pub open spec fn skip_digits(s: Seq<u8>, i: int) -> int
    decreases s.len() - i,
{
    if 0 <= i < s.len() && is_digit(s[i]) {
        skip_digits(s, i + 1)
    } else {
        i
    }
}

/// Index past the sign at `i`, or `i` where none stands.
pub open spec fn skip_sign(s: Seq<u8>, i: int) -> int {
    if 0 <= i < s.len() && is_sign(s[i]) {
        i + 1
    } else {
        i
    }
}

/// Index past the letters of `word` from its letter `k` on, each found
/// after any number of blanks starting at `i`; `None` where a letter is
/// missing.
pub open spec fn match_word(s: Seq<u8>, i: int, word: Seq<u8>, k: int) -> Option<int>
    decreases word.len() - k,
{
    if 0 <= k < word.len() {
        let j = skip_blanks(s, i);
        if 0 <= j < s.len() && s[j] == word[k] {
            match_word(s, j + 1, word, k + 1)
        } else {
            None
        }
    } else {
        Some(i)
    }
}

/// A number found in a line.
pub struct NumberSpan {
    /// Index of the first byte of the number's text. A leading `+` is not
    /// part of the text.
    pub start: int,
    /// Index past the last byte of the number's text.
    pub end: int,
    /// Whether the text is a decimal number: digits with at most one point
    /// among them, at least one digit, and after an `e` at least one more
    /// digit.
    pub valid: bool,
}

/// The longest number-shaped text at `i`: a sign, digits, a point and
/// digits, then `e` with a sign and digits; every part may be missing.
pub open spec fn number_at(s: Seq<u8>, i: int) -> NumberSpan {
    let j1 = skip_sign(s, i);
    let j2 = skip_digits(s, j1);
    let dot = 0 <= j2 < s.len() && s[j2] == 46;
    let j3 = if dot {
        skip_digits(s, j2 + 1)
    } else {
        j2
    };
    let exp = 0 <= j3 < s.len() && s[j3] == 101;
    let j4 = if exp {
        skip_sign(s, j3 + 1)
    } else {
        j3
    };
    let j5 = if exp {
        skip_digits(s, j4)
    } else {
        j3
    };
    let mantissa_digits = (j2 - j1) + (if dot {
        j3 - (j2 + 1)
    } else {
        0
    });
    NumberSpan {
        start: if 0 <= i < s.len() && s[i] == 43 {
            i + 1
        } else {
            i
        },
        end: j5,
        valid: mantissa_digits >= 1 && (exp ==> j5 - j4 >= 1),
    }
}

/// The number that follows the blanks at `i`; `None` where the line ends
/// first or the text found is no decimal number.
pub open spec fn next_number(s: Seq<u8>, i: int) -> Option<NumberSpan> {
    let j = skip_blanks(s, i);
    if 0 <= j < s.len() && number_at(s, j).valid {
        Some(number_at(s, j))
    } else {
        None
    }
}

/// The texts of the three numbers that follow `word` in the normalized line
/// `s`; `None` where the line does not have that form.
pub open spec fn scan_numbers(s: Seq<u8>, word: Seq<u8>) -> Option<(Seq<u8>, Seq<u8>, Seq<u8>)> {
    match match_word(s, 0, word, 0) {
        None => None,
        Some(p) => match next_number(s, p) {
            None => None,
            Some(n1) => match next_number(s, n1.end) {
                None => None,
                Some(n2) => match next_number(s, n2.end) {
                    None => None,
                    Some(n3) => Some(
                        (
                            s.subrange(n1.start, n1.end),
                            s.subrange(n2.start, n2.end),
                            s.subrange(n3.start, n3.end),
                        ),
                    ),
                },
            },
        },
    }
}

/// The three numbers of a raw line that reads `word x y z`; `None` where
/// the line is not text or does not have that form.
pub open spec fn line_numbers(line: Seq<u8>, word: Seq<u8>) -> Option<(Seq<u8>, Seq<u8>, Seq<u8>)> {
    if valid_utf8(line) {
        scan_numbers(normalized(line), word)
    } else {
        None
    }
}

/// Whether a raw line opens the solid: it is text and, normalized, begins
/// with `solid`.
pub open spec fn is_solid_line(line: Seq<u8>) -> bool {
    let s = normalized(line);
    valid_utf8(line) && s.len() >= 5 && s.subrange(0, 5) == solid_word()
}

/// The skipping functions move forward and stay inside the text.
pub proof fn lemma_skips(s: Seq<u8>, i: int)
    requires
        0 <= i <= s.len(),
    ensures
        i <= skip_blanks(s, i) <= s.len(),
        i <= skip_digits(s, i) <= s.len(),
        i <= skip_space(s, i) <= s.len(),
        i <= skip_sign(s, i) <= s.len(),
        i <= line_end(s, i) <= s.len(),
        i < s.len() ==> i < line_end(s, i),
    decreases s.len() - i,
{
    if i < s.len() {
        lemma_skips(s, i + 1);
        if space_width(s, i) > 0 {
            lemma_skips(s, i + space_width(s, i));
        }
    }
}

/// An empty line holds no keyword, so no numbers.
pub proof fn lemma_empty_line(line: Seq<u8>, word: Seq<u8>)
    requires
        line.len() == 0,
        word.len() > 0,
    ensures
        line_numbers(line, word).is_none(),
        !is_solid_line(line),
{
    let s = normalized(line);
    assert(skip_space(line, 0) == 0);
    assert(s.len() == 0);
    assert(skip_blanks(s, 0) == 0);
}

/// A number's text lies inside the line, from where it was looked for.
pub proof fn lemma_number_at(s: Seq<u8>, i: int)
    requires
        0 <= i < s.len(),
    ensures
        i <= number_at(s, i).start <= i + 1,
        i <= number_at(s, i).end <= s.len(),
        number_at(s, i).valid ==> number_at(s, i).start < number_at(s, i).end,
{
    let j1 = skip_sign(s, i);
    lemma_skips(s, i);
    lemma_skips(s, j1);
    let j2 = skip_digits(s, j1);
    if j2 < s.len() {
        lemma_skips(s, j2 + 1);
    }
    let dot = 0 <= j2 < s.len() && s[j2] == 46;
    let j3 = if dot {
        skip_digits(s, j2 + 1)
    } else {
        j2
    };
    if j3 < s.len() {
        lemma_skips(s, j3 + 1);
        lemma_skips(s, skip_sign(s, j3 + 1));
    }
}

/// `core::str::from_utf8`: succeeds exactly on well-formed UTF-8.
#[verifier::external_body]
pub(crate) fn is_text(bytes: &[u8]) -> (ok: bool)
    ensures
        ok == valid_utf8(bytes@),
{
    core::str::from_utf8(bytes).is_ok()
}

/// Index just past the line that starts at `pos`.
pub fn find_line_end(data: &[u8], pos: usize) -> (end: usize)
    requires
        pos <= data@.len(),
    ensures
        end == line_end(data@, pos as int),
        pos <= end <= data@.len(),
{
    let mut i: usize = pos;
    proof {
        lemma_skips(data@, pos as int);
    }
    while i < data.len()
        invariant
            pos <= i <= data@.len(),
            line_end(data@, pos as int) == line_end(data@, i as int),
        decreases data@.len() - i,
    {
        if data[i] == 10 {
            return i + 1;
        }
        i = i + 1;
    }
    i
}

fn space_width_at(s: &[u8], i: usize) -> (w: usize)
    requires
        i <= s@.len(),
    ensures
        w == space_width(s@, i as int),
        i + w <= s@.len(),
{
    let n = s.len();
    if i >= n {
        return 0;
    }
    let b0 = s[i];
    if (9 <= b0 && b0 <= 13) || b0 == 32 {
        return 1;
    }
    if n - i >= 2 && b0 == 0xC2 && (s[i + 1] == 0x85 || s[i + 1] == 0xA0) {
        return 2;
    }
    if n - i >= 3 {
        let b1 = s[i + 1];
        let b2 = s[i + 2];
        if b0 == 0xE1 && b1 == 0x9A && b2 == 0x80 {
            return 3;
        }
        if b0 == 0xE2 && b1 == 0x80 && ((0x80 <= b2 && b2 <= 0x8A) || b2 == 0xA8 || b2 == 0xA9
            || b2 == 0xAF) {
            return 3;
        }
        if b0 == 0xE2 && b1 == 0x81 && b2 == 0x9F {
            return 3;
        }
        if b0 == 0xE3 && b1 == 0x80 && b2 == 0x80 {
            return 3;
        }
    }
    0
}

/// The line as it is matched: leading white space dropped, ASCII letters
/// lowered.
pub fn normalize(line: &[u8]) -> (s: Vec<u8>)
    ensures
        s@ == normalized(line@),
{
    let n = line.len();
    let mut start: usize = 0;
    loop
        invariant
            start <= n,
            n == line@.len(),
            skip_space(line@, 0) == skip_space(line@, start as int),
        ensures
            start <= n,
            start == skip_space(line@, 0),
        decreases n - start,
    {
        let w = space_width_at(line, start);
        if w == 0 {
            break ;
        }
        start = start + w;
    }
    let mut s: Vec<u8> = Vec::with_capacity(n - start);
    let mut k: usize = start;
    while k < n
        invariant
            start <= k <= n,
            n == line@.len(),
            s@.len() == k - start,
            forall|j: int| 0 <= j < s@.len() ==> #[trigger] s@[j] == lower(line@[start + j]),
        decreases n - k,
    {
        let b = line[k];
        s.push(if 65 <= b && b <= 90 {
            b + 32
        } else {
            b
        });
        k = k + 1;
    }
    proof {
        assert(s@ =~= normalized(line@));
    }
    s
}

fn blanks_end(s: &[u8], i: usize) -> (j: usize)
    requires
        i <= s@.len(),
    ensures
        j == skip_blanks(s@, i as int),
        i <= j <= s@.len(),
{
    let mut j: usize = i;
    while j < s.len() && (s[j] == 32 || s[j] == 9 || s[j] == 10 || s[j] == 13)
        invariant
            i <= j <= s@.len(),
            skip_blanks(s@, i as int) == skip_blanks(s@, j as int),
        decreases s@.len() - j,
    {
        j = j + 1;
    }
    j
}

pub(crate) fn digits_end(s: &[u8], i: usize) -> (j: usize)
    requires
        i <= s@.len(),
    ensures
        j == skip_digits(s@, i as int),
        i <= j <= s@.len(),
{
    let mut j: usize = i;
    while j < s.len() && 48 <= s[j] && s[j] <= 57
        invariant
            i <= j <= s@.len(),
            skip_digits(s@, i as int) == skip_digits(s@, j as int),
        decreases s@.len() - j,
    {
        j = j + 1;
    }
    j
}

pub(crate) fn sign_end(s: &[u8], i: usize) -> (j: usize)
    requires
        i <= s@.len(),
    ensures
        j == skip_sign(s@, i as int),
        i <= j <= s@.len(),
{
    if i < s.len() && (s[i] == 43 || s[i] == 45) {
        i + 1
    } else {
        i
    }
}

/// The keyword that opens a line with three numbers.
#[derive(Debug, Clone, Copy, PartialEq, Eq, Structural)]
pub enum Keyword {
    /// `facet normal`
    Facet,
    /// `vertex`
    Vertex,
}

impl Keyword {
    /// The keyword's letters, without the blank.
    pub open spec fn letters(self) -> Seq<u8> {
        match self {
            Keyword::Facet => facet_word(),
            Keyword::Vertex => vertex_word(),
        }
    }

    fn len(self) -> (n: usize)
        ensures
            n == self.letters().len(),
    {
        match self {
            Keyword::Facet => 11,
            Keyword::Vertex => 6,
        }
    }

    fn letter(self, k: usize) -> (b: u8)
        requires
            k < self.letters().len(),
        ensures
            b == self.letters()[k as int],
    {
        match self {
            Keyword::Facet => {
                if k == 0 {
                    102
                } else if k == 1 {
                    97
                } else if k == 2 {
                    99
                } else if k == 3 {
                    101
                } else if k == 4 {
                    116
                } else if k == 5 {
                    110
                } else if k == 6 {
                    111
                } else if k == 7 {
                    114
                } else if k == 8 {
                    109
                } else if k == 9 {
                    97
                } else {
                    108
                }
            },
            Keyword::Vertex => {
                if k == 0 {
                    118
                } else if k == 1 {
                    101
                } else if k == 2 {
                    114
                } else if k == 3 {
                    116
                } else if k == 4 {
                    101
                } else {
                    120
                }
            },
        }
    }
}

fn word_end(s: &[u8], word: Keyword) -> (r: Option<usize>)
    ensures
        match r {
            Some(p) => match_word(s@, 0, word.letters(), 0) == Some(p as int) && p <= s@.len(),
            None => match_word(s@, 0, word.letters(), 0).is_none(),
        },
{
    let n = word.len();
    let mut i: usize = 0;
    let mut k: usize = 0;
    while k < n
        invariant
            k <= n,
            n == word.letters().len(),
            i <= s@.len(),
            match_word(s@, 0, word.letters(), 0) == match_word(s@, i as int, word.letters(), k as int),
        decreases n - k,
    {
        let j = blanks_end(s, i);
        if j < s.len() && s[j] == word.letter(k) {
            i = j + 1;
            k = k + 1;
        } else {
            return None;
        }
    }
    Some(i)
}

/// The bounds of a number's text, as indices into the line it was found in.
struct Found {
    start: usize,
    end: usize,
}

fn number_after(s: &[u8], i: usize) -> (r: Option<Found>)
    requires
        i <= s@.len(),
    ensures
        match r {
            Some(f) => next_number(s@, i as int) == Some(
                NumberSpan { start: f.start as int, end: f.end as int, valid: true },
            ) && f.start < f.end <= s@.len(),
            None => next_number(s@, i as int).is_none(),
        },
{
    let n = s.len();
    let j = blanks_end(s, i);
    if j >= n {
        return None;
    }
    proof {
        lemma_number_at(s@, j as int);
    }
    let j1 = sign_end(s, j);
    let j2 = digits_end(s, j1);
    let dot = j2 < n && s[j2] == 46;
    let j3 = if dot {
        digits_end(s, j2 + 1)
    } else {
        j2
    };
    let exp = j3 < n && s[j3] == 101;
    let j4 = if exp {
        sign_end(s, j3 + 1)
    } else {
        j3
    };
    let j5 = if exp {
        digits_end(s, j4)
    } else {
        j3
    };
    let mantissa_digits = (j2 - j1) + (if dot {
        j3 - (j2 + 1)
    } else {
        0
    });
    if mantissa_digits >= 1 && (!exp || j5 - j4 >= 1) {
        let start = if s[j] == 43 {
            j + 1
        } else {
            j
        };
        Some(Found { start, end: j5 })
    } else {
        None
    }
}

fn copy_range(s: &[u8], start: usize, end: usize) -> (v: Vec<u8>)
    requires
        start <= end <= s@.len(),
    ensures
        v@ == s@.subrange(start as int, end as int),
{
    vstd::slice::slice_to_vec(slice_subrange(s, start, end))
}

/// The texts of the three numbers of a line that reads `word x y z`, or
/// `None` where the line is not text or does not have that form.
pub fn read_numbers(line: &[u8], word: Keyword) -> (r: Option<(Vec<u8>, Vec<u8>, Vec<u8>)>)
    ensures
        match r {
            Some(t) => line_numbers(line@, word.letters()) == Some((t.0@, t.1@, t.2@)),
            None => line_numbers(line@, word.letters()).is_none(),
        },
{
    if !is_text(line) {
        return None;
    }
    let owned = normalize(line);
    let s = owned.as_slice();
    let p = match word_end(s, word) {
        Some(p) => p,
        None => {
            return None;
        },
    };
    let n1 = match number_after(s, p) {
        Some(f) => f,
        None => {
            return None;
        },
    };
    let n2 = match number_after(s, n1.end) {
        Some(f) => f,
        None => {
            return None;
        },
    };
    let n3 = match number_after(s, n2.end) {
        Some(f) => f,
        None => {
            return None;
        },
    };
    Some(
        (
            copy_range(s, n1.start, n1.end),
            copy_range(s, n2.start, n2.end),
            copy_range(s, n3.start, n3.end),
        ),
    )
}

/// Whether a raw line opens the solid.
pub fn solid_line(line: &[u8]) -> (r: bool)
    ensures
        r == is_solid_line(line@),
{
    if !is_text(line) {
        return false;
    }
    let s = normalize(line);
    let r = s.len() >= 5 && s[0] == 115 && s[1] == 111 && s[2] == 108 && s[3] == 105 && s[4]
        == 100;
    proof {
        if s@.len() >= 5 {
            let head = s@.subrange(0, 5);
            if r {
                assert(head =~= solid_word());
            } else {
                assert(head[0] == s@[0] && head[1] == s@[1] && head[2] == s@[2] && head[3] == s@[3]
                    && head[4] == s@[4]);
            }
        }
    }
    r
}

} // verus!
