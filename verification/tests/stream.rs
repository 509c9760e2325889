use byteorder::{LittleEndian, ReadBytesExt};
use std::io::{BufRead, BufReader, Cursor, Read, Seek, SeekFrom};
use stl2thumbnail::mesh::Triangle;
use stl2thumbnail::parser::{Parser, StlType};

// A plain reader of the format over a seekable stream, written with the
// stream functions of the standard library, the scanning crate, the
// byte-order crate and the vector crate. The library is held against it on
// generated files.

type Values = [[u32; 3]; 4];

struct StreamParser {
    reader: BufReader<Cursor<Vec<u8>>>,
    binary: bool,
    header_length: u64,
    recalculate_normals: bool,
}

/// The normal policy in machine floats: a normal that is zero or holds
/// what is not a number is computed anew, and so is every normal where that
/// is asked for.
fn with_policy(mut values: Values, recalculate: bool) -> Values {
    let v = |i: usize| {
        nalgebra_glm::vec3(
            f32::from_bits(values[i][0]),
            f32::from_bits(values[i][1]),
            f32::from_bits(values[i][2]),
        )
    };
    let normal = v(0);
    let missing = normal == nalgebra_glm::vec3(0.0, 0.0, 0.0)
        || normal.x.is_nan()
        || normal.y.is_nan()
        || normal.z.is_nan();
    if recalculate || missing {
        let n = (&v(2) - &v(1)).cross(&(&v(3) - &v(1))).normalize();
        for (slot, c) in values[0].iter_mut().zip([n.x, n.y, n.z]) {
            *slot = if c.is_nan() { 0x7fc0_0000 } else { c.to_bits() };
        }
    }
    values
}

fn read_ascii_line<T: BufRead>(reader: &mut T) -> std::io::Result<String> {
    let mut line = String::new();
    reader.read_line(&mut line)?;
    Ok(line.trim_start().to_ascii_lowercase())
}

fn scan3(line: &str, format: &str) -> Option<[u32; 3]> {
    let mut res = scan_fmt::parse::scan(line, format);
    let mut out = [0u32; 3];
    let mut ok = true;
    for slot in out.iter_mut() {
        match res.next() {
            Some(item) => match item.parse::<f32>() {
                Ok(v) if !item.is_empty() => *slot = v.to_bits(),
                _ => ok = false,
            },
            None => ok = false,
        }
    }
    if ok {
        Some(out)
    } else {
        None
    }
}

impl StreamParser {
    fn open(data: Vec<u8>, recalculate_normals: bool) -> std::io::Result<Self> {
        let mut reader = BufReader::new(Cursor::new(data));
        reader.seek(SeekFrom::Start(80))?;
        let triangles = reader.read_u32::<LittleEndian>()? as u64;
        let filesize = reader.seek(SeekFrom::End(0))?;
        let binary = triangles * 50 + 80 + 4 == filesize;
        reader.seek(SeekFrom::Start(0))?;
        let mut header_length = 0;
        if binary {
            header_length = 84;
        } else {
            while let Some(line) = read_ascii_line(&mut reader).ok() {
                if line.starts_with("solid") {
                    header_length = reader.seek(SeekFrom::Current(0))?;
                    break;
                }
            }
        }
        Ok(Self { reader, binary, header_length, recalculate_normals })
    }

    fn rewind(&mut self) {
        self.reader.seek(SeekFrom::Start(self.header_length)).unwrap();
    }

    fn next_ascii(&mut self) -> Option<Values> {
        let normal = scan3(&read_ascii_line(&mut self.reader).ok()?, "facet normal {f} {f} {f}")?;
        read_ascii_line(&mut self.reader).ok()?;
        let mut out = [normal, [0; 3], [0; 3], [0; 3]];
        for i in 0..3 {
            out[i + 1] = scan3(&read_ascii_line(&mut self.reader).ok()?, "vertex {f} {f} {f}")?;
        }
        read_ascii_line(&mut self.reader).ok()?;
        read_ascii_line(&mut self.reader).ok()?;
        Some(out)
    }

    fn next_binary(&mut self) -> Option<Values> {
        let mut out = [[0u32; 3]; 4];
        for v in out.iter_mut() {
            for c in v.iter_mut() {
                *c = self.reader.read_f32::<LittleEndian>().ok()?.to_bits();
            }
        }
        self.reader.read_u16::<LittleEndian>().ok()?;
        Some(out)
    }

    fn next(&mut self) -> Option<Values> {
        let stored = if self.binary { self.next_binary() } else { self.next_ascii() };
        stored.map(|values| with_policy(values, self.recalculate_normals))
    }

    fn count(&mut self) -> u64 {
        self.rewind();
        if self.binary {
            self.reader.seek(SeekFrom::Current(-4)).unwrap();
            self.reader.read_u32::<LittleEndian>().unwrap() as u64
        } else {
            let mut n = 0;
            while self.next().is_some() {
                n += 1;
            }
            n
        }
    }
}

fn values_of(t: &Triangle) -> Values {
    [
        [t.normal.x, t.normal.y, t.normal.z],
        [t.vertices[0].x, t.vertices[0].y, t.vertices[0].z],
        [t.vertices[1].x, t.vertices[1].y, t.vertices[1].z],
        [t.vertices[2].x, t.vertices[2].y, t.vertices[2].z],
    ]
}

struct Dice(u64);

impl Dice {
    fn roll(&mut self, n: usize) -> usize {
        self.0 ^= self.0 << 13;
        self.0 ^= self.0 >> 7;
        self.0 ^= self.0 << 17;
        (self.0 >> 11) as usize % n
    }

    fn pick<'a>(&mut self, from: &[&'a str]) -> &'a str {
        from[self.roll(from.len())]
    }
}

fn numbers_line(dice: &mut Dice, word: &str) -> String {
    let lead = dice.pick(&["", " ", "  ", "\t", "\u{a0} ", "\u{3000}", "\r", "\u{b}\u{c}"]);
    let nums = [
        "0", "1", "-1", "+1", "1.5", "-2.25e1", "1E2", "1e-3", ".5", "5.", "0.000000", "1.000000",
        "3.4e38", "1e39", "1e-46", "123456789", "-", ".", "e1", "1e", "x", "1.2.3", "nan",
    ];
    let sep = dice.pick(&[" ", " ", " ", "  ", "\t", ""]);
    let tail = dice.pick(&["", "", " ", " tail", "\r", "#"]);
    format!(
        "{}{}{}{}{}{}{}{}{}\n",
        lead,
        word,
        dice.pick(&[" ", " ", "  ", ""]),
        dice.pick(&nums),
        sep,
        dice.pick(&nums),
        sep,
        dice.pick(&nums),
        tail
    )
}

fn text_file(dice: &mut Dice) -> Vec<u8> {
    let mut out: Vec<u8> = Vec::new();
    if dice.roll(4) == 0 {
        out.extend_from_slice(b"; a comment before the solid\n");
    }
    out.extend_from_slice(dice.pick(&["solid", "SOLID", "  Solid", "\tsolid", "solidity"]).as_bytes());
    out.extend_from_slice(b" a name that is long enough to carry the data past the binary header's length\n");
    let blocks = dice.roll(5);
    for _ in 0..blocks {
        let facet_word = dice.pick(&["facet normal", "facet normal", "FACET NORMAL", "facet  normal", "facetnormal", "facet norm"]);
        out.extend_from_slice(numbers_line(dice, facet_word).as_bytes());
        match dice.roll(8) {
            0 => out.extend_from_slice(b"outer \xff\xfe loop\n"),
            1 => {}
            2 => out.extend_from_slice(b"\n"),
            _ => out.extend_from_slice(b"outer loop\n"),
        }
        let vertices = if dice.roll(6) == 0 { 2 } else { 3 };
        for _ in 0..vertices {
            let vertex_word = dice.pick(&["vertex", "vertex", "vertex", "Vertex", "v e r t e x", "vertice"]);
            out.extend_from_slice(numbers_line(dice, vertex_word).as_bytes());
        }
        match dice.roll(8) {
            0 => out.extend_from_slice(b"endloop \xc3\n"),
            1 => out.extend_from_slice(b"anything\n"),
            _ => out.extend_from_slice(b"endloop\n"),
        }
        if dice.roll(8) != 0 {
            out.extend_from_slice(b"endfacet\n");
        }
    }
    out.extend_from_slice(b"endsolid a name\n");
    out
}

fn binary_file(dice: &mut Dice) -> Vec<u8> {
    let n = dice.roll(6);
    let mut out = vec![0u8; 80];
    for b in out.iter_mut() {
        *b = dice.roll(256) as u8;
    }
    out.extend_from_slice(&(n as u32).to_le_bytes());
    for _ in 0..n * 50 {
        out.push(dice.roll(256) as u8);
    }
    match dice.roll(6) {
        0 => out.push(7),
        1 if out.len() > 84 => {
            out.pop();
        }
        _ => {}
    }
    out
}

fn has_opening_line(data: &[u8]) -> bool {
    // Without such a line the stream reader never returns.
    let mut reader = Cursor::new(data.to_vec());
    loop {
        let mut line = String::new();
        match reader.read_line(&mut line) {
            Err(_) => return true,
            Ok(0) => return false,
            Ok(_) => {
                if line.trim_start().to_ascii_lowercase().starts_with("solid") {
                    return true;
                }
            }
        }
    }
}

fn compare(data: Vec<u8>) {
    compare_with(data.clone(), false);
    compare_with(data, true);
}

fn compare_with(data: Vec<u8>, recalculate: bool) {
    let stream = StreamParser::open(data.clone(), recalculate);
    let parser = Parser::from_buf(data.clone(), recalculate);
    assert_eq!(stream.is_ok(), parser.is_ok());
    let (mut stream, mut parser) = match (stream, parser) {
        (Ok(r), Ok(p)) => (r, p),
        _ => return,
    };
    assert_eq!(stream.binary, parser.stl_type() == StlType::Binary);

    // pulls straight after opening, and on after the first pull that yields nothing
    let mut misses = 0;
    while misses < 4 {
        let want = stream.next();
        let got = parser.next_triangle().map(|t| values_of(&t));
        assert_eq!(got, want, "{:?}", String::from_utf8_lossy(&data));
        if want.is_none() {
            misses += 1;
        }
    }

    assert_eq!(parser.triangle_count(), stream.count());

    stream.rewind();
    let mut want = Vec::new();
    while let Some(v) = stream.next() {
        want.push(v);
    }
    let got: Vec<Values> = parser.read_all().triangles().iter().map(values_of).collect();
    assert_eq!(got, want);
    assert_eq!(parser.next_triangle().map(|t| values_of(&t)), stream.next());
}

#[test]
fn text_files_are_read_as_a_stream_reader_reads_them() {
    let mut dice = Dice(0x9e37_79b9_7f4a_7c15);
    for _ in 0..10000 {
        let data = text_file(&mut dice);
        if data.len() >= 84 && !has_opening_line(&data) {
            continue;
        }
        compare(data);
    }
}

#[test]
fn binary_files_are_read_as_a_stream_reader_reads_them() {
    let mut dice = Dice(0x1234_5678_9abc_def1);
    for _ in 0..10000 {
        let data = binary_file(&mut dice);
        // data of a wrong length is read as text
        if data.len() >= 84 && !declares_its_length(&data) && !has_opening_line(&data) {
            continue;
        }
        compare(data);
    }
}

fn declares_its_length(data: &[u8]) -> bool {
    let count = u32::from_le_bytes([data[80], data[81], data[82], data[83]]) as u64;
    count * 50 + 84 == data.len() as u64
}

#[test]
fn short_data_is_refused_as_a_stream_reader_refuses_it() {
    for n in 0..84 {
        compare(vec![b's'; n]);
    }
    for n in 84..90 {
        let mut data = b"solid\n".to_vec();
        data.resize(n, b's');
        compare(data);
    }
}
