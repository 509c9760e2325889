use stl2thumbnail::ascii::{read_numbers, Keyword};
use stl2thumbnail::mesh::{Triangle, Vec3};
use stl2thumbnail::parser::{apply_normal_policy, is_normal_missing, LazyMesh, Parser, StlError, StlType};

const TRI_ASCII: &str = "solid Exported from Blender-2.82 (sub 7)
facet normal 0.000000 0.000000 1.000000
outer loop
vertex -1.000000 -1.000000 0.000000
vertex 1.000000 -1.000000 0.000000
vertex 0.000000 1.000000 0.000000
endloop
endfacet
facet normal 0.000000 0.000000 1.000000
outer loop
vertex -1.000000 -1.000000 1.000000
vertex 1.000000 -1.000000 1.000000
vertex 0.000000 1.000000 1.000000
endloop
endfacet
endsolid Exported from Blender-2.82 (sub 7)
";

const TRI_ASCII_BROKEN: &str = "solid Exported from Blender-2.82 (sub 7)
facet normal 0.000000 0.000000 1.000000
outer loop
vertex -1.000000 -1.000000
vertex 1.000000 -1.000000 0.000000
vertex 0.000000 1.000000 0.000000
endloop
endfacet
endsolid Exported from Blender-2.82 (sub 7)
";

fn bits(x: f32, y: f32, z: f32) -> Vec3 {
    Vec3::new(x.to_bits(), y.to_bits(), z.to_bits())
}

fn push_vec3(out: &mut Vec<u8>, v: [f32; 3]) {
    for c in v.iter() {
        out.extend_from_slice(&c.to_le_bytes());
    }
}

/// A binary file of the given triangles, each as normal and three vertices.
fn binary_file(triangles: &[[[f32; 3]; 4]]) -> Vec<u8> {
    let mut out = vec![0x20u8; 80];
    out.extend_from_slice(&(triangles.len() as u32).to_le_bytes());
    for t in triangles {
        for v in t.iter() {
            push_vec3(&mut out, *v);
        }
        out.extend_from_slice(&[0u8, 0u8]);
    }
    out
}

fn tri_bin() -> Vec<u8> {
    binary_file(&[[[0.0, 0.0, 1.0], [-1.0, -1.0, 0.0], [1.0, -1.0, 0.0], [0.0, 1.0, 0.0]]])
}

#[test]
fn parser_ascii_test() {
    let mut parser = Parser::from_buf(TRI_ASCII.as_bytes().to_vec(), false).unwrap();
    let mesh = parser.read_all();
    let triangles = mesh.triangles();

    assert_eq!(triangles[0].normal, bits(0.0, 0.0, 1.0));
    assert_eq!(triangles[0].vertices[0], bits(-1.0, -1.0, 0.0));
    assert_eq!(triangles[0].vertices[1], bits(1.0, -1.0, 0.0));
    assert_eq!(triangles[0].vertices[2], bits(0.0, 1.0, 0.0));
}

#[test]
fn parser_ascii_broken_test() {
    let mut parser = Parser::from_buf(TRI_ASCII_BROKEN.as_bytes().to_vec(), false).unwrap();
    let triangles = parser.read_all();

    assert_eq!(triangles.len(), 0);
}

#[test]
fn parser_bin_test() {
    let mut parser = Parser::from_buf(tri_bin(), false).unwrap();
    let all = parser.read_all();
    let mesh = all.triangles();

    assert_eq!(mesh[0].normal, bits(0.0, 0.0, 1.0));
    assert_eq!(mesh[0].vertices[0], bits(-1.0, -1.0, 0.0));
    assert_eq!(mesh[0].vertices[1], bits(1.0, -1.0, 0.0));
    assert_eq!(mesh[0].vertices[2], bits(0.0, 1.0, 0.0));
}

#[test]
fn mesh_lazy_ascii() {
    let mut parser = Parser::from_buf(TRI_ASCII.as_bytes().to_vec(), false).unwrap();

    assert_eq!(parser.triangle_count(), 2);

    let mut lazy_mesh = LazyMesh::new(parser);
    let mut it = lazy_mesh.iter();
    let mut triangles = Vec::new();
    while let Some(t) = it.next() {
        triangles.push(t);
    }

    assert_eq!(
        triangles[0],
        Triangle {
            vertices: [bits(-1.0, -1.0, 0.0), bits(1.0, -1.0, 0.0), bits(0.0, 1.0, 0.0)],
            normal: bits(0.0, 0.0, 1.0),
        }
    );
    assert_eq!(
        triangles[1],
        Triangle {
            vertices: [bits(-1.0, -1.0, 1.0), bits(1.0, -1.0, 1.0), bits(0.0, 1.0, 1.0)],
            normal: bits(0.0, 0.0, 1.0),
        }
    );
}

#[test]
fn mesh_lazy_bin() {
    let mut parser = Parser::from_buf(tri_bin(), false).unwrap();

    assert_eq!(parser.triangle_count(), 1);

    let mut lazy_mesh = LazyMesh::new(parser);
    let mut it = lazy_mesh.iter();
    let mut triangles = Vec::new();
    while let Some(t) = it.next() {
        triangles.push(t);
    }

    assert_eq!(
        triangles[0],
        Triangle {
            vertices: [bits(-1.0, -1.0, 0.0), bits(1.0, -1.0, 0.0), bits(0.0, 1.0, 0.0)],
            normal: bits(0.0, 0.0, 1.0),
        }
    );
}

#[test]
fn ascii_file_has_two_triangles_that_differ_in_z() {
    let mut parser = Parser::from_buf(TRI_ASCII.as_bytes().to_vec(), false).unwrap();
    assert_eq!(parser.stl_type(), StlType::Ascii);
    let mesh = parser.read_all();
    assert_eq!(mesh.len(), 2);
    let a = *mesh.get(0);
    let b = *mesh.get(1);
    assert_eq!(a.normal, bits(0.0, 0.0, 1.0));
    assert_eq!(b.normal, bits(0.0, 0.0, 1.0));
    for i in 0..3 {
        assert_eq!(a.vertices[i].x, b.vertices[i].x);
        assert_eq!(a.vertices[i].y, b.vertices[i].y);
        assert_eq!(a.vertices[i].z, 0.0f32.to_bits());
        assert_eq!(b.vertices[i].z, 1.0f32.to_bits());
    }
}

#[test]
fn ascii_numbers_are_read_as_the_nearest_values() {
    let text = "solid s
facet normal 1e-1 -2.5E+1 +.125
outer loop
vertex 0.1 0.2 0.3
vertex 16777217 1e39 -1e-46
vertex 3.4028235e38 1.17549435e-38 7.006492321624086e-46
endloop
endfacet
endsolid s
";
    let mut parser = Parser::from_buf(text.as_bytes().to_vec(), false).unwrap();
    parser.rewind();
    let t = parser.next_triangle().unwrap();
    assert_eq!(t.normal, bits(0.1, -25.0, 0.125));
    assert_eq!(t.vertices[0], bits(0.1, 0.2, 0.3));
    assert_eq!(t.vertices[1], bits(16777216.0, f32::INFINITY, -0.0));
    assert_eq!(t.vertices[2], bits(f32::MAX, f32::MIN_POSITIVE, f32::from_bits(1)));
    assert!(parser.next_triangle().is_none());
}

#[test]
fn data_without_a_count_field_is_refused() {
    assert_eq!(Parser::from_buf(vec![0u8; 83], false).err(), Some(StlError::Truncated));
    assert_eq!(Parser::from_buf(Vec::new(), true).err(), Some(StlError::Truncated));
    assert!(Parser::from_buf(vec![0u8; 84], false).is_ok());
}

#[test]
fn binary_count_is_the_declared_count() {
    let t = [[0.0, 0.0, 1.0], [-1.0, -1.0, 0.0], [1.0, -1.0, 0.0], [0.0, 1.0, 0.0]];
    for n in [0usize, 1, 2, 7, 100] {
        let file = binary_file(&vec![t; n]);
        let mut parser = Parser::from_buf(file, false).unwrap();
        assert_eq!(parser.stl_type(), StlType::Binary);
        assert_eq!(parser.triangle_count(), n as u64);
        assert_eq!(parser.read_all().len(), n);
    }
}

#[test]
fn binary_with_wrong_length_is_read_as_text() {
    let mut file = tri_bin();
    file.push(0);
    let mut parser = Parser::from_buf(file, false).unwrap();
    assert_eq!(parser.stl_type(), StlType::Ascii);
    assert_eq!(parser.triangle_count(), 0);
}

#[test]
fn binary_record_is_decoded_little_endian() {
    let mut file = vec![0u8; 80];
    file.extend_from_slice(&[1, 0, 0, 0]);
    let mut record = Vec::new();
    for k in 0..12u8 {
        record.extend_from_slice(&[k, 0x10 + k, 0x20 + k, 0x30 + k]);
    }
    record.extend_from_slice(&[0xAA, 0xBB]);
    file.extend_from_slice(&record);
    let mut parser = Parser::from_buf(file, false).unwrap();
    parser.rewind();
    let t = parser.next_triangle().unwrap();
    assert_eq!(t.normal, Vec3::new(0x3020_1000, 0x3121_1101, 0x3222_1202));
    assert_eq!(t.vertices[0], Vec3::new(0x3323_1303, 0x3424_1404, 0x3525_1505));
    assert_eq!(t.vertices[1], Vec3::new(0x3626_1606, 0x3727_1707, 0x3828_1808));
    assert_eq!(t.vertices[2], Vec3::new(0x3929_1909, 0x3A2A_1A0A, 0x3B2B_1B0B));
    assert!(parser.next_triangle().is_none());
}

#[test]
fn binary_opens_at_the_start_and_rewinds_to_the_first_record() {
    let mut parser = Parser::from_buf(tri_bin(), false).unwrap();
    // without a rewind the header is read as a record
    let first = parser.next_triangle().unwrap();
    assert_eq!(first.normal.x, 0x2020_2020);
    parser.rewind();
    let t = parser.next_triangle().unwrap();
    assert_eq!(t.normal, bits(0.0, 0.0, 1.0));
    assert!(parser.next_triangle().is_none());
    parser.rewind();
    assert!(parser.next_triangle().is_some());
}

#[test]
fn parsing_stops_at_the_first_line_that_does_not_fit() {
    let text = "solid s
facet normal 0 0 1
outer loop
vertex 0 0 0
vertex 1 0 0
vertex 0 1 0
endloop
endfacet
facet normal 0 0 1
outer loop
vertex 0 0 0
vertex 1 0 oops
vertex 0 1 0
endloop
endfacet
facet normal 0 0 1
outer loop
vertex 0 0 0
vertex 1 0 0
vertex 0 1 0
endloop
endfacet
endsolid s
";
    let mut parser = Parser::from_buf(text.as_bytes().to_vec(), false).unwrap();
    assert_eq!(parser.triangle_count(), 1);
    assert_eq!(parser.read_all().len(), 1);
}

#[test]
fn text_lines_may_be_indented_and_in_capitals() {
    let text = "  SOLID padded with enough text to be longer than the binary header is, which takes eighty-four bytes
\t FACET NORMAL 0 0 1E0
   OUTER LOOP
\u{a0}  VERTEX 1.5 -2 +3   trailing words
      vertex .5 2. 1e-3
      vertex4-5+6
   whatever
   whatever
endsolid
";
    let mut parser = Parser::from_buf(text.as_bytes().to_vec(), false).unwrap();
    let mesh = parser.read_all();
    assert_eq!(mesh.len(), 1);
    let t = *mesh.get(0);
    assert_eq!(t.normal, bits(0.0, 0.0, 1.0));
    assert_eq!(t.vertices[0], bits(1.5, -2.0, 3.0));
    assert_eq!(t.vertices[1], bits(0.5, 2.0, 0.001));
    assert_eq!(t.vertices[2], bits(4.0, -5.0, 6.0));
}

#[test]
fn a_line_that_is_not_text_ends_the_triangle() {
    let mut text = b"solid padded with enough text to be longer than the binary header is, which takes eighty-four bytes\nfacet normal 0 0 1\nouter \xff loop\nvertex 0 0 0\nvertex 1 0 0\nvertex 0 1 0\nendloop\nendfacet\n".to_vec();
    let mut parser = Parser::from_buf(text.clone(), false).unwrap();
    assert_eq!(parser.triangle_count(), 0);
    let at = text.iter().position(|b| *b == 0xff).unwrap();
    text[at] = b'x';
    let mut parser = Parser::from_buf(text, false).unwrap();
    assert_eq!(parser.triangle_count(), 1);
}

#[test]
fn text_without_an_opening_line_is_read_from_the_start() {
    let text = "facet normal 0 0 1
outer loop
vertex 0 0 0
vertex 1 0 0
vertex 0 1 0
endloop
endfacet
and some more text so that the data is long enough
";
    let mut parser = Parser::from_buf(text.as_bytes().to_vec(), false).unwrap();
    assert_eq!(parser.stl_type(), StlType::Ascii);
    assert_eq!(parser.triangle_count(), 1);
}

#[test]
fn missing_normal_is_computed_by_the_right_hand_rule() {
    let corners = [[0.0f32, 0.0, 0.0], [2.0, 0.0, 0.0], [0.0, 3.0, 0.0]];
    let zero = binary_file(&[[[0.0, 0.0, 0.0], corners[0], corners[1], corners[2]]]);
    let stored = binary_file(&[[[0.0, 1.0, 0.0], corners[0], corners[1], corners[2]]]);
    let not_a_number = binary_file(&[[[1.0, f32::NAN, 0.0], corners[0], corners[1], corners[2]]]);
    let normal = |file: &Vec<u8>, recalculate: bool| {
        let mut parser = Parser::from_buf(file.clone(), recalculate).unwrap();
        parser.read_all().get(0).normal
    };
    assert_eq!(normal(&zero, false), bits(0.0, 0.0, 1.0));
    assert_eq!(normal(&not_a_number, false), bits(0.0, 0.0, 1.0));
    assert_eq!(normal(&stored, false), bits(0.0, 1.0, 0.0));
    assert_eq!(normal(&stored, true), bits(0.0, 0.0, 1.0));
    // the other way round, the normal points the other way
    let turned = binary_file(&[[[0.0, 0.0, 0.0], corners[0], corners[2], corners[1]]]);
    assert_eq!(normal(&turned, false), bits(0.0, 0.0, -1.0));
}

#[test]
fn missing_normal_of_a_text_file_is_computed_too() {
    let text = |normal: &str| {
        format!(
            "solid s\nfacet normal {}\nouter loop\nvertex 0 0 0\nvertex 2 0 0\nvertex 0 3 0\nendloop\nendfacet\nendsolid s and some more text to make the data long enough\n",
            normal
        )
    };
    let normal = |normal: &str, recalculate: bool| {
        let mut parser = Parser::from_buf(text(normal).into_bytes(), recalculate).unwrap();
        assert_eq!(parser.stl_type(), StlType::Ascii);
        parser.read_all().get(0).normal
    };
    assert_eq!(normal("0 0 0", false), bits(0.0, 0.0, 1.0));
    assert_eq!(normal("-0 0.0 0e7", false), bits(0.0, 0.0, 1.0));
    assert_eq!(normal("0 1 0", false), bits(0.0, 1.0, 0.0));
    assert_eq!(normal("0 1 0", true), bits(0.0, 0.0, 1.0));
    assert_eq!(normal("1e-46 0 0", false), bits(0.0, 0.0, 1.0));
    assert_eq!(normal("1e-45 0 0", false), bits(1e-45, 0.0, 0.0));
}

#[test]
fn normal_policy() {
    assert!(!is_normal_missing(&bits(0.0, 0.0, 1.0)));
    assert!(is_normal_missing(&bits(0.0, 0.0, 0.0)));
    assert!(is_normal_missing(&bits(-0.0, 0.0, -0.0)));
    assert!(is_normal_missing(&bits(1.0, f32::NAN, 0.0)));
    assert!(is_normal_missing(&bits(f32::NAN, f32::NAN, f32::NAN)));
    assert!(!is_normal_missing(&bits(f32::INFINITY, 0.0, 0.0)));
    assert!(!is_normal_missing(&bits(0.0, 1e-45, 0.0)));
    let corners = [bits(0.0, 0.0, 0.0), bits(2.0, 0.0, 0.0), bits(0.0, 3.0, 0.0)];
    let stored = Triangle::new(corners, bits(0.0, 1.0, 0.0));
    assert_eq!(apply_normal_policy(&stored, false), stored);
    assert_eq!(apply_normal_policy(&stored, true).normal, bits(0.0, 0.0, 1.0));
    let missing = Triangle::new(corners, bits(0.0, -0.0, 0.0));
    assert_eq!(apply_normal_policy(&missing, false).normal, bits(0.0, 0.0, 1.0));
    assert_eq!(apply_normal_policy(&missing, false).vertices, corners);
}

/// What the scanning crate and the standard float parser make of a line.
fn scanned(line: &str, format: &str) -> Option<(Vec<u8>, Vec<u8>, Vec<u8>)> {
    let normalized = line.trim_start().to_ascii_lowercase();
    let mut res = scan_fmt::parse::scan(&normalized, format);
    let mut out = Vec::new();
    for _ in 0..3 {
        match res.next() {
            Some(item) => {
                if item.is_empty() || item.parse::<f32>().is_err() {
                    return None;
                }
                out.push(item.into_bytes());
            }
            None => return None,
        }
    }
    let z = out.pop().unwrap();
    let y = out.pop().unwrap();
    let x = out.pop().unwrap();
    Some((x, y, z))
}

#[test]
fn line_grammar_agrees_with_the_scanner() {
    let heads = ["facet normal", "FACET  NORMAL", "facetnormal", "f a c e t n o r m a l", "facet", "vertex", "facet normals", " \t facet normal", "\u{2003}facet normal", "\u{b}facet normal", "x facet normal", ""];
    let numbers = [
        "0", "1", "-1", "+1", "1.5", "-1.5e3", "1e5", "1E5", "1e+5", "1e-5", ".5", "5.", ".", "-", "+", "e5", "1e", "1e+", "1.2.3",
        "--1", "+-1", "1,5", "0x10", "nan", "inf", "1e400", "000", "-.5e-2", "1e5e5", "abc", "1_0", "9999999999", "٣",
    ];
    let seps = [" ", "  ", "\t", "", " \r"];
    let mut checked = 0;
    for head in heads.iter() {
        for a in numbers.iter() {
            for b in numbers.iter() {
                for sep in seps.iter() {
                    let line = format!("{}{}{}{}{}{}1.25 tail\n", head, sep, a, sep, b, sep);
                    let want = scanned(&line, "facet normal {f} {f} {f}");
                    let got = read_numbers(line.as_bytes(), Keyword::Facet);
                    assert_eq!(got, want, "line {:?}", line);
                    checked += 1;
                }
            }
        }
    }
    for a in numbers.iter() {
        for end in ["\n", " \n", "\r\n", " x\n"] {
            let line = format!("  Vertex {} {} {}{}", a, a, a, end);
            let want = scanned(&line, "vertex {f} {f} {f}");
            let got = read_numbers(line.as_bytes(), Keyword::Vertex);
            assert_eq!(got, want, "line {:?}", line);
            checked += 1;
        }
    }
    assert!(checked > 50000);
}
