use stl2thumbnail::font::glyph;
use stl2thumbnail::picture::{Picture, RGBA};

fn rgba(r: u8, g: u8, b: u8, a: u8) -> RGBA {
    (r, g, b, a).into()
}

#[test]
fn test_rgba() {
    let rgba: RGBA =
        RGBA::from_unit(1.0f32.to_bits(), 0.5f32.to_bits(), (-1.0f32).to_bits(), 2.0f32.to_bits());
    assert_eq!(rgba, (255, 127, 0, 255).into());

    let rgba: RGBA = RGBA::from_hex("FF00FF00").unwrap();
    assert_eq!(rgba, (255, 0, 255, 0).into());
}

#[test]
fn new_picture_is_opaque_black() {
    let pic = Picture::new(3, 2);
    assert_eq!(pic.width(), 3);
    assert_eq!(pic.height(), 2);
    assert_eq!(pic.depth(), 4);
    assert_eq!(pic.stride(), 12);
    assert_eq!(pic.data().len(), 24);
    for y in 0..2 {
        for x in 0..3 {
            assert_eq!(pic.get(x, y), rgba(0, 0, 0, 255));
        }
    }
}

#[test]
fn empty_picture_has_no_bytes() {
    let mut pic = Picture::new(0, 5);
    assert_eq!(pic.data().len(), 0);
    pic.fill(&rgba(1, 2, 3, 4));
    pic.set(0, 0, &rgba(1, 2, 3, 4));
    pic.fill_rect(-5, -5, 5, 5, &rgba(1, 2, 3, 4));
    pic.line(-3, -3, 3, 3, &rgba(1, 2, 3, 4));
    pic.test_pattern();
    assert_eq!(pic.get(0, 0), rgba(0, 0, 0, 0));
    assert_eq!(pic.to_bgra().len(), 0);
}

#[test]
fn set_and_get_are_row_major_and_bounds_checked() {
    let mut pic = Picture::new(3, 2);
    pic.set(2, 1, &rgba(10, 20, 30, 40));
    assert_eq!(&pic.data()[20..24], &[10, 20, 30, 40]);
    assert_eq!(pic.get(2, 1), rgba(10, 20, 30, 40));
    let before = pic.data().to_vec();
    pic.set(3, 0, &rgba(9, 9, 9, 9));
    pic.set(0, 2, &rgba(9, 9, 9, 9));
    pic.set(u32::MAX, u32::MAX, &rgba(9, 9, 9, 9));
    assert_eq!(pic.data(), &before[..]);
    assert_eq!(pic.get(3, 0), rgba(0, 0, 0, 0));
    assert_eq!(pic.get(0, 2), rgba(0, 0, 0, 0));
}

#[test]
fn fill_sets_every_pixel() {
    let mut pic = Picture::new(4, 3);
    pic.fill(&rgba(1, 2, 3, 4));
    assert_eq!(pic.data(), &[1u8, 2, 3, 4].repeat(12)[..]);
}

#[test]
fn fill_rect_is_clipped_and_includes_both_corners() {
    let mut pic = Picture::new(4, 4);
    pic.fill(&rgba(0, 0, 0, 0));
    pic.fill_rect(1, 2, 10, 2, &rgba(7, 7, 7, 7));
    for y in 0..4 {
        for x in 0..4 {
            let want = if y == 2 && x >= 1 { rgba(7, 7, 7, 7) } else { rgba(0, 0, 0, 0) };
            assert_eq!(pic.get(x, y), want);
        }
    }
    pic.fill_rect(-3, -3, 0, 0, &rgba(8, 8, 8, 8));
    assert_eq!(pic.get(0, 0), rgba(8, 8, 8, 8));
    assert_eq!(pic.get(1, 0), rgba(0, 0, 0, 0));
    let before = pic.data().to_vec();
    pic.fill_rect(2, 2, 1, 1, &rgba(9, 9, 9, 9));
    pic.fill_rect(4, 0, 9, 9, &rgba(9, 9, 9, 9));
    pic.fill_rect(i32::MIN, i32::MIN, -1, i32::MAX, &rgba(9, 9, 9, 9));
    assert_eq!(pic.data(), &before[..]);
    pic.fill_rect(i32::MIN, i32::MIN, i32::MAX, i32::MAX, &rgba(5, 5, 5, 5));
    assert_eq!(pic.data(), &[5u8; 64][..]);
}

fn lit(pic: &Picture) -> Vec<(u32, u32)> {
    let mut out = Vec::new();
    for y in 0..pic.height() {
        for x in 0..pic.width() {
            if pic.get(x, y) == rgba(255, 255, 255, 255) {
                out.push((x, y));
            }
        }
    }
    out
}

/// The textbook form of the line walk, with its running error term.
fn walked_line(x0: i32, y0: i32, x1: i32, y1: i32) -> Vec<(i32, i32)> {
    let mut out = Vec::new();
    let (mut x, mut y) = (x0, y0);
    let dx = (x1 - x0).abs();
    let sx = if x0 < x1 { 1 } else { -1 };
    let dy = -(y1 - y0).abs();
    let sy = if y0 < y1 { 1 } else { -1 };
    let mut err = dx + dy;
    loop {
        out.push((x, y));
        if x == x1 && y == y1 {
            break;
        }
        let e2 = 2 * err;
        if e2 > dy {
            err += dy;
            x += sx;
        }
        if e2 <= dx {
            err += dx;
            y += sy;
        }
    }
    out
}

#[test]
fn line_draws_the_expected_pixels() {
    let white = rgba(255, 255, 255, 255);
    let mut pic = Picture::new(6, 4);
    pic.line(0, 0, 5, 2, &white);
    assert_eq!(lit(&pic), vec![(0, 0), (1, 0), (2, 1), (3, 1), (4, 2), (5, 2)]);

    let mut pic = Picture::new(3, 3);
    pic.line(1, 1, 1, 1, &white);
    assert_eq!(lit(&pic), vec![(1, 1)]);

    let mut pic = Picture::new(4, 4);
    pic.line(3, 3, 0, 0, &white);
    assert_eq!(lit(&pic), vec![(0, 0), (1, 1), (2, 2), (3, 3)]);
}

#[test]
fn line_agrees_with_the_running_error_walk() {
    let white = rgba(255, 255, 255, 255);
    let ends = [-7, -2, 0, 1, 3, 8, 13];
    for &x0 in ends.iter() {
        for &y0 in ends.iter() {
            for &x1 in ends.iter() {
                for &y1 in ends.iter() {
                    let mut pic = Picture::new(10, 9);
                    pic.line(x0, y0, x1, y1, &white);
                    let mut want: Vec<(u32, u32)> = walked_line(x0, y0, x1, y1)
                        .into_iter()
                        .filter(|p| p.0 >= 0 && p.0 < 10 && p.1 >= 0 && p.1 < 9)
                        .map(|p| (p.1 as u32, p.0 as u32))
                        .collect();
                    want.sort();
                    want.dedup();
                    let got: Vec<(u32, u32)> = lit(&pic).into_iter().map(|p| (p.1, p.0)).collect();
                    assert_eq!(got, want, "{} {} {} {}", x0, y0, x1, y1);
                }
            }
        }
    }
}

#[test]
fn line_takes_extreme_end_points() {
    let mut pic = Picture::new(2, 2);
    pic.line(i32::MIN, 1, i32::MIN + 1000, 1, &rgba(1, 1, 1, 1));
    pic.line(0, i32::MAX - 5, 0, i32::MAX, &rgba(1, 1, 1, 1));
    assert_eq!(pic.data(), &[0u8, 0, 0, 255].repeat(4)[..]);
}

#[test]
fn to_bgra_swaps_red_and_blue() {
    let mut pic = Picture::new(2, 1);
    pic.set(0, 0, &rgba(1, 2, 3, 4));
    pic.set(1, 0, &rgba(5, 6, 7, 8));
    assert_eq!(pic.to_bgra(), vec![3, 2, 1, 4, 7, 6, 5, 8]);
    assert_eq!(pic.data(), &[1, 2, 3, 4, 5, 6, 7, 8]);
}

#[test]
fn boxed_slice_is_a_copy() {
    let mut pic = Picture::new(2, 1);
    pic.set(1, 0, &rgba(5, 6, 7, 8));
    let copy = pic.data_as_boxed_slice();
    assert_eq!(&copy[..], &[0, 0, 0, 255, 5, 6, 7, 8]);
    pic.set(1, 0, &rgba(9, 9, 9, 9));
    assert_eq!(&copy[..], &[0, 0, 0, 255, 5, 6, 7, 8]);
}

#[test]
fn test_pattern_marks_the_diagonal() {
    let mut pic = Picture::new(3, 2);
    pic.test_pattern();
    for y in 0..2 {
        for x in 0..3 {
            let want = if x == y { rgba(255, 0, 0, 0) } else { rgba(0, 0, 0, 255) };
            assert_eq!(pic.get(x, y), want);
        }
    }
}

/// The same compositing with machine floats.
fn over_by_floats(a: RGBA, b: RGBA) -> RGBA {
    let alpha_a = a.a as f32 / 255.0;
    let alpha_b = b.a as f32 / 255.0;
    let alpha_c = alpha_a + (1.0 - alpha_a) * alpha_b;
    let above = alpha_a / alpha_c;
    let below = ((1.0 - alpha_a) * alpha_b) / alpha_c;
    let mix = |x: u8, y: u8| ((x as f32 * above) as u8 as i32 + (y as f32 * below) as u8 as i32) as u8;
    RGBA { r: mix(a.r, b.r), g: mix(a.g, b.g), b: mix(a.b, b.b), a: (alpha_c * 255.0) as u8 }
}

#[test]
fn over_composites() {
    let red = rgba(255, 0, 0, 255);
    let blue = rgba(0, 0, 255, 255);
    assert_eq!(red.over(blue), red);
    assert_eq!(rgba(255, 0, 0, 0).over(blue), blue);
    assert_eq!(rgba(9, 9, 9, 0).over(rgba(7, 7, 7, 0)), rgba(0, 0, 0, 0));
    assert_eq!(rgba(10, 20, 30, 40).over(rgba(0, 0, 0, 0)), rgba(10, 20, 30, 40));
    // half of red over opaque blue: 128/255 and 127/255 in single precision,
    // the second product falling just short of 127
    assert_eq!(rgba(255, 0, 0, 128).over(blue), rgba(128, 0, 126, 255));
    // over a translucent ground the alpha is 100/255 + 155/255 * 50/255
    assert_eq!(rgba(200, 100, 0, 100).over(rgba(0, 100, 200, 50)), rgba(153, 99, 46, 130));
}

#[test]
fn over_agrees_with_machine_floats() {
    let channels = [(255u8, 0u8), (0, 255), (200, 100), (17, 93), (255, 255), (128, 128), (1, 254), (254, 1), (77, 77)];
    for alpha_a in 0..=255u8 {
        for alpha_b in 0..=255u8 {
            for &(x, y) in channels.iter() {
                let a = rgba(x, y, x ^ y, alpha_a);
                let b = rgba(y, x, 255 - x, alpha_b);
                assert_eq!(a.over(b), over_by_floats(a, b), "{:?} over {:?}", a, b);
            }
        }
    }
}

#[test]
fn alpha_blend_draws_over_the_pixel() {
    let mut pic = Picture::new(2, 2);
    pic.fill(&rgba(0, 0, 255, 255));
    pic.alpha_blend(1, 0, rgba(255, 0, 0, 128));
    assert_eq!(pic.get(1, 0), rgba(128, 0, 126, 255));
    assert_eq!(pic.get(0, 0), rgba(0, 0, 255, 255));
    let before = pic.data().to_vec();
    pic.alpha_blend(2, 0, rgba(255, 0, 0, 128));
    pic.alpha_blend(0, 2, rgba(255, 0, 0, 128));
    assert_eq!(pic.data(), &before[..]);
}

/// How the standard library reads the text of a colour.
fn std_hex(text: &str) -> Option<RGBA> {
    if text.len() != 8 || !(0..=8).all(|i| text.is_char_boundary(i)) && !text.is_ascii() {
        return None;
    }
    if !text.is_ascii() {
        return None;
    }
    let part = |i: usize| i32::from_str_radix(&text[i..i + 2], 16).ok().map(|v| v as u8);
    Some(rgba(part(0)?, part(2)?, part(4)?, part(6)?))
}

#[test]
fn from_hex_reads_what_the_standard_parser_reads() {
    assert_eq!(RGBA::from_hex("333333FF"), Some(rgba(0x33, 0x33, 0x33, 0xff)));
    assert_eq!(RGBA::from_hex("e6E6e6fF"), Some(rgba(0xe6, 0xe6, 0xe6, 0xff)));
    assert_eq!(RGBA::from_hex("FF00FF0"), None);
    assert_eq!(RGBA::from_hex("FF00FF000"), None);
    assert_eq!(RGBA::from_hex(""), None);
    assert_eq!(RGBA::from_hex("GG000000"), None);
    assert_eq!(RGBA::from_hex("ÿÿÿÿ"), None);
    let pieces = ["00", "ff", "Fe", "+a", "-1", "-0", "+0", "-f", "0x", "g0", " 1", "1 ", "++", "--", "+-", "a+", "é"];
    for a in pieces.iter() {
        for b in pieces.iter() {
            let text = format!("{}{}{}12", a, b, a);
            assert_eq!(RGBA::from_hex(&text), std_hex(&text), "{:?}", text);
            let text = format!("7f{}{}{}", b, a, b);
            assert_eq!(RGBA::from_hex(&text), std_hex(&text), "{:?}", text);
        }
    }
}

fn thick(pic: &mut Picture, x0: i32, y0: i32, x1: i32, y1: i32, rgba: &RGBA, width: f32) {
    pic.thick_line(x0, y0, x1, y1, rgba, width.to_bits());
}

/// The same line drawn pixel by pixel with float distances throughout.
fn thick_by_floats(pic: &mut Picture, mut x0: i32, mut y0: i32, x1: i32, y1: i32, rgba: &RGBA, width: f32) {
    let dx = (x1 - x0).abs();
    let dy = (y1 - y0).abs();
    let sx = if x0 < x1 { 1 } else { -1 };
    let sy = if y0 < y1 { 1 } else { -1 };
    let mut err = dx - dy;
    let ed = if dx + dy == 0 { 1.0 } else { ((dx * dx + dy * dy) as f32).sqrt() };
    let mut x2;
    let mut y2;
    let mut e2;
    let wd = (width + 1.0) / 2.0;
    loop {
        let a = 1.0 - ((err - dx + dy).abs() as f32 / ed - wd).max(0.0);
        pic.alpha_blend(x0 as u32, y0 as u32, rgba.alpha(a.to_bits()));
        e2 = err;
        x2 = x0;
        if 2 * e2 >= -dx {
            e2 += dy;
            y2 = y0;
            while (e2 as f32) < ed * wd && (y1 != y2 || dx > dy) {
                e2 += dx;
                y2 += sy;
                let a = 1.0 - (e2.abs() as f32 / ed - wd).max(0.0);
                pic.alpha_blend(x0 as u32, y2 as u32, rgba.alpha(a.to_bits()));
            }
            if x0 == x1 {
                break;
            }
            e2 = err;
            err -= dy;
            x0 += sx;
        }
        if 2 * e2 <= dy {
            e2 = dx - e2;
            while (e2 as f32) < ed * wd && (x1 != x2 || dx < dy) {
                e2 += dy;
                x2 += sx;
                let a = 1.0 - (e2.abs() as f32 / ed - wd).max(0.0);
                pic.alpha_blend(x2 as u32, y0 as u32, rgba.alpha(a.to_bits()));
            }
            if y0 == y1 {
                break;
            }
            err += dx;
            y0 += sy;
        }
    }
}

#[test]
fn thick_line_agrees_with_float_distances() {
    let ends = [-9, -1, 0, 2, 5, 11, 16, 23, 40];
    let widths = [1.0f32, 3.0, 4.0, 0.0, 2.5, 0.3, -1.0, -3.0, 9.0, f32::NAN];
    let colours = [rgba(255, 0, 0, 255), rgba(10, 200, 30, 128), rgba(1, 2, 3, 0), rgba(0, 0, 255, 1)];
    let mut n = 0usize;
    for &x0 in ends.iter() {
        for &y0 in ends.iter() {
            for &x1 in ends.iter() {
                for &y1 in ends.iter() {
                    for turn in 0..3 {
                        n += 1;
                        let width = widths[(n + turn) % widths.len()];
                        let colour = colours[(n / 3) % colours.len()];
                        let mut one = Picture::new(24, 20);
                        let mut two = Picture::new(24, 20);
                        if n % 2 == 0 {
                            one.fill(&rgba(255, 255, 255, 255));
                            two.fill(&rgba(255, 255, 255, 255));
                        } else {
                            one.fill(&rgba(9, 99, 199, 60));
                            two.fill(&rgba(9, 99, 199, 60));
                        }
                        thick(&mut one, x0, y0, x1, y1, &colour, width);
                        thick_by_floats(&mut two, x0, y0, x1, y1, &colour, width);
                        assert_eq!(one.data(), two.data(), "{} {} {} {} width {}", x0, y0, x1, y1, width);
                    }
                }
            }
        }
    }
}

#[test]
fn thick_line_draws_its_centre_and_its_flanks() {
    let white = rgba(255, 255, 255, 255);
    let red = rgba(255, 0, 0, 255);
    // a level line of width one: full colour on the row, nothing beside it
    let mut pic = Picture::new(8, 5);
    pic.fill(&white);
    thick(&mut pic, 1, 2, 6, 2, &red, 1.0);
    for y in 0..5 {
        for x in 0..8 {
            let want = if y == 2 && (1..=6).contains(&x) { red } else { white };
            assert_eq!(pic.get(x, y), want, "{} {}", x, y);
        }
    }
    // a point
    let mut pic = Picture::new(3, 3);
    pic.fill(&white);
    thick(&mut pic, 1, 1, 1, 1, &red, 1.0);
    assert_eq!(pic.get(1, 1), red);
    assert_eq!(pic.get(0, 1), white);
    // with a width that is not a number only the centre line is drawn
    let mut pic = Picture::new(3, 3);
    pic.fill(&white);
    thick(&mut pic, 0, 0, 2, 2, &red, f32::NAN);
    for y in 0..3 {
        for x in 0..3 {
            assert_eq!(pic.get(x, y), if x == y { red } else { white });
        }
    }
}

fn from_floats(r: f32, g: f32, b: f32, a: f32) -> RGBA {
    RGBA::from_unit(r.to_bits(), g.to_bits(), b.to_bits(), a.to_bits())
}

/// Strokes one letter with float coordinates throughout.
fn letter_by_floats(pic: &mut Picture, x: u32, y: u32, c: char, char_size: f32, rgba: &RGBA) {
    for s in glyph(c).iter() {
        let x0 = (s.x0 as f32 * 0.5) * char_size * 0.7 + x as f32;
        let y0 = (s.y0 as f32 * 0.5) * char_size + y as f32;
        let x1 = (s.x1 as f32 * 0.5) * char_size * 0.7 + x as f32;
        let y1 = (s.y1 as f32 * 0.5) * char_size + y as f32;
        thick_by_floats(pic, x0 as i32, y0 as i32, x1 as i32, y1 as i32, rgba, 3.0);
    }
}

fn string_by_floats(pic: &mut Picture, x: u32, y: u32, s: &str, char_size: f32, rgba: &RGBA) {
    let mut i = 0;
    for c in s.chars() {
        letter_by_floats(pic, x + i * (char_size * 0.7 + 6.0) as u32, y, c, char_size, rgba);
        i += 1;
    }
}

#[test]
fn letters_agree_with_float_coordinates() {
    let black = rgba(0, 0, 0, 255);
    for (k, size) in [10.0f32, 8.0, 16.0, 7.5, 1.0, 0.0, 33.3, 12.25].iter().enumerate() {
        let mut one = Picture::new(96, 64);
        let mut two = Picture::new(96, 64);
        one.fill(&rgba(255, 255, 255, 255));
        two.fill(&rgba(255, 255, 255, 255));
        for (i, c) in "0123456789xm?".chars().enumerate() {
            let (x, y) = (2 + 7 * i as u32, 3 + k as u32);
            one.stroke_letter(x, y, c, size.to_bits(), &black);
            letter_by_floats(&mut two, x, y, c, *size, &black);
        }
        one.stroke_string(1, 30, "12x55x7 mm", size.to_bits(), &rgba(200, 10, 10, 180));
        string_by_floats(&mut two, 1, 30, "12x55x7 mm", *size, &rgba(200, 10, 10, 180));
        assert_eq!(one.data(), two.data(), "size {}", size);
    }
}

#[test]
fn test_line() {
    let mut pic = Picture::new(512, 512);
    pic.fill(&from_floats(1.0, 1.0, 1.0, 1.0));

    thick(&mut pic, 0, 0, 512, 512, &from_floats(1.0, 0.0, 0.0, 1.0), 4.0);
    thick(&mut pic, 0, 0, 256, 512, &from_floats(1.0, 0.0, 0.0, 1.0), 4.0);
    thick(&mut pic, 0, 256, 512, 256, &from_floats(1.0, 0.0, 0.0, 1.0), 4.0);
    thick(&mut pic, 512, 0, 0, 512, &from_floats(1.0, 0.0, 0.0, 1.0), 1.0);

    thick(&mut pic, 0, 256, 512, 256, &from_floats(1.0, 0.0, 0.0, 1.0), 1.0);
    thick(&mut pic, 256, 0, 256, 512, &from_floats(1.0, 0.0, 0.0, 1.0), 1.0);

    // plot chars
    let mut i = 0;
    for c in ['0', '1', '2', '3', '4', '5', '6', '7', '8', '9', 'x', 'm'].iter() {
        pic.stroke_letter(100 + i * 14, 100, *c, 10.0f32.to_bits(), &RGBA::from_hex("000000FF").unwrap());
        i += 1;
    }

    pic.stroke_string(100, 200, "12x55mm", 10.0f32.to_bits(), &RGBA::from_hex("E6E6E6FF").unwrap());

    // the lines cross in the middle, and the letters stand where they were put
    assert_eq!(pic.get(256, 256), rgba(255, 0, 0, 255));
    assert_eq!(pic.get(256, 10), rgba(255, 0, 0, 255));
    assert_eq!(pic.get(400, 100), rgba(255, 255, 255, 255));
    // the upright stroke of the `1`, seven pixels right of where the letter begins
    assert_eq!(pic.get(121, 105), rgba(0, 0, 0, 255));
    assert_eq!(pic.get(107, 205), rgba(0xe6, 0xe6, 0xe6, 255));
    assert_eq!(pic.data().len(), 512 * 512 * 4);
}

#[test]
fn colours_are_scaled_and_added_channel_by_channel() {
    let c: RGBA = (200, 100, 3, 77).into();
    assert_eq!(c.times(0.5f32.to_bits()), (100, 50, 1, 77).into());
    assert_eq!(c.times(2.0f32.to_bits()), (255, 200, 6, 77).into());
    assert_eq!(c.times((-1.0f32).to_bits()), (0, 0, 0, 77).into());
    assert_eq!(c.times(f32::NAN.to_bits()), (0, 0, 0, 77).into());
    assert_eq!(c.plus(&(100, 100, 253, 200).into()), (44, 200, 0, 21).into());
    let mut state: u32 = 0x1234_5678;
    for _ in 0..20000 {
        state ^= state << 13;
        state ^= state >> 17;
        state ^= state << 5;
        let a: RGBA = ((state >> 24) as u8, (state >> 16) as u8, (state >> 8) as u8, state as u8).into();
        let factor = (state % 3001) as f32 / 1000.0 - 0.5;
        let want: RGBA = (
            (a.r as f32 * factor) as u8,
            (a.g as f32 * factor) as u8,
            (a.b as f32 * factor) as u8,
            a.a,
        )
            .into();
        assert_eq!(a.times(factor.to_bits()), want);
        let b: RGBA = (a.g, a.b, a.a, a.r).into();
        let sum: RGBA = (
            (a.r as i32 + b.r as i32) as u8,
            (a.g as i32 + b.g as i32) as u8,
            (a.b as i32 + b.b as i32) as u8,
            (a.a as i32 + b.a as i32) as u8,
        )
            .into();
        assert_eq!(a.plus(&b), sum);
    }
}
