use stl2thumbnail::picture::RGBA;
use stl2thumbnail::arith::{
    add_values, divide_values, int_to_value, multiply_values, root_value, subtract_values,
    value_to_i32, value_to_u32, whole_to_value, HALF, NOT_A_NUMBER,
};
use stl2thumbnail::mesh::Vec3;
use stl2thumbnail::rounding::{scale_to_byte, unit_to_byte};
use stl2thumbnail::vector::{cross, dot, normal_of, normalize, reverse, subtract3};
use stl2thumbnail::single::{
    greater_than, is_nan, is_zero, less_than, maximum, minimum, INFINITY, MAX, MIN, SIGN,
};

/// Bit patterns of every kind: zeros, subnormals, powers of two and their
/// neighbours, the limits, infinities, several that are not numbers, and a
/// spread of others.
fn samples() -> Vec<u32> {
    let mut out = vec![
        0, 1, 2, 0x007f_ffff, 0x0080_0000, 0x0080_0001, 0x3f7f_ffff, 0x3f80_0000, 0x3f80_0001,
        0x3b80_8080, 0x3b80_8081, 0x3b80_807f, 0x4000_0000, 0x437f_0000, 0x4380_0000, MAX,
        INFINITY, 0x7f80_0001, 0x7fc0_0000, 0x7fff_ffff,
    ];
    for e in 0..=255u32 {
        for f in [0u32, 1, 0x40_0000, 0x7f_ffff, 0x12_3456] {
            out.push((e << 23) | f);
        }
    }
    for k in 0..=255u32 {
        let v = k as f32 / 255.0;
        let b = v.to_bits();
        out.extend_from_slice(&[b, b.wrapping_sub(1), b.wrapping_add(1)]);
    }
    let mut state: u32 = 0x2545_f491;
    for _ in 0..20000 {
        state ^= state << 13;
        state ^= state >> 17;
        state ^= state << 5;
        out.push(state);
    }
    let with_sign: Vec<u32> = out.iter().map(|b| b | SIGN).collect();
    out.extend(with_sign);
    out
}

#[test]
fn constants_are_the_limits() {
    assert_eq!(MAX, f32::MAX.to_bits());
    assert_eq!(MIN, f32::MIN.to_bits());
    assert_eq!(INFINITY, f32::INFINITY.to_bits());
    assert_eq!(SIGN, (-0.0f32).to_bits());
}

#[test]
fn classification_agrees_with_the_machine() {
    for b in samples() {
        let v = f32::from_bits(b);
        assert_eq!(is_nan(b), v.is_nan(), "{:#x}", b);
        assert_eq!(is_zero(b), v == 0.0, "{:#x}", b);
    }
}

#[test]
fn order_agrees_with_the_machine() {
    let all = samples();
    let some: Vec<u32> = all.iter().copied().step_by(97).collect();
    for &a in some.iter() {
        for &b in all.iter().step_by(7) {
            let (x, y) = (f32::from_bits(a), f32::from_bits(b));
            assert_eq!(less_than(a, b), x < y, "{:#x} {:#x}", a, b);
            assert_eq!(greater_than(a, b), x > y, "{:#x} {:#x}", a, b);
            let lo = f32::from_bits(minimum(a, b));
            let hi = f32::from_bits(maximum(a, b));
            if x.is_nan() && y.is_nan() {
                assert!(lo.is_nan() && hi.is_nan());
            } else {
                assert_eq!(lo, x.min(y), "{:#x} {:#x}", a, b);
                assert_eq!(hi, x.max(y), "{:#x} {:#x}", a, b);
            }
        }
    }
}

#[test]
fn minimum_and_maximum_pick_exact_patterns() {
    let one = 1.0f32.to_bits();
    let two = 2.0f32.to_bits();
    let nan = f32::NAN.to_bits();
    assert_eq!(minimum(one, two), one);
    assert_eq!(minimum(two, one), one);
    assert_eq!(maximum(one, two), two);
    assert_eq!(minimum(nan, two), two);
    assert_eq!(maximum(one, nan), one);
    assert_eq!(minimum(0, SIGN), 0);
    assert_eq!(minimum(SIGN, 0), SIGN);
    assert_eq!(maximum(MIN, (-f32::INFINITY).to_bits()), MIN);
}

#[test]
fn scaling_agrees_with_the_machine() {
    let all = samples();
    for factor in 0..=255u32 {
        for &b in all.iter().step_by(if factor % 16 == 15 { 1 } else { 3 }) {
            let want = (factor as u8 as f32 * f32::from_bits(b)) as u8;
            assert_eq!(scale_to_byte(b, factor as u8), want, "{:#x} * {}", b, factor);
        }
    }
}

#[test]
fn unit_conversion_agrees_with_the_machine() {
    for b in samples() {
        let v = f32::from_bits(b);
        let want = (v.min(1.0).max(0.0) * 255.0) as u8;
        assert_eq!(unit_to_byte(b), want, "{:#x}", b);
    }
    assert_eq!(unit_to_byte(0.5f32.to_bits()), 127);
    assert_eq!(unit_to_byte(1.0f32.to_bits()), 255);
    assert_eq!(unit_to_byte(0.45f32.to_bits()), 114);
    assert_eq!(unit_to_byte((51.0f32 / 255.0).to_bits()), 51);
}

#[test]
fn alpha_scales_the_alpha_channel_only() {
    let c: RGBA = (10, 20, 30, 200).into();
    assert_eq!(c.alpha(0.5f32.to_bits()), (10, 20, 30, 100).into());
    assert_eq!(c.alpha(1.0f32.to_bits()), c);
    assert_eq!(c.alpha((-0.25f32).to_bits()), (10, 20, 30, 0).into());
    assert_eq!(c.alpha(7.0f32.to_bits()), (10, 20, 30, 255).into());
    assert_eq!(c.alpha(f32::NAN.to_bits()), (10, 20, 30, 0).into());
    for b in samples().into_iter().step_by(11) {
        let want = (200.0f32 * f32::from_bits(b)) as u8;
        assert_eq!(c.alpha(b).a, want, "{:#x}", b);
    }
}

fn same_value(got: u32, want: f32, what: &str, a: u32, b: u32) {
    if want.is_nan() {
        assert_eq!(got, NOT_A_NUMBER, "{:#x} {} {:#x}", a, what, b);
    } else {
        assert_eq!(got, want.to_bits(), "{:#x} {} {:#x}", a, what, b);
    }
}

#[test]
fn arithmetic_agrees_with_the_machine() {
    let all = samples();
    let left: Vec<u32> = all.iter().copied().step_by(61).collect();
    let right: Vec<u32> = all.iter().copied().step_by(23).collect();
    for &a in left.iter() {
        for &b in right.iter() {
            let (x, y) = (f32::from_bits(a), f32::from_bits(b));
            same_value(add_values(a, b), x + y, "+", a, b);
            same_value(subtract_values(a, b), x - y, "-", a, b);
            same_value(multiply_values(a, b), x * y, "*", a, b);
        }
    }
}

#[test]
fn arithmetic_on_neighbours_agrees_with_the_machine() {
    // values close to each other, where subtraction cancels digits, and
    // values whose exponents lie as far apart as rounding can still see
    let mut state: u32 = 0x1357_9bdf;
    let mut next = move || {
        state ^= state << 13;
        state ^= state >> 17;
        state ^= state << 5;
        state
    };
    for _ in 0..200000 {
        let a = next();
        let apart = next() % 30;
        let nudge = next() % 8;
        let b = (a ^ (next() & 0x8000_0000)).wrapping_sub(apart << 23).wrapping_add(nudge);
        let (x, y) = (f32::from_bits(a), f32::from_bits(b));
        same_value(add_values(a, b), x + y, "+", a, b);
        same_value(subtract_values(a, b), x - y, "-", a, b);
        same_value(multiply_values(a, b), x * y, "*", a, b);
        same_value(multiply_values(a, HALF), x * 0.5, "*", a, HALF);
    }
}

#[test]
fn arithmetic_on_special_values() {
    let inf = f32::INFINITY.to_bits();
    let neg_inf = f32::NEG_INFINITY.to_bits();
    let one = 1.0f32.to_bits();
    assert_eq!(add_values(one, one), 2.0f32.to_bits());
    assert_eq!(subtract_values(one, one), 0);
    assert_eq!(add_values(SIGN, SIGN), SIGN);
    assert_eq!(add_values(SIGN, 0), 0);
    assert_eq!(subtract_values(0, 0), 0);
    assert_eq!(subtract_values(SIGN, 0), SIGN);
    assert_eq!(add_values(inf, neg_inf), NOT_A_NUMBER);
    assert_eq!(subtract_values(inf, inf), NOT_A_NUMBER);
    assert_eq!(add_values(inf, inf), inf);
    assert_eq!(add_values(neg_inf, one), neg_inf);
    assert_eq!(multiply_values(inf, 0), NOT_A_NUMBER);
    assert_eq!(multiply_values(neg_inf, SIGN), NOT_A_NUMBER);
    assert_eq!(multiply_values(neg_inf, one), neg_inf);
    assert_eq!(multiply_values(MAX, MAX), inf);
    assert_eq!(add_values(MAX, MAX), inf);
    assert_eq!(multiply_values(1, HALF), 0);
    assert_eq!(multiply_values(3, HALF), 2);
    assert_eq!(multiply_values(one, f32::NAN.to_bits()), NOT_A_NUMBER);
    assert_eq!(multiply_values(0.1f32.to_bits(), 3.0f32.to_bits()), 0x3e99_999a);
    assert_eq!(add_values(0x3f80_0000, 0x3380_0000), 0x3f80_0000);
    assert_eq!(add_values(0x3f80_0000, 0x3380_0001), 0x3f80_0001);
}

#[test]
fn division_and_root_agree_with_the_machine() {
    let all = samples();
    let left: Vec<u32> = all.iter().copied().step_by(61).collect();
    let right: Vec<u32> = all.iter().copied().step_by(23).collect();
    for &a in left.iter() {
        for &b in right.iter() {
            let (x, y) = (f32::from_bits(a), f32::from_bits(b));
            same_value(divide_values(a, b), x / y, "/", a, b);
        }
    }
    for &a in all.iter() {
        same_value(root_value(a), f32::from_bits(a).sqrt(), "root", a, a);
    }
    for v in 0..200000u32 {
        let x = v as f32;
        assert_eq!(root_value(x.to_bits()), x.sqrt().to_bits(), "{}", v);
        assert_eq!(divide_values(x.to_bits(), 255.0f32.to_bits()), (x / 255.0).to_bits());
        assert_eq!(root_value((x * x).to_bits()), (x * x).sqrt().to_bits());
    }
    assert_eq!(divide_values(0, 0), NOT_A_NUMBER);
    assert_eq!(divide_values(1.0f32.to_bits(), 0), INFINITY);
    assert_eq!(divide_values(1.0f32.to_bits(), SIGN), (-f32::INFINITY).to_bits());
    assert_eq!(divide_values(INFINITY, INFINITY), NOT_A_NUMBER);
    assert_eq!(divide_values(1.0f32.to_bits(), 3.0f32.to_bits()), 0x3eaa_aaab);
    assert_eq!(root_value(2.0f32.to_bits()), 0x3fb5_04f3);
    assert_eq!(root_value((-1.0f32).to_bits()), NOT_A_NUMBER);
    assert_eq!(root_value(SIGN), SIGN);
}

#[test]
fn whole_numbers_pass_as_the_machine_passes_them() {
    let mut state: u64 = 0x9e37_79b9_7f4a_7c15;
    let mut next = move || {
        state ^= state << 13;
        state ^= state >> 7;
        state ^= state << 17;
        state
    };
    for _ in 0..300000 {
        let raw = next();
        let v = (raw >> (raw % 62 + 2)) as i64 * if raw & 1 == 0 { 1 } else { -1 };
        assert_eq!(int_to_value(v), (v as f32).to_bits(), "{}", v);
        assert_eq!(whole_to_value(v.unsigned_abs()), (v.unsigned_abs() as f32).to_bits());
        let small = (v % 70000) as i32;
        assert_eq!(int_to_value(small as i64), (small as f32).to_bits());
    }
    for v in [0i64, 1, -1, 16777215, 16777216, 16777217, 16777218, 16777219, 33554431, i32::MAX as i64, i32::MIN as i64] {
        assert_eq!(int_to_value(v), (v as f32).to_bits(), "{}", v);
    }
    for b in samples() {
        let x = f32::from_bits(b);
        assert_eq!(value_to_i32(b), x as i32, "{:#x}", b);
        assert_eq!(value_to_u32(b), x as u32, "{:#x}", b);
    }
    for x in [0.0f32, -0.0, 0.99, 1.0, 1.5, -1.5, 2147483520.0, 2147483648.0, -2147483648.0, -2147483904.0, 4294967040.0, 4294967296.0, 1e20, -1e20] {
        assert_eq!(value_to_i32(x.to_bits()), x as i32, "{}", x);
        assert_eq!(value_to_u32(x.to_bits()), x as u32, "{}", x);
    }
}

#[test]
fn vectors_agree_with_the_vector_library() {
    let mut state: u32 = 0x5eed_1234;
    let mut next = move || {
        state ^= state << 13;
        state ^= state >> 17;
        state ^= state << 5;
        (state % 200001) as f32 / 1000.0 - 100.0
    };
    for round in 0..50000 {
        let mut a = nalgebra_glm::vec3(next(), next(), next());
        let b = nalgebra_glm::vec3(next(), next(), next());
        let c = nalgebra_glm::vec3(next(), next(), next());
        if round % 9 == 0 {
            a = b;
        }
        let bits = |v: &nalgebra_glm::Vec3| Vec3::new(v.x.to_bits(), v.y.to_bits(), v.z.to_bits());
        let same = |got: Vec3, want: nalgebra_glm::Vec3| {
            for (g, w) in [(got.x, want.x), (got.y, want.y), (got.z, want.z)] {
                if w.is_nan() {
                    assert_eq!(g, NOT_A_NUMBER);
                } else {
                    assert_eq!(g, w.to_bits());
                }
            }
        };
        same(subtract3(&bits(&a), &bits(&b)), &a - &b);
        same(reverse(&bits(&a)), -a);
        same(cross(&bits(&a), &bits(&b)), a.cross(&b));
        assert_eq!(dot(&bits(&a), &bits(&b)), nalgebra_glm::dot(&a, &b).to_bits());
        same(normalize(&bits(&a)), a.normalize());
        same(normal_of(&bits(&a), &bits(&b), &bits(&c)), (&b - &a).cross(&(&c - &a)).normalize());
    }
}
