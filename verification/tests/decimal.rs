use stl2thumbnail::decimal::{round_decimal, value_of};
use stl2thumbnail::whole::Whole;

fn machine(text: &str) -> u32 {
    text.parse::<f32>().unwrap().to_bits()
}

fn agree(text: &str) {
    assert_eq!(value_of(text.as_bytes()), machine(text), "{}", text);
}

#[test]
fn plain_numbers_have_their_values() {
    assert_eq!(value_of(b"0"), 0);
    assert_eq!(value_of(b"-0"), 0x8000_0000);
    assert_eq!(value_of(b"1"), 0x3f80_0000);
    assert_eq!(value_of(b"-1"), 0xbf80_0000);
    assert_eq!(value_of(b"+1"), 0x3f80_0000);
    assert_eq!(value_of(b"0.5"), 0x3f00_0000);
    assert_eq!(value_of(b".5"), 0x3f00_0000);
    assert_eq!(value_of(b"5."), 0x40a0_0000);
    assert_eq!(value_of(b"1.5e1"), 0x4170_0000);
    assert_eq!(value_of(b"1e+2"), 0x42c8_0000);
    assert_eq!(value_of(b"25e-2"), 0x3e80_0000);
    assert_eq!(value_of(b"0.1"), 0x3dcc_cccd);
    assert_eq!(value_of(b"3.1415927"), 0x4049_0fdb);
}

#[test]
fn numbers_at_the_edges_agree_with_the_machine() {
    for text in [
        "0",
        "0.0",
        "-0.0",
        "0e0",
        "0e99999999999999999999999999999999999999999999",
        "0e-99999999999999999999999999999999999999999999",
        "1e-45",
        "1.401298464324817e-45",
        "7.006492321624085e-46",
        "7.006492321624086e-46",
        "7.0064923216240853546186479164495806564013097093825788587853e-46",
        "7.0064923216240853546186479164495806564013097093825788587854e-46",
        "2.1019476964872256e-45",
        "1.1754942e-38",
        "1.1754943e-38",
        "1.1754944e-38",
        "1.17549435e-38",
        "3.4028234e38",
        "3.4028235e38",
        "3.4028236e38",
        "3.40282356e38",
        "3.40282357e38",
        "340282356779733661637539395458142568447",
        "340282356779733661637539395458142568448",
        "340282356779733661637539395458142568449",
        "3.5e38",
        "1e39",
        "1e38",
        "1e200",
        "1e201",
        "1e-200",
        "1e-201",
        "1e999999999999999999999999999999999999999",
        "1e-999999999999999999999999999999999999999",
        "-1e999999999999999999999999999999999999999",
        "-1e-999999999999999999999999999999999999999",
        "16777216",
        "16777217",
        "16777218",
        "16777219",
        "16777217.0000000000000000000000000000000000000000000000000000000000001",
        "16777216.9999999999999999999999999999999999999999999999999999999999999",
        "16777219.0000000000000000000000000000000000000000000000000000000000001",
        "0.000000000000000000000000000000000000000000001",
        "00000000000000000000000000000000000000000000000000000000000000000001",
        "1.00000000000000000000000000000000000000000000000000000000000000000e0",
        "100000000000000000000000000000000000000000000000000e-50",
        "0.1e1",
        "9007199254740993",
        "1.00000005960464477539062",
        "1.000000059604644775390625",
        "1.000000059604644775390626",
        "1.00000017881393432617187",
        "1.000000178813934326171875",
        "1.000000178813934326171876",
        "4294967295",
        "4294967296",
        "18446744073709551615",
        "18446744073709551616",
        "123456789012345678901234567890123456789",
        "0.3",
        "1e10",
        "1e22",
        "1e23",
        "8.5",
        "1.17549421069244107548702944484928734882705242874589333861936e-38",
    ] {
        agree(text);
    }
}

#[test]
fn long_numbers_agree_with_the_machine() {
    // a thousand digits before the point, and as many behind it
    let mut text = String::new();
    for i in 0..1000 {
        text.push(char::from(b'0' + (i * 7 % 10) as u8));
    }
    agree(&format!("{}e-990", text));
    agree(&format!("{}e-1000", text));
    agree(&format!("{}e-1040", text));
    agree(&format!("0.{}", text));
    agree(&format!("0.{}e30", text));
    agree(&format!("{}.{}e-970", text, text));
    // zeros in front do not count
    let zeros = "0".repeat(5000);
    agree(&format!("{}1", zeros));
    agree(&format!("0.{}1", zeros));
    agree(&format!("0.{}1e5000", zeros));
    agree(&format!("0.{}1e5001", zeros));
    agree(&format!("0.{}123456789e5010", zeros));
    agree(&format!("1{}e-5000", zeros));
    agree(&format!("1{}", zeros));
    // the half between two values, and a digit far behind it
    let half = "1.000000059604644775390625";
    agree(&format!("{}{}", half, "0".repeat(900)));
    agree(&format!("{}{}1", half, "0".repeat(900)));
    // the half of the least value, written out
    let least = "0.000000000000000000000000000000000000000000000700649232162408535461864791644958065640130970938257885878534141944895541342930300743319094181060791015625";
    agree(least);
    agree(&format!("{}{}1", least, "0".repeat(500)));
    agree(&least[..least.len() - 1]);
}

#[test]
fn generated_numbers_agree_with_the_machine() {
    let mut state: u64 = 0x2545_f491_4f6c_dd1d;
    let mut next = move |bound: u64| {
        state ^= state << 13;
        state ^= state >> 7;
        state ^= state << 17;
        state % bound
    };
    for round in 0..200000 {
        let mut text = String::new();
        match next(3) {
            0 => text.push('-'),
            1 => {
                if round % 5 == 0 {
                    text.push('+')
                }
            }
            _ => {}
        }
        let before = next(12);
        let behind = next(14);
        for _ in 0..before {
            text.push(char::from(b'0' + next(10) as u8));
        }
        if behind > 0 || next(4) == 0 {
            text.push('.');
            for _ in 0..behind {
                text.push(char::from(b'0' + next(10) as u8));
            }
        }
        if before + behind == 0 {
            text.push('7');
        }
        if next(2) == 0 {
            text.push('e');
            match next(3) {
                0 => text.push('-'),
                1 => text.push('+'),
                _ => {}
            }
            let wide = if next(8) == 0 { 400 } else { 50 };
            text.push_str(&format!("{}", next(wide)));
        }
        agree(&text);
    }
}

#[test]
fn every_value_is_read_back_from_its_shortest_text() {
    let mut bits: u32 = 0;
    loop {
        let value = f32::from_bits(bits);
        if value.is_finite() {
            let text = format!("{}", value);
            assert_eq!(value_of(text.as_bytes()), bits, "{}", text);
            let text = format!("{:e}", value);
            assert_eq!(value_of(text.as_bytes()), bits, "{}", text);
        }
        match bits.checked_add(0x0001_0f37) {
            Some(more) => bits = more,
            None => break,
        }
    }
}

#[test]
fn halves_between_values_go_to_the_even_one() {
    // the exact half between two neighbours, from their doubles
    let mut bits: u32 = 1;
    while bits < 0x7f7f_0000 {
        let low = f32::from_bits(bits) as f64;
        let high = f32::from_bits(bits + 1) as f64;
        let half = (low + high) / 2.0;
        let text = format!("{:e}", half);
        agree(&text);
        let even = if bits % 2 == 0 { bits } else { bits + 1 };
        // the double's shortest text is the double's exact value only up to
        // rounding, so the exact half is written with all its digits
        let exact = format!("{:.400e}", half);
        assert_eq!(value_of(exact.as_bytes()), even, "{}", exact);
        agree(&exact);
        bits += 0x0003_1415;
    }
}

#[test]
fn whole_numbers_round_with_their_power_of_ten() {
    let mut big = Whole::zero();
    big.times_plus(10, 7);
    assert_eq!(round_decimal(big, 1, 0), 7.0f32.to_bits());
    let mut big = Whole::zero();
    big.times_plus(10, 7);
    assert_eq!(round_decimal(big, 1, 3), 7000.0f32.to_bits());
    let mut big = Whole::zero();
    big.times_plus(10, 7);
    assert_eq!(round_decimal(big, 1, -3), 0.007f32.to_bits());
    assert_eq!(round_decimal(Whole::zero(), 0, 12), 0);
}

#[test]
fn whole_numbers_multiply_and_divide() {
    let mut big = Whole::zero();
    assert_eq!(big.digits(), 0);
    big.times_plus(0xffff_ffff, 0xffff_ffff);
    assert_eq!(big.small(), 0xffff_ffff);
    big.times_plus(0xffff_ffff, 0xffff_ffff);
    assert_eq!(big.small(), 0xffff_ffffu64 * 0xffff_ffff + 0xffff_ffff);
    assert_eq!(big.digits(), 2);
    big.gain_digit();
    assert_eq!(big.digits(), 3);
    assert_eq!(big.divide_by(7), ((0xffff_ffffu128 << 32 << 32) % 7) as u32);
    assert_eq!(big.lose_digit(), (((0xffff_ffffu128 << 32 << 32) / 7) % (1 << 32)) as u32);
    big.trim();
    assert_eq!(big.small(), ((0xffff_ffffu128 << 32 << 32) / 7 >> 32) as u64);
    let mut big = Whole::zero();
    big.times_plus(1, 5);
    big.gain_digit();
    assert_eq!(big.small(), 5 << 32);
    assert_eq!(big.divide_by(3), 2);
    assert_eq!(big.small(), (5u64 << 32) / 3);
    big.times_plus(0, 0);
    big.trim();
    assert_eq!(big.digits(), 0);
    assert_eq!(big.small(), 0);
}
