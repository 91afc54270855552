use streamchat::hexpath::{generate_map, generate_map_seeded, get_color, Grid, SimplePrng};
use streamchat::hextool::{decode_hex_bytes, hex_to_bytes, parse_offset, parse_unsigned_range, IntErrorKind};
use streamchat::text::decimal_string;
use streamchat::wordfreq::format_number;

#[test]
fn format_number_groups_thousands() {
    assert_eq!(format_number(0), "0");
    assert_eq!(format_number(7), "7");
    assert_eq!(format_number(999), "999");
    assert_eq!(format_number(1000), "1,000");
    assert_eq!(format_number(12345), "12,345");
    assert_eq!(format_number(123456), "123,456");
    assert_eq!(format_number(1234567), "1,234,567");
    assert_eq!(format_number(usize::MAX), "18,446,744,073,709,551,615");
}

#[test]
fn decimal_numerals() {
    assert_eq!(decimal_string(0), "0");
    assert_eq!(decimal_string(10), "10");
    assert_eq!(decimal_string(4096), "4096");
    assert_eq!(decimal_string(u64::MAX), "18446744073709551615");
}

#[test]
fn parse_offset_decimal_and_hex() {
    assert_eq!(parse_offset("0"), Ok(0));
    assert_eq!(parse_offset("1234"), Ok(1234));
    assert_eq!(parse_offset("0x10"), Ok(16));
    assert_eq!(parse_offset("0XfF"), Ok(255));
    assert_eq!(parse_offset("+12"), Ok(12));
    assert_eq!(parse_offset("18446744073709551615"), Ok(u64::MAX));
    assert_eq!(parse_offset("0xFFFFFFFFFFFFFFFF"), Ok(u64::MAX));
}

#[test]
fn parse_offset_errors() {
    assert_eq!(
        parse_offset(""),
        Err("Invalid decimal offset: cannot parse integer from empty string".to_string())
    );
    assert_eq!(
        parse_offset("12a"),
        Err("Invalid decimal offset: invalid digit found in string".to_string())
    );
    assert_eq!(
        parse_offset("0x"),
        Err("Invalid hex offset: cannot parse integer from empty string".to_string())
    );
    assert_eq!(
        parse_offset("0xg1"),
        Err("Invalid hex offset: invalid digit found in string".to_string())
    );
    assert_eq!(
        parse_offset("18446744073709551616"),
        Err("Invalid decimal offset: number too large to fit in target type".to_string())
    );
    assert_eq!(
        parse_offset("0x10000000000000000"),
        Err("Invalid hex offset: number too large to fit in target type".to_string())
    );
    assert_eq!(parse_offset("-1"), Err("Invalid decimal offset: invalid digit found in string".to_string()));
    assert_eq!(parse_offset("+"), Err("Invalid decimal offset: invalid digit found in string".to_string()));
}

#[test]
fn parse_matches_std() {
    let cases = ["", "+", "-", "+0", "-0", "007", "99999999999999999999", "1_0", "ff", "FF", "+fe", "12 "];
    for c in cases {
        let b = c.as_bytes();
        let ours = parse_unsigned_range(b, 0, b.len(), 10, u64::MAX);
        let std = u64::from_str_radix(c, 10);
        assert_eq!(ours.is_ok(), std.is_ok(), "{c}");
        if let Ok(v) = std {
            assert_eq!(ours, Ok(v));
        }
        let ours16 = parse_unsigned_range(b, 0, b.len(), 16, u64::MAX);
        let std16 = u64::from_str_radix(c, 16);
        assert_eq!(ours16.is_ok(), std16.is_ok(), "{c}");
        if let Ok(v) = std16 {
            assert_eq!(ours16, Ok(v));
        }
    }
    let b = b"99999999999999999999x";
    assert_eq!(parse_unsigned_range(b, 0, b.len(), 10, u64::MAX), Err(IntErrorKind::PosOverflow));
    let b = b"12x99999999999999999999";
    assert_eq!(parse_unsigned_range(b, 0, b.len(), 10, u64::MAX), Err(IntErrorKind::InvalidDigit));
}

#[test]
fn hex_to_bytes_reads_pairs() {
    assert_eq!(hex_to_bytes("48656c6c6f"), Ok(b"Hello".to_vec()));
    assert_eq!(hex_to_bytes("  00FFa0 \n"), Ok(vec![0x00, 0xFF, 0xA0]));
    assert_eq!(hex_to_bytes(""), Ok(vec![]));
    assert_eq!(decode_hex_bytes(b"+f"), Ok(vec![0x0f]));
}

#[test]
fn hex_to_bytes_errors() {
    assert_eq!(hex_to_bytes("abc"), Err("Hex string must have even length".to_string()));
    assert_eq!(
        hex_to_bytes("00zz11"),
        Err("Invalid hex at position 2: invalid digit found in string".to_string())
    );
    assert_eq!(
        hex_to_bytes("0g"),
        Err("Invalid hex at position 0: invalid digit found in string".to_string())
    );
    assert_eq!(
        decode_hex_bytes(b"00112233445566778899aabbccddeeff-1"),
        Err("Invalid hex at position 32: invalid digit found in string".to_string())
    );
}

#[test]
fn prng_xorshift_step() {
    let mut r = SimplePrng::from_seed(1);
    let mut s: u64 = 1;
    s ^= s << 13;
    s ^= s >> 7;
    s ^= s << 17;
    let v = r.gen_range(0x01, 0xFE);
    assert_eq!(r.state, s);
    assert_eq!(v, 1 + (s % 254) as u8);
    let w = r.gen_range(5, 5);
    assert_eq!(w, 5);
    let x = r.gen_range(0, 255);
    let _ = x;
    let _clock = SimplePrng::new();
}

#[test]
fn grid_basics() {
    let g = Grid::new(vec![vec![1, 2, 3], vec![4, 5, 6]]);
    assert_eq!(g.width, 3);
    assert_eq!(g.height, 2);
    assert_eq!(g.get(2, 1), 6);
    assert_eq!(g.get(0, 1), 4);
    let e = Grid::new(vec![]);
    assert_eq!((e.width, e.height), (0, 0));
}

#[test]
fn grid_neighbors_order() {
    let g = Grid::new(vec![vec![0; 3]; 3]);
    assert_eq!(g.neighbors(1, 1), vec![(0, 1), (2, 1), (1, 0), (1, 2)]);
    assert_eq!(g.neighbors(0, 0), vec![(1, 0), (0, 1)]);
    assert_eq!(g.neighbors(2, 2), vec![(1, 2), (2, 1)]);
    let one = Grid::new(vec![vec![7]]);
    assert_eq!(one.neighbors(0, 0), vec![]);
}

#[test]
fn color_bands() {
    assert_eq!(get_color(0x00), "\x1b[38;5;196m");
    assert_eq!(get_color(0x1F), "\x1b[38;5;196m");
    assert_eq!(get_color(0x20), "\x1b[38;5;208m");
    assert_eq!(get_color(0x5F), "\x1b[38;5;226m");
    assert_eq!(get_color(0x60), "\x1b[38;5;46m");
    assert_eq!(get_color(0x80), "\x1b[38;5;51m");
    assert_eq!(get_color(0xBF), "\x1b[38;5;21m");
    assert_eq!(get_color(0xC0), "\x1b[38;5;129m");
    assert_eq!(get_color(0xFF), "\x1b[38;5;201m");
}

#[test]
fn seeded_map_layout() {
    let g = generate_map_seeded(4, 3, 12345);
    assert_eq!((g.width, g.height), (4, 3));
    assert_eq!(g.get(0, 0), 0x00);
    assert_eq!(g.get(3, 2), 0xFF);
    let mut rng = SimplePrng::from_seed(12345);
    for y in 0..3 {
        for x in 0..4 {
            if (x, y) == (0, 0) || (x, y) == (3, 2) {
                continue;
            }
            assert_eq!(g.get(x, y), rng.gen_range(0x01, 0xFE));
        }
    }
    let single = generate_map_seeded(1, 1, 9);
    assert_eq!(single.get(0, 0), 0xFF);
}

#[test]
fn clock_map_bounds() {
    let g = generate_map(5, 2);
    assert_eq!(g.cells.len(), 2);
    assert_eq!(g.get(0, 0), 0);
    assert_eq!(g.get(4, 1), 0xFF);
    for y in 0..2 {
        for x in 0..5 {
            if (x, y) != (0, 0) && (x, y) != (4, 1) {
                assert!((0x01..=0xFE).contains(&g.get(x, y)));
            }
        }
    }
}
