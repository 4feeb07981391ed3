use procdrift::units::{format_bytes, format_cpu, format_rate};

fn float_bytes(value: u64) -> String {
    if value >= 1 << 30 {
        format!("{:.1} GB", value as f64 / (1_u64 << 30) as f64)
    } else {
        format!("{:.1} MB", value as f64 / (1_u64 << 20) as f64)
    }
}

fn float_rate(value: u64) -> String {
    if value >= 1 << 20 {
        format!("{:.1} MB/s", value as f64 / (1_u64 << 20) as f64)
    } else if value >= 1 << 10 {
        format!("{:.1} KB/s", value as f64 / (1_u64 << 10) as f64)
    } else {
        format!("{value} B/s")
    }
}

fn samples() -> Vec<u64> {
    let mut values = vec![
        0,
        1,
        1023,
        1024,
        1536,
        262_144,
        786_432,
        1_048_575,
        1_048_576,
        1_572_864,
        134_217_728,
        1_073_741_823,
        1_073_741_824,
        1_181_116_006,
        (1 << 53) - 1,
        1 << 53,
        (1 << 53) + 1,
        (1 << 54) + 2,
        (1 << 54) + 6,
        u64::MAX - 1024,
        u64::MAX,
    ];
    let mut x: u64 = 0x9E37_79B9_7F4A_7C15;
    for _ in 0..2000 {
        x ^= x << 13;
        x ^= x >> 7;
        x ^= x << 17;
        values.push(x >> (x % 50));
    }
    for k in 0..64u64 {
        values.push(52_428 * k + 26_214);
        values.push((1 << 19) * (2 * k + 1) / 10);
    }
    values
}

#[test]
fn byte_sizes_print_like_the_float_formatting_they_replace() {
    for value in samples() {
        assert_eq!(format_bytes(value), float_bytes(value), "value {value}");
    }
}

#[test]
fn rates_print_like_the_float_formatting_they_replace() {
    for value in samples() {
        assert_eq!(format_rate(value), float_rate(value), "value {value}");
    }
}

#[test]
fn sizes_and_rates_have_fixed_examples() {
    assert_eq!(format_bytes(0), "0.0 MB");
    assert_eq!(format_bytes(262_144), "0.2 MB");
    assert_eq!(format_bytes(1_610_612_736), "1.5 GB");
    assert_eq!(format_rate(512), "512 B/s");
    assert_eq!(format_rate(1536), "1.5 KB/s");
    assert_eq!(format_rate(3 * 1_048_576), "3.0 MB/s");
}

#[test]
fn cpu_shares_print_with_one_decimal() {
    assert_eq!(format_cpu(0), "0.0%");
    assert_eq!(format_cpu(7), "0.7%");
    assert_eq!(format_cpu(1000), "100.0%");
}
