use dinfo::format_bytes;

#[test]
fn test_format_bytes() {
    assert_eq!(format_bytes(0), "0 B");
    assert_eq!(format_bytes(512), "512 B");
    assert_eq!(format_bytes(1024), "1.00 KB");
    assert_eq!(format_bytes(1536), "1.50 KB");
    assert_eq!(format_bytes(1024 * 1024), "1.00 MB");
    assert_eq!(format_bytes(1024_u64.pow(3)), "1.00 GB");
    assert_eq!(format_bytes(1024_u64.pow(4)), "1.00 TB");
    assert_eq!(format_bytes(1024_u64.pow(5)), "1.00 PB");
}

#[test]
fn test_format_bytes_edge_cases() {
    assert_eq!(format_bytes(1024_u64.pow(2)), "1.00 MB");
    assert_eq!(format_bytes(2 * 1024_u64.pow(2)), "2.00 MB");
}

#[test]
fn format_bytes_rounds_to_two_decimals() {
    assert_eq!(format_bytes(1023), "1023 B");
    assert_eq!(format_bytes(1100), "1.07 KB");
    assert_eq!(format_bytes(1024 * 1024 - 1), "1024.00 KB");
    assert_eq!(format_bytes(1024_u64.pow(5) * 2048), "2048.00 PB");
}

#[test]
fn format_bytes_matches_float_formatting() {
    let samples: [u64; 8] = [1025, 1100, 1234, 5000, 123456, 987654321, 1 << 40, 3 << 45];
    for s in samples.iter() {
        let mut v = *s as f64;
        let mut unit = 0;
        while v >= 1024.0 && unit < 5 {
            v /= 1024.0;
            unit += 1;
        }
        let names = ["B", "KB", "MB", "GB", "TB", "PB"];
        assert_eq!(format_bytes(*s), format!("{:.2} {}", v, names[unit]));
    }
}
