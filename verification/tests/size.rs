use tree_print::number::{push_decimal, push_padded, push_zero_padded};
use tree_print::size::{format_size, format_size_padded};

fn plain_by_float(bytes: u64) -> String {
    const KB: u64 = 1024;
    const MB: u64 = KB * 1024;
    const GB: u64 = MB * 1024;
    match bytes {
        b if b >= GB => format!("{:.1} GB", b as f64 / GB as f64),
        b if b >= MB => format!("{:.1} MB", b as f64 / MB as f64),
        b if b >= KB => format!("{:.1} KB", b as f64 / KB as f64),
        b => format!("{b} B"),
    }
}

fn padded_by_float(bytes: u64) -> String {
    const KB: u64 = 1024;
    const MB: u64 = KB * 1024;
    const GB: u64 = MB * 1024;
    match bytes {
        b if b >= GB => format!("{:>6.1} GB", b as f64 / GB as f64),
        b if b >= MB => format!("{:>6.1} MB", b as f64 / MB as f64),
        b if b >= KB => format!("{:>6.1} KB", b as f64 / KB as f64),
        b => format!("{:>6} B ", b),
    }
}

fn check(bytes: u64) {
    assert_eq!(format_size(bytes), plain_by_float(bytes), "{}", bytes);
    assert_eq!(format_size_padded(bytes), padded_by_float(bytes), "{}", bytes);
}

#[test]
fn sizes_are_shown_in_the_largest_unit() {
    assert_eq!(format_size(0), "0 B");
    assert_eq!(format_size(1023), "1023 B");
    assert_eq!(format_size(1024), "1.0 KB");
    assert_eq!(format_size(1536), "1.5 KB");
    assert_eq!(format_size(1048575), "1024.0 KB");
    assert_eq!(format_size(1048576), "1.0 MB");
    assert_eq!(format_size(1073741824), "1.0 GB");
    assert_eq!(format_size(u64::MAX), "17179869184.0 GB");
}

#[test]
fn ties_go_to_the_even_tenth() {
    assert_eq!(format_size(1280), "1.2 KB");
    assert_eq!(format_size(1792), "1.8 KB");
}

#[test]
fn padded_sizes_are_right_aligned() {
    assert_eq!(format_size_padded(5), "     5 B ");
    assert_eq!(format_size_padded(1536), "   1.5 KB");
    assert_eq!(format_size_padded(1023 * 1024), "1023.0 KB");
    for bytes in [0u64, 999, 1024, 1048575, 1 << 30, 9998 * (1 << 30)] {
        assert_eq!(format_size_padded(bytes).chars().count(), 9);
    }
}

#[test]
fn small_sizes_agree_with_floating_point() {
    for bytes in 0..70_000u64 {
        check(bytes);
    }
}

#[test]
fn sampled_sizes_agree_with_floating_point() {
    let mut x: u64 = 88172645463325252;
    for i in 0..60_000u32 {
        x ^= x << 13;
        x ^= x >> 7;
        x ^= x << 17;
        check(x >> (i % 64));
    }
}

#[test]
fn sizes_around_powers_of_two_agree_with_floating_point() {
    for p in 0..64u32 {
        let n = 1u64 << p;
        for d in 0..1500u64 {
            check(n.wrapping_add(d));
            check(n.wrapping_sub(d));
        }
    }
}

#[test]
fn shown_number_is_within_half_a_tenth() {
    assert_eq!(format_size(1024 + 51), "1.0 KB");
    assert_eq!(format_size(1024 + 52), "1.1 KB");
}

#[test]
fn numbers_are_written_in_decimal() {
    for n in [0u64, 9, 10, 99, 100, 12345, u64::MAX] {
        let mut out = String::from(">");
        push_decimal(&mut out, n);
        assert_eq!(out, format!(">{n}"));
    }
}

#[test]
fn texts_are_padded_in_front() {
    let mut out = String::new();
    push_padded(&mut out, "ab", 4, '.');
    push_padded(&mut out, "abcde", 4, '.');
    push_zero_padded(&mut out, 7, 2);
    push_zero_padded(&mut out, 123, 2);
    assert_eq!(out, "..ababcde07123");
}
