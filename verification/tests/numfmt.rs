use markov_chains_bot::numfmt::{pretty_bytes, pretty_seconds};

fn reference_bytes(size: u64) -> String {
    const KB: u64 = 1024;
    const MB: u64 = KB * 1024;
    const GB: u64 = MB * 1024;
    if size >= GB {
        format!("{:.2} GB", size as f64 / GB as f64)
    } else if size >= MB {
        format!("{:.2} MB", size as f64 / MB as f64)
    } else if size >= KB {
        format!("{:.2} KB", size as f64 / KB as f64)
    } else {
        format!("{} B", size)
    }
}

fn reference_seconds(seconds: u64) -> String {
    const MINUTE: u64 = 60;
    const HOUR: u64 = MINUTE * 60;
    const DAY: u64 = HOUR * 24;
    if seconds >= DAY {
        format!("{:.2} D", seconds as f64 / DAY as f64)
    } else if seconds >= HOUR {
        format!("{:.2} H", seconds as f64 / HOUR as f64)
    } else if seconds >= MINUTE {
        format!("{:.2} M", seconds as f64 / MINUTE as f64)
    } else {
        format!("{} S", seconds)
    }
}

fn samples() -> Vec<u64> {
    let mut v: Vec<u64> = Vec::new();
    for i in 0..5000u64 {
        v.push(i);
    }
    let mut x: u64 = 0x9E3779B97F4A7C15;
    for _ in 0..20000 {
        x ^= x << 13;
        x ^= x >> 7;
        x ^= x << 17;
        v.push(x);
        v.push(x >> (x % 64));
    }
    for k in 0..64u32 {
        let p = 1u64 << k;
        v.push(p);
        v.push(p.wrapping_sub(1));
        v.push(p.wrapping_add(1));
    }
    // exact decimal ties: size * 100 / 1024 ends in one half
    for i in 0..2000u64 {
        v.push(512 * (2 * i + 1) / 100 + 1024);
        v.push(1024 * 1024 + 5243 * i);
    }
    v.push(u64::MAX);
    v.push(u64::MAX - 1);
    v.push((1u64 << 53) + 1);
    v.push((1u64 << 54) + 2);
    v.push((1u64 << 54) + 6);
    v
}

#[test]
fn pretty_bytes_matches_float_formatting() {
    for s in samples() {
        assert_eq!(pretty_bytes(s), reference_bytes(s), "size {}", s);
    }
}

#[test]
fn pretty_seconds_matches_float_formatting() {
    for s in samples() {
        assert_eq!(pretty_seconds(s), reference_seconds(s), "seconds {}", s);
    }
    for s in 0..200_000u64 {
        assert_eq!(pretty_seconds(s), reference_seconds(s), "seconds {}", s);
    }
}

#[test]
fn pretty_bytes_examples() {
    assert_eq!(pretty_bytes(0), "0 B");
    assert_eq!(pretty_bytes(1023), "1023 B");
    assert_eq!(pretty_bytes(1024), "1.00 KB");
    assert_eq!(pretty_bytes(1536), "1.50 KB");
    assert_eq!(pretty_bytes(1048576), "1.00 MB");
    assert_eq!(pretty_bytes(5 * 1073741824), "5.00 GB");
    assert_eq!(pretty_bytes(u64::MAX), "17179869184.00 GB");
}

#[test]
fn pretty_seconds_examples() {
    assert_eq!(pretty_seconds(59), "59 S");
    assert_eq!(pretty_seconds(60), "1.00 M");
    assert_eq!(pretty_seconds(90), "1.50 M");
    assert_eq!(pretty_seconds(3600), "1.00 H");
    assert_eq!(pretty_seconds(86400 * 3), "3.00 D");
    assert_eq!(pretty_seconds(100), "1.67 M");
}

#[test]
fn pretty_bytes_rounds_ties_to_even() {
    // 1152 B = 1.125 KB and 1408 B = 1.375 KB are exact ties.
    assert_eq!(pretty_bytes(1152), "1.12 KB");
    assert_eq!(pretty_bytes(1408), "1.38 KB");
    assert_eq!(pretty_bytes(1024 * 1024 + 5 * 1024 * 1024 / 1000), "1.00 MB");
}

fn rank_and_number(text: &str, units: [&str; 4]) -> (usize, f64) {
    let (num, unit) = text.rsplit_once(' ').unwrap();
    (units.iter().position(|u| *u == unit).unwrap(), num.parse().unwrap())
}

#[test]
fn pretty_texts_are_monotone() {
    let mut v = samples();
    v.sort();
    for w in v.windows(2) {
        let (ra, na) = rank_and_number(&pretty_bytes(w[0]), ["B", "KB", "MB", "GB"]);
        let (rb, nb) = rank_and_number(&pretty_bytes(w[1]), ["B", "KB", "MB", "GB"]);
        assert!(ra < rb || (ra == rb && na <= nb), "{} {}", w[0], w[1]);
        let (ra, na) = rank_and_number(&pretty_seconds(w[0]), ["S", "M", "H", "D"]);
        let (rb, nb) = rank_and_number(&pretty_seconds(w[1]), ["S", "M", "H", "D"]);
        assert!(ra < rb || (ra == rb && na <= nb), "{} {}", w[0], w[1]);
    }
}

#[test]
fn shown_numbers_stay_in_range() {
    assert_eq!(pretty_bytes(1024 * 1024 - 1), "1024.00 KB");
    assert_eq!(pretty_seconds(3599), "59.98 M");
    assert_eq!(pretty_seconds(86399), "24.00 H");
    assert_eq!(pretty_seconds(86400), "1.00 D");
    assert_eq!(pretty_bytes(1024), "1.00 KB");
}
