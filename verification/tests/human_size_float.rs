use rtk::ls::human_size;

fn reference(bytes: u64) -> String {
    if bytes >= 1_048_576 {
        format!("{:.1}M", bytes as f64 / 1_048_576.0)
    } else if bytes >= 1024 {
        format!("{:.1}K", bytes as f64 / 1024.0)
    } else {
        format!("{}B", bytes)
    }
}

#[test]
fn human_size_agrees_with_float_formatting() {
    let mut probes: Vec<u64> = Vec::new();
    for b in 0..200_000u64 {
        probes.push(b);
    }
    for k in 0..64u32 {
        let p = 1u64 << k;
        for d in 0..70u64 {
            probes.push(p.wrapping_add(d));
            probes.push(p.wrapping_sub(d));
            probes.push(p.wrapping_mul(3).wrapping_add(d));
        }
    }
    // ties at one decimal: x.x5 exactly
    for m in 0..5000u64 {
        probes.push(m * 1024 + 512 / 10 * 10);
        probes.push((m * 10 + 5) * 1024 / 10);
        probes.push((m * 10 + 5) * 1_048_576 / 10);
        probes.push(((m * 10 + 5) * 1_048_576 / 10) << 20);
    }
    probes.push(u64::MAX);
    probes.push(u64::MAX - 1024);
    for b in probes {
        assert_eq!(human_size(b), reference(b), "bytes = {}", b);
    }
}

#[test]
fn test_human_size() {
    assert_eq!(human_size(0), "0B");
    assert_eq!(human_size(500), "500B");
    assert_eq!(human_size(1024), "1.0K");
    assert_eq!(human_size(1234), "1.2K");
    assert_eq!(human_size(1_048_576), "1.0M");
    assert_eq!(human_size(2_500_000), "2.4M");
}
