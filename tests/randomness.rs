use rsa_core::tests::{long_series_test, poker_test, series_counts, series_test, single_bit_test, Result};

fn alternating(len: usize) -> String {
    (0..len).map(|i| if i % 2 == 0 { '0' } else { '1' }).collect()
}

#[test]
fn monobit_passes_balanced_sample() {
    assert!(matches!(single_bit_test(&alternating(20_000)), Result::Passed));
}

#[test]
fn monobit_bounds_are_strict() {
    let ones = |n: usize| -> String { (0..20_000).map(|i| if i < n { '1' } else { '0' }).collect() };
    assert!(matches!(single_bit_test(&ones(9725)), Result::Failed));
    assert!(matches!(single_bit_test(&ones(9726)), Result::Passed));
    assert!(matches!(single_bit_test(&ones(10274)), Result::Passed));
    assert!(matches!(single_bit_test(&ones(10275)), Result::Failed));
}

#[test]
fn long_runs_fail_beyond_twenty_five() {
    let mut s = alternating(100);
    assert!(matches!(long_series_test(&s), Result::Passed));
    s.replace_range(11..35, &"1".repeat(24));
    assert!(matches!(long_series_test(&s), Result::Passed));
    let t = format!("{}{}", "0".repeat(26), alternating(10));
    assert!(matches!(long_series_test(&t), Result::Failed));
    let u = format!("{}{}", alternating(11), "1".repeat(26));
    assert!(matches!(long_series_test(&u), Result::Failed));
}

#[test]
fn poker_sum_bounds() {
    // every group "0000": one value counted 5000 times, sum 25 000 000
    assert!(matches!(poker_test(&"0".repeat(20_000)), Result::Failed));
    // each of the 16 values 312 or 313 times
    let mut s = String::new();
    for g in 0..5000usize {
        let v = g % 16;
        for b in 0..4 {
            s.push(if v >> b & 1 == 1 { '1' } else { '0' });
        }
    }
    assert!(matches!(poker_test(&s), Result::Failed));
    // value counts 1000 + 4000 spread to reach a sum inside the band
    let mut t = String::new();
    let counts = [1251usize, 250, 250, 250, 250, 250, 250, 250, 250, 250, 250, 250, 250, 250, 250, 249];
    for (v, &c) in counts.iter().enumerate() {
        for _ in 0..c {
            for b in 0..4 {
                t.push(if v >> b & 1 == 1 { '1' } else { '0' });
            }
        }
    }
    let sum: usize = counts.iter().map(|c| c * c).sum();
    let x = (16.0 * sum as f64) / 5000.0 - 5000.0;
    assert_eq!(matches!(poker_test(&t), Result::Passed), x > 2.16 && x < 46.17);
}

#[test]
fn series_counts_runs_by_length() {
    let counts = series_counts("0110001111100000011");
    assert_eq!(counts.zeros, vec![1, 0, 1, 0, 0, 1]);
    assert_eq!(counts.ones, vec![0, 2, 0, 0, 1, 0]);
    assert!(matches!(series_test("0110001111100000011"), Result::Failed));
}

#[test]
fn series_test_passes_inside_every_band() {
    // 2500, 1250, 625, 312, 156, 156 runs of each length for zeros and ones alike
    let per_length = [2500usize, 1250, 625, 312, 156, 156];
    let mut s = String::new();
    for (k, &n) in per_length.iter().enumerate() {
        let len = if k == 5 { 6 } else { k + 1 };
        for _ in 0..n {
            s.push_str(&"0".repeat(len));
            s.push_str(&"1".repeat(len));
        }
    }
    assert!(matches!(series_test(&s), Result::Passed));
    s.push_str("0101");
    assert!(matches!(series_test(&s), Result::Passed));
}
