use repeating_decimal::cycle::{find_cyclic, magnitude_of};

/// The fractional digits of `a / b` by long division, `count` of them.
fn digits(a: i32, b: i32, count: usize) -> Vec<u64> {
    let n = magnitude_of(a);
    let d = magnitude_of(b);
    let mut r = n % d;
    let mut out = Vec::new();
    for _ in 0..count {
        out.push(r * 10 / d);
        r = r * 10 % d;
    }
    out
}

#[test]
fn cycles_of_known_fractions() {
    assert_eq!(find_cyclic(1, 3), Some((0, 1)));
    assert_eq!(find_cyclic(1, 30), Some((1, 1)));
    assert_eq!(find_cyclic(5, 6), Some((1, 1)));
    assert_eq!(find_cyclic(83, 99), Some((0, 2)));
    assert_eq!(find_cyclic(123, 999), Some((0, 3)));
    assert_eq!(find_cyclic(187, 1665), Some((1, 3)));
    assert_eq!(find_cyclic(61111, 4950), Some((2, 2)));
    assert_eq!(find_cyclic(1, 7), Some((0, 6)));
    assert_eq!(find_cyclic(1, 12), Some((2, 1)));
    assert_eq!(find_cyclic(1, 97), Some((0, 96)));
}

#[test]
fn finite_expansions_have_no_cycle() {
    assert_eq!(find_cyclic(1, 2), None);
    assert_eq!(find_cyclic(123, 1000), None);
    assert_eq!(find_cyclic(123, 1), None);
    assert_eq!(find_cyclic(0, 7), None);
    assert_eq!(find_cyclic(6, 3), None);
    assert_eq!(find_cyclic(3, 6), None);
    assert_eq!(find_cyclic(1, 1 << 30), None);
}

#[test]
fn signs_do_not_change_the_cycle() {
    assert_eq!(find_cyclic(-1, 3), Some((0, 1)));
    assert_eq!(find_cyclic(1, -9), Some((0, 1)));
    assert_eq!(find_cyclic(-61111, -4950), Some((2, 2)));
    assert_eq!(find_cyclic(19, -10), None);
    assert_eq!(find_cyclic(i32::MIN, -1), None);
    assert_eq!(find_cyclic(i32::MIN, 3), Some((0, 1)));
    assert_eq!(find_cyclic(1, i32::MIN), None);
    assert_eq!(magnitude_of(i32::MIN), 2147483648);
    assert_eq!(magnitude_of(-5), 5);
    assert_eq!(magnitude_of(5), 5);
}

#[test]
fn digits_repeat_from_the_start_of_the_cycle() {
    for b in 1..=120 {
        for a in 0..=40 {
            if let Some((start, length)) = find_cyclic(a, b) {
                assert!(length > 0);
                assert!(start + length < b as usize);
                let d = digits(a, b, start + 4 * length + 8);
                for k in start..d.len() - length {
                    assert_eq!(d[k + length], d[k], "{}/{} at {}", a, b, k);
                }
            }
        }
    }
}

#[test]
fn no_shorter_cycle_from_the_same_or_an_earlier_start() {
    for b in 1..=120 {
        for a in 0..=40 {
            if let Some((start, length)) = find_cyclic(a, b) {
                let d = digits(a, b, start + 3 * length + 2 * b as usize);
                for s in 0..=start {
                    for l in 1..length {
                        assert!(
                            (s..d.len() - l).any(|k| d[k + l] != d[k]),
                            "{}/{} repeats from {} with {}",
                            a,
                            b,
                            s,
                            l
                        );
                    }
                }
            }
        }
    }
}
