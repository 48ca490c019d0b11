//! Long division and the repeating block of a decimal expansion.

use vstd::prelude::*;
use vstd::arithmetic::power::pow;

verus! {

/// The absolute value of an integer.
pub open spec fn magnitude(x: int) -> int {
    if x < 0 {
        -x
    } else {
        x
    }
}

/// The remainder that long division of `n` by `d` carries before it produces
/// the fractional digit at position `k`.
pub open spec fn remainder_at(n: int, d: int, k: nat) -> int
    decreases k,
{
    if k == 0 {
        n % d
    } else {
        (10 * remainder_at(n, d, (k - 1) as nat)) % d
    }
}

/// The fractional digit of `n / d` at position `k`, counted from zero.
pub open spec fn digit_at(n: int, d: int, k: nat) -> int {
    (10 * remainder_at(n, d, k)) / d
}

/// The expansion of `n / d` is finite: some remainder is zero.
pub open spec fn terminates(n: int, d: int) -> bool {
    exists|k: nat| remainder_at(n, d, k) == 0
}

/// No two of the first `end` remainders are equal.
pub open spec fn distinct_before(n: int, d: int, end: nat) -> bool {
    forall|i: nat, j: nat|
        i < j < end ==> remainder_at(n, d, i) != remainder_at(n, d, j)
}

/// `start` and `length` mark the first remainder that comes back: the
/// remainder at `start + length` equals the one at `start`, it is not zero,
/// and nothing repeats earlier.
pub open spec fn is_cycle(n: int, d: int, start: nat, length: nat) -> bool {
    &&& length > 0
    &&& remainder_at(n, d, start) != 0
    &&& remainder_at(n, d, start + length) == remainder_at(n, d, start)
    &&& distinct_before(n, d, start + length)
}

/// From position `start` on, every digit comes again `length` places later.
pub open spec fn repeats(n: int, d: int, start: nat, length: nat) -> bool {
    forall|k: nat| k >= start ==> digit_at(n, d, k + length) == #[trigger] digit_at(n, d, k)
}

/// The repeating block of `n / d`, if it has one.
pub open spec fn cycle_of(n: int, d: int) -> Option<(nat, nat)> {
    if exists|p: (nat, nat)| is_cycle(n, d, p.0, p.1) {
        Some(choose|p: (nat, nat)| is_cycle(n, d, p.0, p.1))
    } else {
        None
    }
}

/// Every remainder lies in `0..d`.
pub proof fn lemma_remainder_range(n: int, d: int, k: nat)
    requires
        d > 0,
    ensures
        0 <= remainder_at(n, d, k) < d,
    decreases k,
{
    if k > 0 {
        lemma_remainder_range(n, d, (k - 1) as nat);
    }
}

/// One step of long division: ten times a remainder is the divisor times the
/// digit, plus the next remainder.
pub proof fn lemma_division_step(n: int, d: int, k: nat)
    requires
        d > 0,
    ensures
        10 * remainder_at(n, d, k) == d * digit_at(n, d, k) + remainder_at(n, d, k + 1),
        0 <= digit_at(n, d, k) <= 9,
{
    lemma_remainder_range(n, d, k);
    let r = remainder_at(n, d, k);
    assert(remainder_at(n, d, k + 1) == (10 * r) % d);
    vstd::arithmetic::div_mod::lemma_fundamental_div_mod(10 * r, d);
    let q = (10 * r) / d;
    assert(q >= 0 && q <= 9) by (nonlinear_arith)
        requires
            d > 0,
            0 <= r < d,
            10 * r == d * q + (10 * r) % d,
            0 <= (10 * r) % d < d,
    ;
}

/// Once a remainder comes back, all later ones come back at the same distance.
pub proof fn lemma_remainders_repeat(n: int, d: int, start: nat, length: nat, k: nat)
    requires
        remainder_at(n, d, start + length) == remainder_at(n, d, start),
        k >= start,
    ensures
        remainder_at(n, d, k + length) == remainder_at(n, d, k),
    decreases k,
{
    if k > start {
        lemma_remainders_repeat(n, d, start, length, (k - 1) as nat);
        let before = remainder_at(n, d, (k + length - 1) as nat);
        assert(remainder_at(n, d, k + length) == (10 * before) % d);
        assert((k - 1) as nat + length == (k + length - 1) as nat);
    }
}

/// After a zero remainder every remainder is zero.
pub proof fn lemma_zero_stays(n: int, d: int, k: nat, m: nat)
    requires
        d > 0,
        remainder_at(n, d, k) == 0,
        m >= k,
    ensures
        remainder_at(n, d, m) == 0,
    decreases m,
{
    if m > k {
        lemma_zero_stays(n, d, k, (m - 1) as nat);
        vstd::arithmetic::div_mod::lemma_small_mod(0, d as nat);
    }
}

/// A remainder that comes back comes back after every multiple of the
/// distance.
proof fn lemma_remainder_multiples(n: int, d: int, start: nat, length: nat, t: nat)
    requires
        remainder_at(n, d, start + length) == remainder_at(n, d, start),
    ensures
        remainder_at(n, d, start + t * length) == remainder_at(n, d, start),
    decreases t,
{
    if t > 0 {
        lemma_remainder_multiples(n, d, start, length, (t - 1) as nat);
        let prev = start + (t - 1) as nat * length;
        lemma_remainders_repeat(n, d, start, length, prev as nat);
        assert(prev + length == start + t * length) by (nonlinear_arith)
            requires
                prev == start + (t - 1) * length,
                t > 0,
        ;
    } else {
        assert(start + 0 * length == start);
    }
}

/// An expansion with a repeating block does not terminate.
pub proof fn lemma_cycle_excludes_termination(n: int, d: int, start: nat, length: nat)
    requires
        d > 0,
        is_cycle(n, d, start, length),
    ensures
        !terminates(n, d),
{
    if terminates(n, d) {
        let k = choose|k: nat| remainder_at(n, d, k) == 0;
        lemma_remainder_multiples(n, d, start, length, k);
        assert(start + k * length >= k) by (nonlinear_arith)
            requires
                length >= 1,
                start >= 0,
                k >= 0,
        ;
        lemma_zero_stays(n, d, k, start + k * length);
    }
}

/// At most one pair marks the repeating block.
pub proof fn lemma_cycle_unique(n: int, d: int, s1: nat, l1: nat, s2: nat, l2: nat)
    requires
        is_cycle(n, d, s1, l1),
        is_cycle(n, d, s2, l2),
    ensures
        s1 == s2,
        l1 == l2,
{
    if s1 + l1 < s2 + l2 {
        assert(remainder_at(n, d, s1) != remainder_at(n, d, s1 + l1));
    } else if s2 + l2 < s1 + l1 {
        assert(remainder_at(n, d, s2) != remainder_at(n, d, s2 + l2));
    } else {
        if s1 < s2 {
            assert(remainder_at(n, d, s1) != remainder_at(n, d, s2));
        } else if s2 < s1 {
            assert(remainder_at(n, d, s2) != remainder_at(n, d, s1));
        }
    }
}

/// `cycle_of` is the pair that `is_cycle` singles out.
pub proof fn lemma_cycle_of(n: int, d: int, start: nat, length: nat)
    requires
        is_cycle(n, d, start, length),
    ensures
        cycle_of(n, d) == Some((start, length)),
{
    let p = choose|p: (nat, nat)| is_cycle(n, d, p.0, p.1);
    assert(is_cycle(n, d, (start, length).0, (start, length).1));
    lemma_cycle_unique(n, d, start, length, p.0, p.1);
}

/// A common factor of numerator and denominator multiplies every remainder
/// and leaves every digit as it is.
pub proof fn lemma_scaled_expansion(n: int, d: int, m: int, k: nat)
    requires
        n >= 0,
        d > 0,
        m > 0,
    ensures
        remainder_at(m * n, m * d, k) == m * remainder_at(n, d, k),
        digit_at(m * n, m * d, k) == digit_at(n, d, k),
    decreases k,
{
    let r = remainder_at(n, d, k);
    lemma_remainder_range(n, d, k);
    if k == 0 {
        vstd::arithmetic::div_mod::lemma_truncate_middle(n, m, d);
    } else {
        let before = remainder_at(n, d, (k - 1) as nat);
        lemma_scaled_expansion(n, d, m, (k - 1) as nat);
        lemma_remainder_range(n, d, (k - 1) as nat);
        vstd::arithmetic::div_mod::lemma_truncate_middle(10 * before, m, d);
        assert(10 * (m * before) == m * (10 * before)) by (nonlinear_arith);
    }
    vstd::arithmetic::div_mod::lemma_div_multiples_vanish_quotient(m, 10 * r, d);
    assert(10 * (m * r) == m * (10 * r)) by (nonlinear_arith);
}

/// Ten to the power `m` is greater than `m`.
proof fn lemma_pow10_exceeds(m: nat)
    ensures
        pow(10, m) > m,
    decreases m,
{
    reveal(pow);
    if m > 0 {
        lemma_pow10_exceeds((m - 1) as nat);
    }
}

/// Where the digits repeat, the distance between the two remainders grows
/// tenfold with every digit.
proof fn lemma_difference_grows(n: int, d: int, start: nat, length: nat, m: nat)
    requires
        d > 0,
        repeats(n, d, start, length),
    ensures
        remainder_at(n, d, start + length + m) - remainder_at(n, d, start + m) == pow(10, m) * (
        remainder_at(n, d, start + length) - remainder_at(n, d, start)),
    decreases m,
{
    reveal(pow);
    let delta = remainder_at(n, d, start + length) - remainder_at(n, d, start);
    if m == 0 {
        assert(pow(10, 0) == 1);
    } else {
        let k = (start + m - 1) as nat;
        lemma_difference_grows(n, d, start, length, (m - 1) as nat);
        lemma_division_step(n, d, k);
        lemma_division_step(n, d, k + length);
        assert(digit_at(n, d, k + length) == digit_at(n, d, k));
        assert(start + length + (m - 1) as nat == k + length);
        assert(start + (m - 1) as nat == k);
        assert(k + length + 1 == start + length + m);
        assert(k + 1 == start + m);
        let prev = remainder_at(n, d, k + length) - remainder_at(n, d, k);
        let p = pow(10, (m - 1) as nat);
        assert(prev == p * delta);
        assert(pow(10, m) == 10 * p);
        assert(10 * prev == (10 * p) * delta) by (nonlinear_arith)
            requires
                prev == p * delta,
        ;
    }
}

/// Digits that repeat from `start` on at distance `length` come from one and
/// the same remainder.
pub proof fn lemma_repeating_digits_fix_remainder(n: int, d: int, start: nat, length: nat)
    requires
        d > 0,
        repeats(n, d, start, length),
    ensures
        remainder_at(n, d, start + length) == remainder_at(n, d, start),
{
    let m = d as nat;
    let delta = remainder_at(n, d, start + length) - remainder_at(n, d, start);
    let p = pow(10, m);
    lemma_difference_grows(n, d, start, length, m);
    lemma_remainder_range(n, d, start + length + m);
    lemma_remainder_range(n, d, start + m);
    lemma_pow10_exceeds(m);
    assert(delta == 0) by (nonlinear_arith)
        requires
            -d < p * delta < d,
            p >= d,
            d > 0,
    ;
}

/// The digits of a repeating block come again and again.
pub proof fn lemma_cycle_repeats(n: int, d: int, start: nat, length: nat)
    requires
        is_cycle(n, d, start, length),
    ensures
        repeats(n, d, start, length),
{
    assert forall|k: nat| k >= start implies digit_at(n, d, k + length) == #[trigger] digit_at(
        n,
        d,
        k,
    ) by {
        lemma_remainders_repeat(n, d, start, length, k);
    }
}

/// No shorter block repeats from the same or an earlier position.
pub proof fn lemma_cycle_is_shortest(n: int, d: int, start: nat, length: nat, s: nat, l: nat)
    requires
        d > 0,
        is_cycle(n, d, start, length),
        s <= start,
        0 < l < length,
    ensures
        !repeats(n, d, s, l),
{
    if repeats(n, d, s, l) {
        lemma_repeating_digits_fix_remainder(n, d, s, l);
        assert(remainder_at(n, d, s) != remainder_at(n, d, s + l));
    }
}

/// The digits do not repeat, at whatever distance, from a position in front
/// of the repeating block.
pub proof fn lemma_cycle_starts_first(n: int, d: int, start: nat, length: nat, s: nat, l: nat)
    requires
        d > 0,
        is_cycle(n, d, start, length),
        s < start,
        l > 0,
    ensures
        !repeats(n, d, s, l),
{
    if repeats(n, d, s, l) {
        lemma_repeating_digits_fix_remainder(n, d, s, l);
        lemma_remainder_multiples(n, d, s, l, start);
        let far = s + start * l;
        assert(far >= start) by (nonlinear_arith)
            requires
                far == s + start * l,
                l >= 1,
                s >= 0,
                start >= 0,
        ;
        let turns = ((far - start) / (length as int)) as nat;
        let near = (start + (far - start) % (length as int)) as nat;
        vstd::arithmetic::div_mod::lemma_fundamental_div_mod(far - start, length as int);
        assert(turns >= 0 && turns * length == length * turns) by (nonlinear_arith)
            requires
                far - start >= 0,
                length > 0,
                turns == (far - start) / (length as int),
        ;
        lemma_remainders_repeat(n, d, start, length, near);
        lemma_remainder_multiples(n, d, near, length, turns);
        assert(near + turns * length == far);
        assert(remainder_at(n, d, s) != remainder_at(n, d, near));
    }
}

/// Distinct values between one and `bound - 1` are fewer than `bound`.
proof fn lemma_distinct_values_are_few(s: Seq<int>, bound: int)
    requires
        bound >= 1,
        forall|i: int| 0 <= i < s.len() ==> 0 < #[trigger] s[i] < bound,
        forall|i: int, j: int| 0 <= i < j < s.len() ==> s[i] != s[j],
    ensures
        s.len() < bound,
    decreases bound,
{
    if bound == 1 {
        if s.len() > 0 {
            assert(0 < s[0] < bound);
        }
    } else if exists|j: int| 0 <= j < s.len() && s[j] == bound - 1 {
        let j = choose|j: int| 0 <= j < s.len() && s[j] == bound - 1;
        let rest = Seq::new(
            (s.len() - 1) as nat,
            |i: int|
                if i < j {
                    s[i]
                } else {
                    s[i + 1]
                },
        );
        assert forall|i: int| 0 <= i < rest.len() implies 0 < #[trigger] rest[i] < bound - 1 by {
            if i < j {
                assert(s[i] != s[j]);
            } else {
                assert(s[j] != s[i + 1]);
            }
        }
        assert forall|i: int, k: int| 0 <= i < k < rest.len() implies rest[i] != rest[k] by {
            let si = if i < j { i } else { i + 1 };
            let sk = if k < j { k } else { k + 1 };
            assert(s[si] != s[sk]);
        }
        lemma_distinct_values_are_few(rest, bound - 1);
    } else {
        assert forall|i: int| 0 <= i < s.len() implies 0 < #[trigger] s[i] < bound - 1 by {
            assert(0 < s[i] < bound);
        }
        lemma_distinct_values_are_few(s, bound - 1);
    }
}

/// Where two of the first `end` remainders are equal, some remainder is the
/// first to come back.
proof fn lemma_first_repeat(n: int, d: int, end: nat) -> (p: (nat, nat))
    requires
        !distinct_before(n, d, end),
    ensures
        p.1 > 0,
        p.0 + p.1 < end,
        remainder_at(n, d, p.0 + p.1) == remainder_at(n, d, p.0),
        distinct_before(n, d, p.0 + p.1),
    decreases end,
{
    let (i, j) = choose|i: nat, j: nat|
        i < j < end && remainder_at(n, d, i) == remainder_at(n, d, j);
    if !distinct_before(n, d, (end - 1) as nat) {
        lemma_first_repeat(n, d, (end - 1) as nat)
    } else {
        assert(j == end - 1);
        (i, (j - i) as nat)
    }
}

/// An expansion ends or repeats: where no remainder is zero, there is a
/// repeating block, and it lies within the first `d` digits.
pub proof fn lemma_expansion_ends_or_repeats(n: int, d: int)
    requires
        d > 0,
    ensures
        terminates(n, d) <==> cycle_of(n, d) is None,
        cycle_of(n, d) matches Some((start, length)) ==> is_cycle(n, d, start, length) && start
            + length < d,
{
    if terminates(n, d) {
        if cycle_of(n, d) is Some {
            let p = choose|p: (nat, nat)| is_cycle(n, d, p.0, p.1);
            lemma_cycle_excludes_termination(n, d, p.0, p.1);
        }
    } else {
        let values = Seq::new(d as nat, |i: int| remainder_at(n, d, i as nat));
        assert forall|i: int| 0 <= i < values.len() implies 0 < #[trigger] values[i] < d by {
            lemma_remainder_range(n, d, i as nat);
        }
        if distinct_before(n, d, d as nat) {
            assert forall|i: int, j: int| 0 <= i < j < values.len() implies values[i]
                != values[j] by {
                assert(remainder_at(n, d, i as nat) != remainder_at(n, d, j as nat));
            }
            lemma_distinct_values_are_few(values, d);
        }
        let p = lemma_first_repeat(n, d, d as nat);
        assert(is_cycle(n, d, p.0, p.1));
        lemma_cycle_of(n, d, p.0, p.1);
    }
}

/// The absolute value of a 32-bit integer, widened.
pub fn magnitude_of(x: i32) -> (m: u64)
    ensures
        m == magnitude(x as int),
{
    if x < 0 {
        (-(x as i64)) as u64
    } else {
        x as u64
    }
}

/// The first position at which `value` stands in `seen`.
fn position(seen: &Vec<u64>, value: u64) -> (found: Option<usize>)
    ensures
        match found {
            Some(i) => i < seen.len() && seen[i as int] == value,
            None => forall|i: int| 0 <= i < seen.len() ==> seen[i] != value,
        },
{
    let mut i: usize = 0;
    while i < seen.len()
        invariant
            i <= seen.len(),
            forall|j: int| 0 <= j < i ==> seen[j] != value,
        decreases seen.len() - i,
    {
        if seen[i] == value {
            return Some(i);
        }
        i += 1;
    }
    None
}

/// Finds the repeating block in the decimal expansion of `a / b`.
///
/// Returns `None` when the expansion is finite. Otherwise returns the
/// position, counted from zero behind the decimal point, at which the
/// repeating block starts, and the length of the block. Signs are of no
/// account: the digits are those of the absolute values.
pub fn find_cyclic(a: i32, b: i32) -> (found: Option<(usize, usize)>)
    requires
        b != 0,
    ensures
        cycle_of(magnitude(a as int), magnitude(b as int)) == match found {
            Some((start, length)) => Some((start as nat, length as nat)),
            None => None,
        },
        found is None <==> terminates(magnitude(a as int), magnitude(b as int)),
        found matches Some((start, length)) ==> {
            &&& start + length < magnitude(b as int)
            &&& is_cycle(magnitude(a as int), magnitude(b as int), start as nat, length as nat)
            &&& repeats(magnitude(a as int), magnitude(b as int), start as nat, length as nat)
            &&& forall|s: nat, l: nat|
                s <= start && 0 < l < length ==> !#[trigger] repeats(
                    magnitude(a as int),
                    magnitude(b as int),
                    s,
                    l,
                )
            &&& forall|s: nat, l: nat|
                s < start && 0 < l ==> !#[trigger] repeats(
                    magnitude(a as int),
                    magnitude(b as int),
                    s,
                    l,
                )
        },
{
    let n: u64 = magnitude_of(a);
    let d: u64 = magnitude_of(b);
    let mut remainders: Vec<u64> = Vec::new();
    let mut remainder: u64 = n % d;
    while remainder != 0
        invariant
            n == magnitude(a as int),
            d == magnitude(b as int),
            0 < d <= 0x8000_0000,
            remainders.len() < d,
            remainder == remainder_at(n as int, d as int, remainders.len() as nat),
            forall|i: int|
                0 <= i < remainders.len() ==> remainders[i] == remainder_at(
                    n as int,
                    d as int,
                    i as nat,
                ),
            forall|i: nat| i < remainders.len() ==> remainder_at(n as int, d as int, i) != 0,
            distinct_before(n as int, d as int, remainders.len() as nat),
        decreases d - remainders.len(),
    {
        let ghost count = remainders.len() as nat;
        if let Some(start) = position(&remainders, remainder) {
            let length: usize = remainders.len() - start;
            proof {
                assert(start as nat + length as nat == count);
                assert(is_cycle(n as int, d as int, start as nat, length as nat));
                lemma_cycle_of(n as int, d as int, start as nat, length as nat);
                lemma_cycle_excludes_termination(n as int, d as int, start as nat, length as nat);
                lemma_cycle_repeats(n as int, d as int, start as nat, length as nat);
                assert forall|s: nat, l: nat|
                    s <= start && 0 < l < length implies !#[trigger] repeats(
                    n as int,
                    d as int,
                    s,
                    l,
                ) by {
                    lemma_cycle_is_shortest(n as int, d as int, start as nat, length as nat, s, l);
                }
                assert forall|s: nat, l: nat| s < start && 0 < l implies !#[trigger] repeats(
                    n as int,
                    d as int,
                    s,
                    l,
                ) by {
                    lemma_cycle_starts_first(n as int, d as int, start as nat, length as nat, s, l);
                }
            }
            return Some((start, length));
        }
        remainders.push(remainder);
        proof {
            assert forall|i: nat, j: nat| i < j < count + 1 implies remainder_at(
                n as int,
                d as int,
                i,
            ) != remainder_at(n as int, d as int, j) by {
                if j == count {
                    assert(remainders[i as int] == remainder_at(n as int, d as int, i));
                }
            }
            let values = Seq::new(count + 1, |i: int| remainder_at(n as int, d as int, i as nat));
            assert forall|i: int| 0 <= i < values.len() implies 0 < #[trigger] values[i] < d by {
                lemma_remainder_range(n as int, d as int, i as nat);
            }
            lemma_distinct_values_are_few(values, d as int);
            lemma_remainder_range(n as int, d as int, count);
        }
        remainder = (remainder * 10) % d;
    }
    proof {
        lemma_expansion_ends_or_repeats(n as int, d as int);
    }
    None
}

} // verus!
