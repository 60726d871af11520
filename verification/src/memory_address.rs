//! Arithmetic on memory addresses and on powers of two.
//!
//! A memory address is held as a plain `usize`; nothing here reads or writes memory.
use vstd::prelude::*;

verus! {

/// `2` raised to `exponent`.
pub open spec fn power_of_two(exponent: nat) -> nat
    decreases exponent,
{
    if exponent == 0 {
        1
    } else {
        2 * power_of_two((exponent - 1) as nat)
    }
}

/// Is `value` a power of two?
pub open spec fn is_power_of_two(value: int) -> bool {
    exists|exponent: nat| power_of_two(exponent) == value
}

/// Every power of two is at least one.
pub proof fn lemma_power_of_two_positive(exponent: nat)
    ensures
        power_of_two(exponent) >= 1,
    decreases exponent,
{
    if exponent > 0 {
        lemma_power_of_two_positive((exponent - 1) as nat);
    }
}

/// Every power of two is at least one.
pub proof fn lemma_power_of_two_positive_value(value: int)
    requires
        is_power_of_two(value),
    ensures
        value >= 1,
{
    let exponent = choose|exponent: nat| power_of_two(exponent) == value;
    lemma_power_of_two_positive(exponent);
}

/// Powers of two grow with their exponent.
pub proof fn lemma_power_of_two_monotonic(smaller: nat, larger: nat)
    requires
        smaller <= larger,
    ensures
        power_of_two(smaller) <= power_of_two(larger),
    decreases larger,
{
    if smaller < larger {
        lemma_power_of_two_monotonic(smaller, (larger - 1) as nat);
        lemma_power_of_two_positive((larger - 1) as nat);
    }
}

/// `2^(a + b) == 2^a * 2^b`.
pub proof fn lemma_power_of_two_adds(a: nat, b: nat)
    ensures
        power_of_two(a + b) == power_of_two(a) * power_of_two(b),
    decreases b,
{
    if b == 0 {
        assert(a + b == a);
        assert(power_of_two(a) * 1 == power_of_two(a));
    } else {
        lemma_power_of_two_adds(a, (b - 1) as nat);
        let pa = power_of_two(a) as int;
        let pb = power_of_two(b) as int;
        let pb1 = power_of_two((b - 1) as nat) as int;
        assert(power_of_two(a + b) == 2 * power_of_two((a + b - 1) as nat));
        assert(pb == 2 * pb1);
        assert((a + b - 1) as nat == a + (b - 1) as nat);
        assert(power_of_two(a + (b - 1) as nat) == pa * pb1);
        assert(power_of_two(a + b) == 2 * (pa * pb1));
        assert(pa * pb == 2 * (pa * pb1)) by (nonlinear_arith)
            requires
                pb == 2 * pb1,
        ;
    }
}

/// A smaller power of two divides a larger one.
pub proof fn lemma_power_of_two_divides(smaller: nat, larger: nat)
    requires
        smaller <= larger,
    ensures
        power_of_two(larger) % power_of_two(smaller) == 0,
        power_of_two(larger) == power_of_two(smaller) * power_of_two((larger - smaller) as nat),
{
    lemma_power_of_two_adds(smaller, (larger - smaller) as nat);
    lemma_power_of_two_positive(smaller);
    let p = power_of_two(smaller) as int;
    let q = power_of_two((larger - smaller) as nat) as int;
    assert((p * q) % p == 0) by (nonlinear_arith)
        requires
            p >= 1,
    ;
}

/// The two exponents of equal powers of two are equal.
pub proof fn lemma_power_of_two_injective(a: nat, b: nat)
    requires
        power_of_two(a) == power_of_two(b),
    ensures
        a == b,
{
    if a < b {
        lemma_power_of_two_monotonic(a + 1, b);
        lemma_power_of_two_positive(a);
    } else if b < a {
        lemma_power_of_two_monotonic(b + 1, a);
        lemma_power_of_two_positive(b);
    }
}

/// The powers of two that the allocators use.
pub proof fn lemma_power_of_two_values()
    ensures
        power_of_two(0) == 1,
        power_of_two(3) == 8,
        power_of_two(5) == 32,
        power_of_two(6) == 64,
        power_of_two(20) == 0x10_0000,
        power_of_two(31) == 0x8000_0000,
        power_of_two(32) == 0x1_0000_0000,
{
    reveal_with_fuel(power_of_two, 33);
}

/// Computes `2^exponent`.
pub fn power_of_two_usize(exponent: usize) -> (power: usize)
    requires
        exponent < 32,
    ensures
        power == power_of_two(exponent as nat),
{
    let mut power: usize = 1;
    let mut index: usize = 0;
    while index < exponent
        invariant
            index <= exponent < 32,
            power == power_of_two(index as nat),
        decreases exponent - index,
    {
        proof {
            lemma_power_of_two_monotonic((index + 1) as nat, 31);
            lemma_power_of_two_values();
            assert(power_of_two((index + 1) as nat) == 2 * power_of_two(index as nat));
        }
        power = power * 2;
        index = index + 1;
    }
    power
}

/// The base-2 logarithm of a power of two.
pub fn logarithm_base2(value: usize) -> (exponent: usize)
    requires
        is_power_of_two(value as int),
    ensures
        power_of_two(exponent as nat) == value,
        exponent < 64,
{
    let ghost target = choose|e: nat| power_of_two(e) == value as int;
    proof {
        if target >= 64 {
            lemma_power_of_two_monotonic(64, target);
            lemma_power_of_two_adds(32, 32);
            lemma_power_of_two_values();
        }
    }
    let mut remaining = value;
    let mut exponent: usize = 0;
    while remaining > 1
        invariant
            exponent <= target < 64,
            remaining == power_of_two((target - exponent) as nat),
        decreases remaining,
    {
        proof {
            let k = (target - exponent) as nat;
            if k == 0 {
                assert(remaining == 1);
            }
            assert(remaining == 2 * power_of_two((k - 1) as nat));
        }
        remaining = remaining / 2;
        exponent = exponent + 1;
    }
    proof {
        lemma_power_of_two_positive((target - exponent) as nat);
        lemma_power_of_two_values();
        lemma_power_of_two_injective((target - exponent) as nat, 0);
    }
    exponent
}

/// Some power of two, from `power_of_two(exponent)` up, is at least `value` and less than
/// twice it.
proof fn lemma_power_of_two_reaches(value: int, exponent: nat) -> (reached: nat)
    requires
        power_of_two(exponent) < value,
    ensures
        value <= power_of_two(reached) < 2 * value,
    decreases value - power_of_two(exponent),
{
    let next = (exponent + 1) as nat;
    lemma_power_of_two_positive(exponent);
    assert(power_of_two(next) == 2 * power_of_two(exponent));
    if power_of_two(next) >= value {
        next
    } else {
        lemma_power_of_two_reaches(value, next)
    }
}

/// Every positive `value` has a power of two that is at least it and less than twice it.
pub proof fn lemma_power_of_two_at_least(value: int)
    requires
        value >= 1,
    ensures
        exists|power: int| is_power_of_two(power) && value <= power < 2 * value,
{
    let exponent = if value == 1 {
        0
    } else {
        lemma_power_of_two_reaches(value, 0)
    };
    assert(power_of_two(0) == 1);
    let power = power_of_two(exponent) as int;
    assert(is_power_of_two(power));
}

/// The smallest power of two that is at least `value`.
pub fn next_power_of_two(value: usize) -> (power: usize)
    requires
        1 <= value <= 0x8000_0000,
    ensures
        is_power_of_two(power as int),
        value <= power,
        power < 2 * value,
{
    let mut power: usize = 1;
    let ghost mut exponent: nat = 0;
    proof {
        lemma_power_of_two_values();
    }
    while power < value
        invariant
            1 <= value <= 0x8000_0000,
            power == power_of_two(exponent),
            1 <= power < 2 * value,
        decreases 2 * value - power,
    {
        power = power * 2;
        proof {
            exponent = exponent + 1;
        }
    }
    power
}

/// Is `address` a multiple of `alignment`?
pub fn is_aligned_to(address: usize, alignment: usize) -> (aligned: bool)
    requires
        alignment > 0,
    ensures
        aligned == (address % alignment == 0),
{
    address % alignment == 0
}

/// Rounds `address` up to the next multiple of `alignment`.
pub fn round_up_to_power_of_two(address: usize, alignment: usize) -> (rounded: usize)
    requires
        alignment > 0,
        address + alignment - 1 <= usize::MAX,
    ensures
        rounded % alignment == 0,
        address <= rounded < address + alignment,
{
    let raised = address + (alignment - 1);
    let rounded = raised - raised % alignment;
    assert(rounded % alignment == 0) by (nonlinear_arith)
        requires
            rounded == raised - raised % alignment,
            alignment > 0,
            raised >= 0,
    ;
    rounded
}

/// The largest power of two that divides `difference`.
pub fn smallest_power_of_two_difference(difference: usize) -> (power: usize)
    requires
        difference > 0,
    ensures
        is_power_of_two(power as int),
        difference % power == 0,
        (difference / power) % 2 == 1,
        power <= difference,
{
    let mut power: usize = 1;
    let ghost mut exponent: nat = 0;
    proof {
        lemma_power_of_two_values();
    }
    while (difference / power) % 2 == 0
        invariant
            difference > 0,
            power == power_of_two(exponent),
            power >= 1,
            difference % power == 0,
            power <= difference,
        decreases difference - power,
    {
        let quotient = difference / power;
        assert(quotient >= 1) by (nonlinear_arith)
            requires
                quotient == difference / power,
                power <= difference,
                power >= 1,
        ;
        assert(difference == power * quotient) by (nonlinear_arith)
            requires
                quotient == difference / power,
                difference % power == 0,
                power >= 1,
        ;
        assert(quotient >= 2);
        assert(2 * power <= difference) by (nonlinear_arith)
            requires
                difference == power * quotient,
                quotient >= 2,
                power >= 1,
        ;
        assert(quotient == 2 * (quotient / 2));
        assert(difference == (quotient / 2) * (2 * power)) by (nonlinear_arith)
            requires
                difference == power * quotient,
                quotient == 2 * (quotient / 2),
        ;
        proof {
            vstd::arithmetic::div_mod::lemma_mod_multiples_basic((quotient / 2) as int, 2 * power);
        }
        power = power * 2;
        proof {
            exponent = exponent + 1;
        }
    }
    power
}

} // verus!

verus! {

/// The largest power of two that divides a multiple of a power of two `divisor` is at least
/// `divisor`.
pub proof fn lemma_largest_power_of_two_divisor(value: int, power: int, divisor: int)
    requires
        value > 0,
        is_power_of_two(power),
        is_power_of_two(divisor),
        value % divisor == 0,
        value % power == 0,
        (value / power) % 2 == 1,
    ensures
        power >= divisor,
        power % divisor == 0,
{
    let power_exponent = choose|e: nat| power_of_two(e) == power;
    let divisor_exponent = choose|e: nat| power_of_two(e) == divisor;
    lemma_power_of_two_positive(power_exponent);
    lemma_power_of_two_positive(divisor_exponent);
    if power_exponent < divisor_exponent {
        lemma_power_of_two_divides(power_exponent, divisor_exponent);
        let ratio = power_of_two((divisor_exponent - power_exponent) as nat) as int;
        assert(ratio == 2 * power_of_two((divisor_exponent - power_exponent - 1) as nat));
        let multiple = value / divisor;
        vstd::arithmetic::div_mod::lemma_fundamental_div_mod(value, divisor);
        assert(value == divisor * multiple);
        assert(value == power * (ratio * multiple)) by (nonlinear_arith)
            requires
                value == divisor * multiple,
                divisor == power * ratio,
        ;
        vstd::arithmetic::div_mod::lemma_div_multiples_vanish(ratio * multiple, power);
        assert(value / power == ratio * multiple);
        let half = power_of_two((divisor_exponent - power_exponent - 1) as nat) as int;
        assert(ratio * multiple == (half * multiple) * 2) by (nonlinear_arith)
            requires
                ratio == 2 * half,
        ;
        vstd::arithmetic::div_mod::lemma_mod_multiples_basic(half * multiple, 2);
    } else {
        lemma_power_of_two_monotonic(divisor_exponent, power_exponent);
        lemma_power_of_two_divides(divisor_exponent, power_exponent);
    }
}

/// A power of two that is at least `power` but less than twice it is `power` itself.
pub proof fn lemma_power_of_two_between(power: int, other: int)
    requires
        is_power_of_two(power),
        is_power_of_two(other),
        power <= other < 2 * power,
    ensures
        other == power,
{
    let power_exponent = choose|e: nat| power_of_two(e) == power;
    let other_exponent = choose|e: nat| power_of_two(e) == other;
    if other_exponent > power_exponent {
        lemma_power_of_two_monotonic(power_exponent + 1, other_exponent);
    } else if other_exponent < power_exponent {
        lemma_power_of_two_monotonic(other_exponent + 1, power_exponent);
        lemma_power_of_two_positive(other_exponent);
    }
}

} // verus!

verus! {

/// A power of two that exceeds another is at least twice it.
pub proof fn lemma_power_of_two_above(larger: int, smaller: int)
    requires
        is_power_of_two(larger),
        is_power_of_two(smaller),
        larger > smaller,
    ensures
        larger >= 2 * smaller,
        larger % smaller == 0,
{
    let larger_exponent = choose|e: nat| power_of_two(e) == larger;
    let smaller_exponent = choose|e: nat| power_of_two(e) == smaller;
    if larger_exponent <= smaller_exponent {
        lemma_power_of_two_monotonic(larger_exponent, smaller_exponent);
    } else {
        lemma_power_of_two_monotonic(smaller_exponent + 1, larger_exponent);
        lemma_power_of_two_divides(smaller_exponent, larger_exponent);
    }
}

} // verus!

verus! {

/// `power_of_two` agrees with vstd's `pow2`.
pub proof fn lemma_power_of_two_is_pow2(exponent: nat)
    ensures
        power_of_two(exponent) == vstd::arithmetic::power2::pow2(exponent),
    decreases exponent,
{
    if exponent == 0 {
        vstd::arithmetic::power2::lemma2_to64();
    } else {
        lemma_power_of_two_is_pow2((exponent - 1) as nat);
        vstd::arithmetic::power2::lemma_pow2_unfold(exponent);
    }
}

/// Shifting right by `exponent` divides by `2^exponent`.
pub proof fn lemma_shift_right_divides(value: usize, exponent: usize)
    requires
        exponent < usize::BITS,
    ensures
        value >> exponent == value as nat / power_of_two(exponent as nat),
{
    lemma_power_of_two_is_pow2(exponent as nat);
    vstd::bits::lemma_usize_shr_is_div(value, exponent);
}

/// Shifting left by `exponent` multiplies by `2^exponent` when the product fits.
pub proof fn lemma_shift_left_multiplies(value: usize, exponent: usize)
    requires
        exponent < usize::BITS,
        value * power_of_two(exponent as nat) <= usize::MAX,
    ensures
        value << exponent == value * power_of_two(exponent as nat),
{
    lemma_power_of_two_is_pow2(exponent as nat);
    vstd::bits::lemma_usize_shl_is_mul(value, exponent);
}

} // verus!

verus! {

/// A power of two that fits in a `usize` has an exponent below `usize::BITS`.
pub proof fn lemma_exponent_below_bits(exponent: nat)
    requires
        power_of_two(exponent) <= usize::MAX,
    ensures
        exponent < usize::BITS,
{
    lemma_power_of_two_values();
    lemma_power_of_two_adds(32, 32);
    if exponent >= usize::BITS {
        lemma_power_of_two_monotonic(usize::BITS as nat, exponent);
    }
}

} // verus!
