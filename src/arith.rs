use vstd::prelude::*;

verus! {

/// The number of decimal digits of `n`, at least one.
pub open spec fn digit_count(n: nat) -> nat
    decreases n,
{
    if n < 10 {
        1
    } else {
        1 + digit_count(n / 10)
    }
}

/// Ten to the power `k`.
pub open spec fn pow10(k: nat) -> nat
    decreases k,
{
    if k == 0 {
        1
    } else {
        10 * pow10((k - 1) as nat)
    }
}

/// The ceiling of `a / b`.
pub open spec fn ceil_div(a: nat, b: nat) -> nat
    recommends
        b > 0,
{
    if a % b == 0 {
        a / b
    } else {
        a / b + 1
    }
}

proof fn lemma_digit_count_bound(n: nat, k: nat)
    requires
        1 <= k,
        n < pow10(k),
    ensures
        digit_count(n) <= k,
    decreases k,
{
    if n >= 10 {
        if k == 1 {
            assert(pow10(1) == 10) by {
                reveal_with_fuel(pow10, 2);
            }
        } else {
            lemma_digit_count_bound(n / 10, (k - 1) as nat);
        }
    }
}

/// `ceil_div(a, b)` is the least `q` with `a <= q * b`.
pub proof fn lemma_ceil_div(a: nat, b: nat)
    requires
        b > 0,
    ensures
        a <= ceil_div(a, b) * b,
        a > 0 ==> (ceil_div(a, b) - 1) * b < a,
        a > 0 ==> ceil_div(a, b) >= 1,
{
    let q = a / b;
    let r = a % b;
    assert(a == q * b + r) by (nonlinear_arith)
        requires
            b > 0,
            q == a / b,
            r == a % b,
    ;
    if r != 0 {
        assert((q + 1) * b == q * b + b) by (nonlinear_arith);
    } else if a > 0 {
        assert(q >= 1) by (nonlinear_arith)
            requires
                a == q * b + 0,
                a > 0,
                b > 0,
        ;
        assert((q - 1) * b == q * b - b) by (nonlinear_arith);
    }
}

/// Division of `a` by `b`, rounded up.
pub fn round_up_div(a: u64, b: u64) -> (r: u64)
    requires
        b > 0,
    ensures
        r == ceil_div(a as nat, b as nat),
{
    if a % b != 0 {
        assert(a / b < a) by (nonlinear_arith)
            requires
                b > 0,
                a % b != 0,
        {
            assert(a == (a / b) * b + a % b);
            assert(b >= 2);
        }
        a / b + 1
    } else {
        a / b
    }
}

/// The number of decimal digits needed to write `num`.
pub fn digits(num: u64) -> (count: usize)
    ensures
        count == digit_count(num as nat),
        1 <= count <= 20,
{
    proof {
        reveal_with_fuel(pow10, 21);
        assert(pow10(20) == 100000000000000000000nat);
        lemma_digit_count_bound(num as nat, 20);
    }
    let mut count: usize = 1;
    let mut current: u64 = num;
    while current >= 10
        invariant
            count + digit_count(current as nat) == 1 + digit_count(num as nat),
            digit_count(num as nat) <= 20,
            1 <= count,
        decreases current,
    {
        current = current / 10;
        count = count + 1;
    }
    count
}

} // verus!
