use vstd::prelude::*;

verus! {

/// `10` raised to `n`.
pub open spec fn pow10(n: nat) -> nat
    decreases n,
{
    if n == 0 {
        1
    } else {
        10 * pow10((n - 1) as nat)
    }
}

/// A decimal number: its value is `mantissa / 10^scale`.
#[derive(Clone, Copy, Debug, PartialEq, Eq, Structural)]
pub struct Decimal {
    pub mantissa: i128,
    pub scale: u32,
}

pub proof fn lemma_pow10_pos(n: nat)
    ensures
        pow10(n) >= 1,
    decreases n,
{
    if n > 0 {
        lemma_pow10_pos((n - 1) as nat);
    }
}

pub proof fn lemma_pow10_add(a: nat, b: nat)
    ensures
        pow10(a + b) == pow10(a) * pow10(b),
    decreases b,
{
    if b > 0 {
        let b1 = (b - 1) as nat;
        lemma_pow10_add(a, b1);
        assert(pow10(a + b) == 10 * pow10(a + b1));
        assert(pow10(b) == 10 * pow10(b1));
        assert(pow10(a) * (10 * pow10(b1)) == 10 * (pow10(a) * pow10(b1))) by (nonlinear_arith);
        assert(pow10(a) * pow10(b) == pow10(a) * (10 * pow10(b1)));
    } else {
        assert(pow10(0) == 1);
        assert(a + b == a);
    }
}

pub proof fn lemma_pow10_mono(a: nat, b: nat)
    requires
        a <= b,
    ensures
        pow10(a) <= pow10(b),
    decreases b,
{
    if a < b {
        lemma_pow10_mono(a, (b - 1) as nat);
        lemma_pow10_pos((b - 1) as nat);
    }
}

pub proof fn lemma_pow10_le(n: nat)
    requires
        n <= 16,
    ensures
        1 <= pow10(n) <= 10_000_000_000_000_000,
{
    lemma_pow10_mono(n, 16);
    lemma_pow10_pos(n);
    reveal_with_fuel(pow10, 17);
}

/// `10^n` as a machine integer.
pub fn pow10_exec(n: u32) -> (r: u64)
    requires
        n <= 18,
    ensures
        r == pow10(n as nat),
{
    let mut r: u64 = 1;
    let mut i: u32 = 0;
    while i < n
        invariant
            i <= n <= 18,
            r == pow10(i as nat),
        decreases n - i,
    {
        proof {
            lemma_pow10_mono(i as nat, 17);
            reveal_with_fuel(pow10, 18);
            assert(pow10(17) == 100000000000000000);
        }
        r = r * 10;
        i = i + 1;
    }
    r
}

/// `10^n` as a 128-bit integer.
pub fn pow10_wide(n: u32) -> (r: u128)
    requires
        n <= 38,
    ensures
        r == pow10(n as nat),
{
    let mut r: u128 = 1;
    let mut i: u32 = 0;
    while i < n
        invariant
            i <= n <= 38,
            r == pow10(i as nat),
        decreases n - i,
    {
        proof {
            lemma_pow10_mono(i as nat, 37);
            reveal_with_fuel(pow10, 38);
            assert(pow10(37) == 10_000_000_000_000_000_000_000_000_000_000_000_000);
        }
        r = r * 10;
        i = i + 1;
    }
    r
}

} // verus!
