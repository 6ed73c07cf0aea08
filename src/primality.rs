use vstd::prelude::*;

verus! {

/// No integer in `[2, n)` divides `n`: for `n >= 2`, `n` is prime.
pub open spec fn no_proper_divisor(n: int) -> bool {
    forall|d: int| 2 <= d < n ==> #[trigger] (n % d) != 0
}

/// A divisor `d` in `[2, n)` of `n` has a cofactor `n / d` in `[2, n)` that divides `n`
/// too, and their product is `n`.
proof fn lemma_cofactor(n: int, d: int)
    requires
        2 <= d < n,
        n % d == 0,
    ensures
        2 <= n / d < n,
        n % (n / d) == 0,
        d * (n / d) == n,
{
    let e = n / d;
    assert(n == d * e) by (nonlinear_arith)
        requires
            n % d == 0,
            d > 0,
            e == n / d,
    ;
    assert(2 <= e < n) by (nonlinear_arith)
        requires
            n == d * e,
            2 <= d < n,
    ;
    assert(n % e == 0) by (nonlinear_arith)
        requires
            n == d * e,
            e > 0,
    ;
}

/// Trial division up to the square root of `n`: true when no integer in `[2, n)` divides
/// `n`, so for prime `n` and for 0 and 1.
pub fn is_prime(n: u32) -> (r: bool)
    ensures
        r == no_proper_divisor(n as int),
{
    let mut i: u64 = 2;
    while i * i <= n as u64
        invariant
            2 <= i <= 65536,
            i * i <= 0x1_0000_0000,
            forall|d: int| 2 <= d < i && d < n ==> #[trigger] ((n as int) % d) != 0,
        decreases 65537 - i,
    {
        if n as u64 % i == 0 {
            assert(i < n) by (nonlinear_arith)
                requires
                    i * i <= n,
                    i >= 2,
            ;
            return false;
        }
        assert(i < 65536 && (i + 1) * (i + 1) <= 0x1_0000_0000) by (nonlinear_arith)
            requires
                i * i <= n,
                n < 0x1_0000_0000,
                i >= 2,
        ;
        i = i + 1;
    }
    assert forall|d: int| 2 <= d < n implies #[trigger] ((n as int) % d) != 0 by {
        if (n as int) % d == 0 && d >= i {
            lemma_cofactor(n as int, d);
            let e = (n as int) / d;
            assert(e < i) by (nonlinear_arith)
                requires
                    d * e == n,
                    d >= i,
                    i * i > n,
                    e >= 2,
            ;
            assert((n as int) % e != 0);
        }
    }
    true
}

} // verus!
