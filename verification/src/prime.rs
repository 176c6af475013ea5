//! Primality testing for the JSON number service.

use vstd::prelude::*;

verus! {

/// A prime: greater than one, with no divisor between.
pub open spec fn is_prime_int(n: int) -> bool {
    n > 1 && forall|d: int| 2 <= d < n ==> #[trigger] (n % d) != 0
}

/// Types that can say whether they are prime.
pub trait PrimeCheck {
    /// What counts as prime for this value.
    spec fn prime_spec(&self) -> bool;

    fn is_prime(&self) -> (r: bool)
        ensures
            r == self.prime_spec(),
    ;
}

impl PrimeCheck for i64 {
    open spec fn prime_spec(&self) -> bool {
        is_prime_int(*self as int)
    }

    /// Trial division up to the square root.
    fn is_prime(&self) -> (r: bool)
        ensures
            r == self.prime_spec(),
    {
        let n = *self;
        if n <= 1 {
            return false;
        }
        if n == 2 || n == 3 {
            proof {
                assert forall|dd: int| 2 <= dd < n as int implies #[trigger] (n as int % dd) != 0 by {
                    assert(dd == 2);
                    assert(n == 3);
                    assert(3int % 2int == 1);
                }
                assert(is_prime_int(n as int));
            }
            return true;
        }
        let mut d: i64 = 2;
        while d <= n / d
            invariant
                n == *self,
                2 <= d <= n,
                3 < n,
                forall|e: int| 2 <= e < d ==> #[trigger] (n as int % e) != 0,
            decreases n - d,
        {
            let ghost ni = n as int;
            let ghost di = d as int;
            proof {
                vstd::arithmetic::div_mod::lemma_fundamental_div_mod(ni, di);
                assert(di < ni) by (nonlinear_arith)
                    requires
                        ni == di * (ni / di) + ni % di,
                        0 <= ni % di < di,
                        di <= ni / di,
                        2 <= di,
                ;
            }
            if n % d == 0 {
                proof {
                    assert(ni % di == 0);
                    if is_prime_int(ni) {
                        assert(2 <= di < ni);
                        assert(ni % di != 0);
                        assert(false);
                    }
                }
                return false;
            }
            d = d + 1;
        }
        proof {
            let ni = n as int;
            let di = d as int;
            vstd::arithmetic::div_mod::lemma_fundamental_div_mod(ni, di);
            // the loop stopped past the square root
            assert(di * di > ni) by (nonlinear_arith)
                requires
                    ni == di * (ni / di) + ni % di,
                    0 <= ni % di < di,
                    di > ni / di,
                    2 <= di,
            ;
            // no divisor up to the square root means none at all: a large
            // divisor pairs with a small one already ruled out
            assert forall|e: int| 2 <= e < ni implies #[trigger] (ni % e) != 0 by {
                if ni % e == 0 {
                    if e >= di {
                        let q = ni / e;
                        vstd::arithmetic::div_mod::lemma_fundamental_div_mod(ni, e);
                        assert(ni == e * q);
                        assert(2 <= q) by (nonlinear_arith)
                            requires
                                ni == e * q,
                                2 <= e < ni,
                        ;
                        assert(q < di) by (nonlinear_arith)
                            requires
                                ni == e * q,
                                di * di > ni,
                                e >= di,
                                q >= 2,
                                di >= 2,
                        ;
                        vstd::arithmetic::div_mod::lemma_mod_multiples_basic(e, q);
                        assert(ni % q == 0);
                        assert(ni % q != 0);
                    }
                }
            }
        }
        true
    }
}

} // verus!
