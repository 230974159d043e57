use vstd::prelude::*;

use vstd::arithmetic::power::pow;
use vstd::arithmetic::power2::{lemma2_to64, lemma2_to64_rest, pow2};

use crate::errors::HamiltonianError;

verus! {

/// `fact(n)` is the mathematical factorial `n!`.
pub open spec fn fact(n: nat) -> nat
    decreases n,
{
    if n == 0 {
        1
    } else {
        n * fact((n - 1) as nat)
    }
}

/// `hermite_coeff(n, m)` is the coefficient of `x^m` in the Hermite
/// polynomial `H_n`, defined by the recurrence
/// `H(0,0) = 1`, `H(n,m) = 2*H(n-1,m-1) - (m+1)*H(n-1,m+1)`,
/// and `H(n,m) = 0` outside `0 <= m <= n`.
pub open spec fn hermite_coeff(n: int, m: int) -> int
    decreases n,
{
    if n < 0 || m < 0 || m > n {
        0
    } else if n == 0 {
        1
    } else {
        2 * hermite_coeff(n - 1, m - 1) - (m + 1) * hermite_coeff(n - 1, m + 1)
    }
}

/// Every coefficient of row `k` of the recurrence fits the `i64` range.
pub open spec fn hermite_row_fits(k: int) -> bool {
    forall|m: int| 0 <= m <= k ==> i64::MIN <= #[trigger] hermite_coeff(k, m) <= i64::MAX
}

/// Every row of the recurrence up to and including row `n` fits the `i64`
/// range.
pub open spec fn hermite_rows_fit(n: int) -> bool {
    forall|k: int| 0 <= k <= n ==> #[trigger] hermite_row_fits(k)
}

/// Factorial is monotone in its argument.
pub proof fn lemma_fact_monotonic(i: nat, n: nat)
    requires
        i <= n,
    ensures
        fact(i) <= fact(n),
    decreases n - i,
{
    if i < n {
        lemma_fact_monotonic(i, (n - 1) as nat);
        assert(fact(n) == n * fact((n - 1) as nat));
        assert(n * fact((n - 1) as nat) >= 1 * fact((n - 1) as nat)) by (nonlinear_arith)
            requires
                n >= 1,
        ;
    }
}

/// The leading coefficient of `H_n` is `2^n`.
pub proof fn lemma_hermite_leading_coeff(n: nat)
    ensures
        hermite_coeff(n as int, n as int) == pow2(n),
    decreases n,
{
    if n == 0 {
        assert(pow2(0) == 1) by {
            lemma2_to64();
        }
    } else {
        lemma_hermite_leading_coeff((n - 1) as nat);
        assert(hermite_coeff(n as int - 1, n as int + 1) == 0);
        assert(hermite_coeff(n as int, n as int) == 2 * hermite_coeff(n - 1, n - 1));
        assert(pow2(n) == 2 * pow2((n - 1) as nat)) by {
            vstd::arithmetic::power2::lemma_pow2_unfold(n);
        }
    }
}

/// Row 63 of the recurrence holds a coefficient beyond `i64::MAX`.
proof fn lemma_hermite_row_63_overflows()
    ensures
        !hermite_row_fits(63),
{
    lemma_hermite_leading_coeff(63);
    lemma2_to64();
    lemma2_to64_rest();
    assert(hermite_coeff(63, 63) == 0x8000000000000000);
}

/// The sum of `hermite_coeff(n, j) * x^j` for `j` from `0` up to `m`.
pub open spec fn hermite_poly_partial(n: int, x: int, m: int) -> int
    decreases m + 1,
{
    if m < 0 {
        0
    } else {
        hermite_poly_partial(n, x, m - 1) + hermite_coeff(n, m) * pow(x, m as nat)
    }
}

/// The recurrence applied once, with the out-of-range coefficients of the
/// previous row already replaced by zero.
pub proof fn lemma_hermite_coeff_step(n: int, m: int)
    requires
        1 <= n,
        0 <= m <= n,
    ensures
        hermite_coeff(n, m) == 2 * hermite_coeff(n - 1, m - 1) - (m + 1) * hermite_coeff(
            n - 1,
            m + 1,
        ),
{
}

/// The value of `H_n` at the integer point `x`.
pub open spec fn hermite_poly_at(n: int, x: int) -> int {
    hermite_poly_partial(n, x, n)
}

/// The three lowest Hermite polynomials take the closed-form values
/// `H_0(x) = 1`, `H_1(x) = 2x` and `H_2(x) = 4x^2 - 2` at every point.
pub proof fn lemma_hermite_low_orders(x: int)
    ensures
        hermite_poly_at(0, x) == 1,
        hermite_poly_at(1, x) == 2 * x,
        hermite_poly_at(2, x) == 4 * x * x - 2,
{
    assert(hermite_coeff(0, -1) == 0);
    assert(hermite_coeff(0, 0) == 1);
    assert(hermite_coeff(0, 1) == 0);
    assert(hermite_coeff(0, 2) == 0);
    assert(hermite_coeff(1, -1) == 0);
    assert(hermite_coeff(1, 2) == 0);
    assert(hermite_coeff(1, 3) == 0);
    lemma_hermite_coeff_step(1, 0);
    lemma_hermite_coeff_step(1, 1);
    assert(hermite_coeff(1, 0) == 0);
    assert(hermite_coeff(1, 1) == 2);
    lemma_hermite_coeff_step(2, 0);
    lemma_hermite_coeff_step(2, 1);
    lemma_hermite_coeff_step(2, 2);
    assert(hermite_coeff(2, 0) == -2);
    assert(hermite_coeff(2, 1) == 0);
    assert(hermite_coeff(2, 2) == 4);
    vstd::arithmetic::power::lemma_pow0(x);
    vstd::arithmetic::power::lemma_pow1(x);
    assert(pow(x, 2) == x * pow(x, 1)) by {
        reveal_with_fuel(pow, 3);
    }
    assert(hermite_poly_partial(0, x, -1) == 0);
    assert(hermite_poly_partial(1, x, -1) == 0);
    assert(hermite_poly_partial(2, x, -1) == 0);
    assert(hermite_poly_partial(0, x, 0) == 1);
    assert(hermite_poly_at(0, x) == 1);
    assert(hermite_poly_partial(1, x, 0) == 0);
    assert(hermite_poly_partial(1, x, 1) == 2 * x);
    assert(hermite_poly_at(1, x) == 2 * x);
    assert(hermite_poly_partial(2, x, 0) == -2);
    assert(hermite_poly_partial(2, x, 1) == -2);
    assert(hermite_poly_partial(2, x, 2) == -2 + 4 * (x * x));
    assert(hermite_poly_at(2, x) == -2 + 4 * (x * x));
    assert(4 * (x * x) == 4 * x * x) by (nonlinear_arith);
}

/// Factorial with an explicit overflow boundary: returns `n!` when it fits
/// a 64-bit word, and `NumericPrecisionLimit` exactly when it does not.
pub fn factorial(n: u64) -> (r: Result<u64, HamiltonianError>)
    ensures
        fact(n as nat) <= u64::MAX ==> r == Ok::<u64, HamiltonianError>((fact(n as nat)) as u64),
        fact(n as nat) > u64::MAX ==> r == Err::<u64, HamiltonianError>(
            HamiltonianError::NumericPrecisionLimit,
        ),
{
    let mut acc: u64 = 1;
    let mut i: u64 = 0;
    while i < n
        invariant
            i <= n,
            acc == fact(i as nat),
        decreases n - i,
    {
        i = i + 1;
        proof {
            assert(fact(i as nat) == i * fact((i - 1) as nat));
            assert(acc == fact((i - 1) as nat));
        }
        match acc.checked_mul(i) {
            Some(v) => {
                proof {
                    vstd::arithmetic::mul::lemma_mul_is_commutative(acc as int, i as int);
                    assert(v == fact(i as nat));
                }
                acc = v;
            },
            None => {
                proof {
                    vstd::arithmetic::mul::lemma_mul_is_commutative(acc as int, i as int);
                    assert(fact(i as nat) > u64::MAX);
                    lemma_fact_monotonic(i as nat, n as nat);
                }
                return Err(HamiltonianError::NumericPrecisionLimit);
            },
        }
    }
    Ok(acc)
}

/// The coefficients of `H_n`, lowest power first, built bottom-up one row
/// at a time. Returns `NumericPrecisionLimit` exactly when some coefficient
/// of some row up to `n` leaves the `i64` range.
pub fn hermite_coefficients(n: usize) -> (r: Result<Vec<i64>, HamiltonianError>)
    ensures
        match r {
            Ok(v) => hermite_rows_fit(n as int) && v@.len() == n + 1 && forall|m: int|
                0 <= m <= n ==> v@[m] == hermite_coeff(n as int, m),
            Err(e) => e == HamiltonianError::NumericPrecisionLimit && !hermite_rows_fit(n as int),
        },
{
    if n >= 63 {
        proof {
            lemma_hermite_row_63_overflows();
        }
        return Err(HamiltonianError::NumericPrecisionLimit);
    }
    let mut row: Vec<i64> = Vec::new();
    row.push(1);
    let mut k: usize = 0;
    while k < n
        invariant
            k <= n,
            n < 63,
            row@.len() == k + 1,
            forall|j: int| 0 <= j <= k ==> row@[j] == hermite_coeff(k as int, j),
            hermite_rows_fit(k as int),
        decreases n - k,
    {
        let mut next: Vec<i64> = Vec::new();
        let mut m: usize = 0;
        while m <= k + 1
            invariant
                m <= k + 2,
                k < n,
                n < 63,
                row@.len() == k + 1,
                forall|j: int| 0 <= j <= k ==> row@[j] == hermite_coeff(k as int, j),
                hermite_rows_fit(k as int),
                next@.len() == m,
                forall|j: int| 0 <= j < m ==> next@[j] == hermite_coeff(k + 1, j),
            decreases k + 2 - m,
        {
            let prev_lo: i128 = if m >= 1 {
                row[m - 1] as i128
            } else {
                0
            };
            let prev_hi: i128 = if m + 1 <= k {
                row[m + 1] as i128
            } else {
                0
            };
            let c: i128 = (m as i128) + 1;
            proof {
                assert(1 <= c <= 64);
                assert(-0x400_0000_0000_0000_0000i128 <= c * prev_hi
                    <= 0x400_0000_0000_0000_0000i128) by (nonlinear_arith)
                    requires
                        1 <= c <= 64,
                        -0x8000_0000_0000_0000i128 <= prev_hi <= 0x7fff_ffff_ffff_ffffi128,
                ;
            }
            let t: i128 = 2 * prev_lo - c * prev_hi;
            proof {
                assert(prev_lo == hermite_coeff(k as int, m - 1));
                assert(prev_hi == hermite_coeff(k as int, m + 1));
                assert(t == hermite_coeff(k + 1, m as int));
            }
            if t < i64::MIN as i128 || t > i64::MAX as i128 {
                proof {
                    assert(!hermite_row_fits(k + 1));
                }
                return Err(HamiltonianError::NumericPrecisionLimit);
            }
            next.push(t as i64);
            m = m + 1;
        }
        row = next;
        k = k + 1;
        proof {
            assert forall|m2: int| 0 <= m2 <= k implies i64::MIN <= #[trigger] hermite_coeff(
                k as int,
                m2,
            ) <= i64::MAX by {
                assert(row@[m2] == hermite_coeff(k as int, m2));
            }
            assert(hermite_row_fits(k as int));
            assert forall|k2: int| 0 <= k2 <= k implies #[trigger] hermite_row_fits(k2) by {
                if k2 < k {
                    assert(hermite_rows_fit(k - 1));
                }
            }
            assert(hermite_rows_fit(k as int));
        }
    }
    Ok(row)
}

/// One coefficient of `H_n`: the coefficient of `x^m`, zero for `m > n`.
pub fn hermite_coefficient(n: usize, m: usize) -> (r: Result<i64, HamiltonianError>)
    ensures
        match r {
            Ok(c) => hermite_rows_fit(n as int) && c == hermite_coeff(n as int, m as int),
            Err(e) => e == HamiltonianError::NumericPrecisionLimit && !hermite_rows_fit(n as int),
        },
{
    match hermite_coefficients(n) {
        Ok(v) => {
            if m <= n {
                Ok(v[m])
            } else {
                Ok(0)
            }
        },
        Err(e) => Err(e),
    }
}

} // verus!
