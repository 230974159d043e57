use vstd::prelude::*;

use vstd::arithmetic::div_mod::lemma_mod_division_less_than_divisor;

use crate::basis::{BasisCoordinate, BasisResolution};
use crate::errors::HamiltonianError;

verus! {

/// The non-negative wraparound of the index difference `b - a` onto the
/// period `p`.
pub open spec fn spec_wrapped_difference(a: int, b: int, p: int) -> int {
    (b - a) % p
}

/// The memoization key of one ordered pair of basis coordinates: the two
/// wrapped reciprocal-index differences and the two oscillator orders.
/// The coupling energy of a pair depends on this key alone, never on the
/// pair itself.
pub open spec fn spec_pair_key(c1: BasisCoordinate, c2: BasisCoordinate, p1: int, p2: int) -> (
    int,
    int,
    int,
    int,
) {
    (
        spec_wrapped_difference(c1.nkx1 as int, c2.nkx1 as int, p1),
        spec_wrapped_difference(c1.nkx2 as int, c2.nkx2 as int, p2),
        c1.nz as int,
        c2.nz as int,
    )
}

/// The position of the key `(d1, d2, nz1, nz2)` in the flattened table of
/// distinct keys: `d1`-major, then `d2`, then the two orders.
pub open spec fn spec_flat_key(d1: int, d2: int, nz1: int, nz2: int, p2: int, zc: int) -> int {
    ((d1 * p2 + d2) * zc + nz1) * zc + nz2
}

/// The number of distinct keys: `p1 * p2 * zc * zc`.
pub open spec fn spec_key_count(p1: int, p2: int, zc: int) -> int {
    p1 * p2 * zc * zc
}

/// The flattened key of one ordered pair of basis coordinates.
pub open spec fn spec_pair_flat_key(
    c1: BasisCoordinate,
    c2: BasisCoordinate,
    p1: int,
    p2: int,
    zc: int,
) -> int {
    let (d1, d2, nz1, nz2) = spec_pair_key(c1, c2, p1, p2);
    spec_flat_key(d1, d2, nz1, nz2, p2, zc)
}

/// The entry that the coupling matrix holds for the ordered pair
/// `(a, b)` of canonical positions: the value stored in the per-key table
/// under that pair's key.
pub open spec fn spec_matrix_entry<T>(
    res: BasisResolution,
    p1: int,
    p2: int,
    values: Seq<T>,
    a: int,
    b: int,
) -> T {
    values[spec_pair_flat_key(
        res.coordinate_at(a),
        res.coordinate_at(b),
        p1,
        p2,
        res.z_count as int,
    )]
}

/// A reciprocal period of zero samples cannot be wrapped onto; such a
/// potential grid is the `DimensionMismatch` failure.
pub fn validate_periods(p1: usize, p2: usize) -> (r: Result<(), HamiltonianError>)
    ensures
        p1 >= 1 && p2 >= 1 ==> r == Ok::<(), HamiltonianError>(()),
        !(p1 >= 1 && p2 >= 1) ==> r == Err::<(), HamiltonianError>(
            HamiltonianError::DimensionMismatch,
        ),
{
    if p1 >= 1 && p2 >= 1 {
        Ok(())
    } else {
        Err(HamiltonianError::DimensionMismatch)
    }
}

/// The wrapped index difference `(b - a) mod p`, always non-negative.
pub fn wrapped_difference(a: i64, b: i64, p: usize) -> (r: usize)
    requires
        1 <= p,
    ensures
        r == spec_wrapped_difference(a as int, b as int, p as int),
        r < p,
{
    let d: i128 = (b as i128) - (a as i128);
    proof {
        lemma_mod_division_less_than_divisor(d as int, p as int);
    }
    let m: i128 = d.checked_rem_euclid(p as i128).unwrap();
    m as usize
}

/// The flattened key of a pair lies inside the table of distinct keys.
pub proof fn lemma_pair_flat_key_in_range(
    c1: BasisCoordinate,
    c2: BasisCoordinate,
    p1: int,
    p2: int,
    zc: int,
)
    requires
        1 <= p1,
        1 <= p2,
        1 <= zc,
        c1.nz < zc,
        c2.nz < zc,
    ensures
        0 <= spec_pair_flat_key(c1, c2, p1, p2, zc) < spec_key_count(p1, p2, zc),
{
    let d1: int = spec_wrapped_difference(c1.nkx1 as int, c2.nkx1 as int, p1);
    let d2: int = spec_wrapped_difference(c1.nkx2 as int, c2.nkx2 as int, p2);
    lemma_mod_division_less_than_divisor(c2.nkx1 - c1.nkx1, p1);
    lemma_mod_division_less_than_divisor(c2.nkx2 - c1.nkx2, p2);
    lemma_flat_key_in_range(d1, d2, c1.nz as int, c2.nz as int, p1, p2, zc);
}

/// The flattened position of any in-range key is inside the table.
pub proof fn lemma_flat_key_in_range(d1: int, d2: int, nz1: int, nz2: int, p1: int, p2: int, zc: int)
    requires
        1 <= p1,
        1 <= p2,
        1 <= zc,
        0 <= d1 < p1,
        0 <= d2 < p2,
        0 <= nz1 < zc,
        0 <= nz2 < zc,
    ensures
        0 <= spec_flat_key(d1, d2, nz1, nz2, p2, zc) < spec_key_count(p1, p2, zc),
{
    let q1: int = p1 * p2;
    let q2: int = q1 * zc;
    let q3: int = q2 * zc;
    assert(spec_key_count(p1, p2, zc) == q3) by (nonlinear_arith)
        requires
            q1 == p1 * p2,
            q2 == q1 * zc,
            q3 == q2 * zc,
    ;
    let t1: int = d1 * p2 + d2;
    let t2: int = t1 * zc + nz1;
    let t3: int = t2 * zc + nz2;
    assert(0 <= t1 < q1) by (nonlinear_arith)
        requires
            0 <= d1 < p1,
            0 <= d2 < p2,
            1 <= p2,
            t1 == d1 * p2 + d2,
            q1 == p1 * p2,
    ;
    assert(0 <= t2 < q2) by (nonlinear_arith)
        requires
            0 <= t1 < q1,
            0 <= nz1 < zc,
            1 <= zc,
            t2 == t1 * zc + nz1,
            q2 == q1 * zc,
    ;
    assert(0 <= t3 < q3) by (nonlinear_arith)
        requires
            0 <= t2 < q2,
            0 <= nz2 < zc,
            1 <= zc,
            t3 == t2 * zc + nz2,
            q3 == q2 * zc,
    ;
}

/// The number of distinct memoization keys, or `None` where it exceeds
/// the machine word.
pub fn key_count(p1: usize, p2: usize, zc: usize) -> (r: Option<usize>)
    ensures
        spec_key_count(p1 as int, p2 as int, zc as int) <= usize::MAX ==> r == Some(
            (spec_key_count(p1 as int, p2 as int, zc as int)) as usize,
        ),
        spec_key_count(p1 as int, p2 as int, zc as int) > usize::MAX ==> r == None::<usize>,
{
    proof {
        assert(p1 as int * p2 as int <= 0xffff_ffff_ffff_fffe_0000_0000_0000_0001)
            by (nonlinear_arith)
            requires
                p1 <= 0xffff_ffff_ffff_ffffu64,
                p2 <= 0xffff_ffff_ffff_ffffu64,
        ;
    }
    let q1: u128 = (p1 as u128) * (p2 as u128);
    let q2: u128 = match q1.checked_mul(zc as u128) {
        Some(v) => v,
        None => {
            proof {
                lemma_key_count_monotonic(p1 as int, p2 as int, zc as int);
            }
            return None;
        },
    };
    let q3: u128 = match q2.checked_mul(zc as u128) {
        Some(v) => v,
        None => {
            return None;
        },
    };
    if q3 <= (usize::MAX as u128) {
        Some(q3 as usize)
    } else {
        None
    }
}

/// A key count whose first three factors already overflow is itself over
/// every machine bound.
proof fn lemma_key_count_monotonic(p1: int, p2: int, zc: int)
    requires
        0 <= p1,
        0 <= p2,
        0 <= zc,
        p1 * p2 * zc > u128::MAX,
    ensures
        spec_key_count(p1, p2, zc) > usize::MAX,
{
    assert(p1 * p2 * zc * zc >= p1 * p2 * zc) by (nonlinear_arith)
        requires
            p1 * p2 * zc > u128::MAX,
            zc >= 0,
    ;
}

/// The flattened memoization key of one ordered pair of basis
/// coordinates.
pub fn pair_flat_key(c1: &BasisCoordinate, c2: &BasisCoordinate, p1: usize, p2: usize, zc: usize) -> (r:
    usize)
    requires
        1 <= p1,
        1 <= p2,
        1 <= zc,
        c1.nz < zc,
        c2.nz < zc,
        spec_key_count(p1 as int, p2 as int, zc as int) <= usize::MAX,
    ensures
        r == spec_pair_flat_key(*c1, *c2, p1 as int, p2 as int, zc as int),
        r < spec_key_count(p1 as int, p2 as int, zc as int),
{
    let d1: usize = wrapped_difference(c1.nkx1, c2.nkx1, p1);
    let d2: usize = wrapped_difference(c1.nkx2, c2.nkx2, p2);
    proof {
        lemma_flat_key_in_range(
            d1 as int,
            d2 as int,
            c1.nz as int,
            c2.nz as int,
            p1 as int,
            p2 as int,
            zc as int,
        );
        let q1: int = p1 as int * p2 as int;
        let q2: int = q1 * zc as int;
        let q3: int = q2 * zc as int;
        assert(q1 <= q3 && q2 <= q3 && q3 == spec_key_count(p1 as int, p2 as int, zc as int)
            && d1 as int * p2 as int + d2 < q1 && (d1 as int * p2 as int + d2) * zc as int
            + c1.nz < q2) by (nonlinear_arith)
            requires
                1 <= p1,
                1 <= p2,
                1 <= zc,
                0 <= d1 < p1,
                0 <= d2 < p2,
                0 <= c1.nz < zc,
                q1 == p1 as int * p2 as int,
                q2 == q1 * zc as int,
                q3 == q2 * zc as int,
        ;
    }
    let t1: usize = d1 * p2 + d2;
    let t2: usize = t1 * zc + c1.nz;
    let t3: usize = t2 * zc + c2.nz;
    t3
}

/// Assembles the full coupling matrix from one value per distinct key.
/// Entry `(a, b)` is the value stored under the key of the `a`-th and
/// `b`-th canonical coordinates, so the whole `size x size` matrix is
/// read off a table of at most `p1 * p2 * zc * zc` computed values: the
/// memoized sharing the energy engine exploits.
pub fn assemble_matrix<T: Copy>(res: &BasisResolution, p1: usize, p2: usize, values: &Vec<T>) -> (r:
    Vec<Vec<T>>)
    requires
        res.wf(),
        1 <= p1,
        1 <= p2,
        res.spec_size() <= usize::MAX,
        values@.len() == spec_key_count(p1 as int, p2 as int, res.z_count as int),
    ensures
        r@.len() == res.spec_size(),
        forall|a: int| 0 <= a < res.spec_size() ==> #[trigger] r@[a]@.len() == res.spec_size(),
        forall|a: int, b: int|
            0 <= a < res.spec_size() && 0 <= b < res.spec_size() ==> #[trigger] r@[a]@[b]
                == spec_matrix_entry(*res, p1 as int, p2 as int, values@, a, b),
{
    // a vector never holds more than usize::MAX entries, so reading the
    // table length makes the key-count bound available to the loops below
    let _table_len: usize = values.len();
    proof {
        assert(_table_len == spec_key_count(p1 as int, p2 as int, res.z_count as int));
        assert(spec_key_count(p1 as int, p2 as int, res.z_count as int) <= usize::MAX);
    }
    let coords = res.coordinates();
    let n: usize = coords.len();
    let mut rows: Vec<Vec<T>> = Vec::new();
    let mut a: usize = 0;
    while a < n
        invariant
            res.wf(),
            1 <= p1,
            1 <= p2,
            res.spec_size() <= usize::MAX,
            values@.len() == spec_key_count(p1 as int, p2 as int, res.z_count as int),
            spec_key_count(p1 as int, p2 as int, res.z_count as int) <= usize::MAX,
            n == res.spec_size(),
            coords@.len() == n,
            forall|i: int| 0 <= i < n ==> coords@[i] == res.coordinate_at(i),
            a <= n,
            rows@.len() == a,
            forall|i: int| 0 <= i < a ==> #[trigger] rows@[i]@.len() == n,
            forall|i: int, j: int|
                0 <= i < a && 0 <= j < n ==> #[trigger] rows@[i]@[j] == spec_matrix_entry(
                    *res,
                    p1 as int,
                    p2 as int,
                    values@,
                    i,
                    j,
                ),
        decreases n - a,
    {
        let ca = coords[a];
        let mut row: Vec<T> = Vec::new();
        let mut b: usize = 0;
        while b < n
            invariant
                res.wf(),
                1 <= p1,
                1 <= p2,
                res.spec_size() <= usize::MAX,
                values@.len() == spec_key_count(p1 as int, p2 as int, res.z_count as int),
                spec_key_count(p1 as int, p2 as int, res.z_count as int) <= usize::MAX,
                n == res.spec_size(),
                coords@.len() == n,
                forall|i: int| 0 <= i < n ==> coords@[i] == res.coordinate_at(i),
                a < n,
                ca == res.coordinate_at(a as int),
                b <= n,
                row@.len() == b,
                forall|j: int|
                    0 <= j < b ==> #[trigger] row@[j] == spec_matrix_entry(
                        *res,
                        p1 as int,
                        p2 as int,
                        values@,
                        a as int,
                        j,
                    ),
            decreases n - b,
        {
            let cb = coords[b];
            proof {
                res.lemma_coordinate_at_in_range(a as int);
                res.lemma_coordinate_at_in_range(b as int);
            }
            let key: usize = pair_flat_key(&ca, &cb, p1, p2, res.z_count);
            row.push(values[key]);
            b = b + 1;
        }
        rows.push(row);
        a = a + 1;
    }
    rows
}

/// The memoized lookup is sound: a matrix entry depends only on its
/// pair's key. Two ordered pairs whose wrapped reciprocal-index
/// differences and oscillator orders agree hold the same value, wherever
/// they sit in the matrix.
pub proof fn lemma_entry_depends_only_on_key<T>(
    res: BasisResolution,
    p1: int,
    p2: int,
    values: Seq<T>,
    a: int,
    b: int,
    a2: int,
    b2: int,
)
    requires
        res.wf(),
        0 <= a < res.spec_size(),
        0 <= b < res.spec_size(),
        0 <= a2 < res.spec_size(),
        0 <= b2 < res.spec_size(),
        spec_pair_key(res.coordinate_at(a), res.coordinate_at(b), p1, p2) == spec_pair_key(
            res.coordinate_at(a2),
            res.coordinate_at(b2),
            p1,
            p2,
        ),
    ensures
        spec_matrix_entry(res, p1, p2, values, a, b) == spec_matrix_entry(
            res,
            p1,
            p2,
            values,
            a2,
            b2,
        ),
{
}

/// A table of identical values yields a uniform matrix: when every
/// per-key value equals `z` — as an all-zero potential makes every
/// quadrature value zero — every matrix entry equals `z`.
pub proof fn lemma_uniform_values_uniform_matrix<T>(
    res: BasisResolution,
    p1: int,
    p2: int,
    values: Seq<T>,
    z: T,
    a: int,
    b: int,
)
    requires
        res.wf(),
        1 <= p1,
        1 <= p2,
        values.len() == spec_key_count(p1, p2, res.z_count as int),
        forall|k: int| 0 <= k < values.len() ==> values[k] == z,
        0 <= a < res.spec_size(),
        0 <= b < res.spec_size(),
    ensures
        spec_matrix_entry(res, p1, p2, values, a, b) == z,
{
    res.lemma_coordinate_at_in_range(a);
    res.lemma_coordinate_at_in_range(b);
    lemma_pair_flat_key_in_range(
        res.coordinate_at(a),
        res.coordinate_at(b),
        p1,
        p2,
        res.z_count as int,
    );
}

/// Recovers `(d1, d2, nz1, nz2)` from a flattened key position.
pub fn decode_key(key: usize, p1: usize, p2: usize, zc: usize) -> (r: (usize, usize, usize, usize))
    requires
        1 <= p1,
        1 <= p2,
        1 <= zc,
        key < spec_key_count(p1 as int, p2 as int, zc as int),
    ensures
        r.0 < p1,
        r.1 < p2,
        r.2 < zc,
        r.3 < zc,
        spec_flat_key(r.0 as int, r.1 as int, r.2 as int, r.3 as int, p2 as int, zc as int)
            == key,
{
    let nz2: usize = key % zc;
    let rest: usize = key / zc;
    let nz1: usize = rest % zc;
    let rest2: usize = rest / zc;
    let d2: usize = rest2 % p2;
    let d1: usize = rest2 / p2;
    proof {
        lemma_decode_key(key as int, p1 as int, p2 as int, zc as int);
    }
    (d1, d2, nz1, nz2)
}

/// Peeling the digits of a flattened key with division and remainder
/// recovers an in-range key that flattens back to the same position.
proof fn lemma_decode_key(key: int, p1: int, p2: int, zc: int)
    requires
        1 <= p1,
        1 <= p2,
        1 <= zc,
        0 <= key < spec_key_count(p1, p2, zc),
    ensures
        ({
            let rest: int = key / zc;
            let rest2: int = rest / zc;
            &&& 0 <= rest2 / p2 < p1
            &&& 0 <= rest2 % p2 < p2
            &&& 0 <= rest % zc < zc
            &&& 0 <= key % zc < zc
            &&& spec_flat_key(rest2 / p2, rest2 % p2, rest % zc, key % zc, p2, zc) == key
        }),
{
    let rest: int = key / zc;
    let rest2: int = rest / zc;
    let q1: int = p1 * p2;
    let q2: int = q1 * zc;
    let q3: int = q2 * zc;
    assert(spec_key_count(p1, p2, zc) == q3) by (nonlinear_arith)
        requires
            q1 == p1 * p2,
            q2 == q1 * zc,
            q3 == q2 * zc,
    ;
    assert(key < zc * q2) by (nonlinear_arith)
        requires
            key < q3,
            q3 == q2 * zc,
    ;
    vstd::arithmetic::div_mod::lemma_div_pos_is_pos(key, zc);
    vstd::arithmetic::div_mod::lemma_multiply_divide_lt(key, zc, q2);
    assert(rest < zc * q1) by (nonlinear_arith)
        requires
            rest < q2,
            q2 == q1 * zc,
    ;
    vstd::arithmetic::div_mod::lemma_div_pos_is_pos(rest, zc);
    vstd::arithmetic::div_mod::lemma_multiply_divide_lt(rest, zc, q1);
    assert(rest2 < p2 * p1) by (nonlinear_arith)
        requires
            rest2 < q1,
            q1 == p1 * p2,
    ;
    vstd::arithmetic::div_mod::lemma_div_pos_is_pos(rest2, p2);
    vstd::arithmetic::div_mod::lemma_multiply_divide_lt(rest2, p2, p1);
    lemma_mod_division_less_than_divisor(key, zc);
    lemma_mod_division_less_than_divisor(rest, zc);
    lemma_mod_division_less_than_divisor(rest2, p2);
    vstd::arithmetic::div_mod::lemma_fundamental_div_mod(key, zc);
    vstd::arithmetic::div_mod::lemma_fundamental_div_mod(rest, zc);
    vstd::arithmetic::div_mod::lemma_fundamental_div_mod(rest2, p2);
    assert(spec_flat_key(rest2 / p2, rest2 % p2, rest % zc, key % zc, p2, zc) == key)
        by (nonlinear_arith)
        requires
            key == zc * (key / zc) + key % zc,
            rest == zc * (rest / zc) + rest % zc,
            rest2 == p2 * (rest2 / p2) + rest2 % p2,
            rest == key / zc,
            rest2 == rest / zc,
            spec_flat_key(rest2 / p2, rest2 % p2, rest % zc, key % zc, p2, zc) == ((rest2 / p2
                * p2 + rest2 % p2) * zc + rest % zc) * zc + key % zc,
    ;
}

} // verus!
