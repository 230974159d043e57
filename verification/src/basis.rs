use vstd::prelude::*;

use vstd::arithmetic::div_mod::{
    lemma_div_pos_is_pos, lemma_fundamental_div_mod_converse_div,
    lemma_fundamental_div_mod_converse_mod, lemma_mod_division_less_than_divisor,
    lemma_multiply_divide_lt,
};

use crate::errors::HamiltonianError;

verus! {

/// One combined basis index: two reciprocal-lattice indices and one
/// oscillator order along the surface normal.
#[derive(Clone, Copy, Debug, PartialEq, Eq, Structural)]
pub struct BasisCoordinate {
    pub nkx1: i64,
    pub nkx2: i64,
    pub nz: usize,
}

/// Symmetric ranges for the two reciprocal-lattice indices, and the number
/// of oscillator orders along the surface normal.
#[derive(Clone, Copy, Debug, PartialEq, Eq, Structural)]
pub struct BasisResolution {
    pub radius1: i64,
    pub radius2: i64,
    pub z_count: usize,
}

impl BasisResolution {
    /// Both radii are non-negative and at least one oscillator order exists.
    pub open spec fn wf(self) -> bool {
        0 <= self.radius1 && 0 <= self.radius2 && 1 <= self.z_count
    }

    /// The number of index values along the first reciprocal direction.
    pub open spec fn spec_width1(self) -> int {
        2 * self.radius1 + 1
    }

    /// The number of index values along the second reciprocal direction.
    pub open spec fn spec_width2(self) -> int {
        2 * self.radius2 + 1
    }

    /// The number of basis coordinates:
    /// `(2*radius1 + 1) * (2*radius2 + 1) * z_count`.
    pub open spec fn spec_size(self) -> int {
        self.spec_width1() * self.spec_width2() * self.z_count
    }

    /// The coordinate at position `idx` of the canonical enumeration:
    /// outer `nkx1` ascending, middle `nkx2` ascending, inner `nz`
    /// ascending.
    pub open spec fn coordinate_at(self, idx: int) -> BasisCoordinate {
        BasisCoordinate {
            nkx1: (idx / (self.spec_width2() * self.z_count) - self.radius1) as i64,
            nkx2: ((idx % (self.spec_width2() * self.z_count)) / (self.z_count as int)
                - self.radius2) as i64,
            nz: (idx % (self.z_count as int)) as usize,
        }
    }

    /// The canonical position of a coordinate: `nkx1`-major, then
    /// `nkx2`, then `nz`.
    pub open spec fn spec_index_of(self, c: BasisCoordinate) -> int {
        ((c.nkx1 + self.radius1) * self.spec_width2() + (c.nkx2 + self.radius2)) * self.z_count
            + c.nz
    }

    /// The enumeration is exactly the nested `nkx1`/`nkx2`/`nz` loop
    /// order: every in-range coordinate sits at its canonical position,
    /// and that position maps back to the coordinate.
    pub proof fn lemma_canonical_order(self, c: BasisCoordinate)
        requires
            self.wf(),
            -self.radius1 <= c.nkx1 <= self.radius1,
            -self.radius2 <= c.nkx2 <= self.radius2,
            c.nz < self.z_count,
        ensures
            0 <= self.spec_index_of(c) < self.spec_size(),
            self.coordinate_at(self.spec_index_of(c)) == c,
    {
        let a: int = c.nkx1 + self.radius1;
        let b: int = c.nkx2 + self.radius2;
        let cz: int = c.nz as int;
        let w1: int = self.spec_width1();
        let w2: int = self.spec_width2();
        let zc: int = self.z_count as int;
        let p: int = self.spec_index_of(c);
        assert(p == a * (w2 * zc) + b * zc + cz && 0 <= p < self.spec_size())
            by (nonlinear_arith)
            requires
                0 <= a < w1,
                0 <= b < w2,
                0 <= cz < zc,
                p == (a * w2 + b) * zc + cz,
                self.spec_size() == w1 * w2 * zc,
        ;
        lemma_enumeration_position(a, b, cz, w2, zc);
    }

    /// Validates a raw triple; a negative radius or a zero order count is
    /// the `InvalidBasisResolution` failure.
    pub fn new(radius1: i64, radius2: i64, z_count: usize) -> (r: Result<
        BasisResolution,
        HamiltonianError,
    >)
        ensures
            radius1 >= 0 && radius2 >= 0 && z_count >= 1 ==> r == Ok::<
                BasisResolution,
                HamiltonianError,
            >(BasisResolution { radius1, radius2, z_count }),
            !(radius1 >= 0 && radius2 >= 0 && z_count >= 1) ==> r == Err::<
                BasisResolution,
                HamiltonianError,
            >(HamiltonianError::InvalidBasisResolution),
    {
        if radius1 >= 0 && radius2 >= 0 && z_count >= 1 {
            Ok(BasisResolution { radius1, radius2, z_count })
        } else {
            Err(HamiltonianError::InvalidBasisResolution)
        }
    }

    /// The basis size, or `None` where it exceeds the machine word.
    pub fn basis_size(&self) -> (r: Option<usize>)
        requires
            self.wf(),
        ensures
            self.spec_size() <= usize::MAX ==> r == Some((self.spec_size()) as usize),
            self.spec_size() > usize::MAX ==> r == None::<usize>,
    {
        let w1: u128 = 2 * (self.radius1 as u128) + 1;
        let w2: u128 = 2 * (self.radius2 as u128) + 1;
        proof {
            assert(w1 * w2 <= 0xffff_ffff_ffff_fffe_0000_0000_0000_0001u128)
                by (nonlinear_arith)
                requires
                    w1 <= 0xffff_ffff_ffff_ffffu128,
                    w2 <= 0xffff_ffff_ffff_ffffu128,
            ;
        }
        let p: u128 = w1 * w2;
        match p.checked_mul(self.z_count as u128) {
            Some(s) => {
                if s <= (usize::MAX as u128) {
                    Some(s as usize)
                } else {
                    None
                }
            },
            None => {
                proof {
                    assert(self.spec_size() > usize::MAX);
                }
                None
            },
        }
    }

    /// An eigenvector or matrix row must carry exactly one entry per basis
    /// coordinate; any other length is the `DimensionMismatch` failure.
    pub fn validate_eigenvector_length(&self, len: usize) -> (r: Result<(), HamiltonianError>)
        requires
            self.wf(),
        ensures
            len == self.spec_size() ==> r == Ok::<(), HamiltonianError>(()),
            len != self.spec_size() ==> r == Err::<(), HamiltonianError>(
                HamiltonianError::DimensionMismatch,
            ),
    {
        match self.basis_size() {
            Some(s) => {
                if len == s {
                    Ok(())
                } else {
                    Err(HamiltonianError::DimensionMismatch)
                }
            },
            None => Err(HamiltonianError::DimensionMismatch),
        }
    }

    /// Every field of an enumerated coordinate stays inside its declared
    /// range.
    pub proof fn lemma_coordinate_at_in_range(self, idx: int)
        requires
            self.wf(),
            0 <= idx < self.spec_size(),
        ensures
            -self.radius1 <= self.coordinate_at(idx).nkx1 <= self.radius1,
            -self.radius2 <= self.coordinate_at(idx).nkx2 <= self.radius2,
            self.coordinate_at(idx).nz < self.z_count,
    {
        let w1: int = self.spec_width1();
        let w2: int = self.spec_width2();
        let zc: int = self.z_count as int;
        let inner: int = w2 * zc;
        assert(1 <= inner && inner * w1 == self.spec_size() && zc * w2 == inner)
            by (nonlinear_arith)
            requires
                1 <= w1,
                1 <= w2,
                1 <= zc,
                inner == w2 * zc,
                self.spec_size() == w1 * w2 * zc,
        ;
        lemma_div_pos_is_pos(idx, inner);
        lemma_multiply_divide_lt(idx, inner, w1);
        lemma_mod_division_less_than_divisor(idx, inner);
        let rem: int = idx % inner;
        lemma_div_pos_is_pos(rem, zc);
        lemma_multiply_divide_lt(rem, zc, w2);
        lemma_mod_division_less_than_divisor(idx, zc);
    }

    /// Every basis coordinate, in the canonical order.
    pub fn coordinates(&self) -> (r: Vec<BasisCoordinate>)
        requires
            self.wf(),
            self.spec_size() <= usize::MAX,
        ensures
            r@.len() == self.spec_size(),
            forall|i: int| 0 <= i < self.spec_size() ==> r@[i] == self.coordinate_at(i),
    {
        proof {
            assert(self.spec_width1() <= self.spec_size() && self.spec_width2()
                <= self.spec_size()) by (nonlinear_arith)
                requires
                    self.spec_width1() >= 1,
                    self.spec_width2() >= 1,
                    self.z_count >= 1,
                    self.spec_size() == self.spec_width1() * self.spec_width2() * self.z_count,
            ;
        }
        let w1: usize = 2 * (self.radius1 as usize) + 1;
        let w2: usize = 2 * (self.radius2 as usize) + 1;
        let zc: usize = self.z_count;
        let mut out: Vec<BasisCoordinate> = Vec::new();
        let mut a: usize = 0;
        while a < w1
            invariant
                self.wf(),
                self.spec_size() <= usize::MAX,
                w1 == self.spec_width1(),
                w2 == self.spec_width2(),
                zc == self.z_count,
                a <= w1,
                out@.len() == a * (w2 * zc),
                forall|i: int| 0 <= i < out@.len() ==> out@[i] == self.coordinate_at(i),
            decreases w1 - a,
        {
            proof {
                assert((a + 1) * (w2 * zc) <= w1 * (w2 * zc) && w1 * (w2 * zc)
                    == self.spec_size()) by (nonlinear_arith)
                    requires
                        a + 1 <= w1,
                        w2 * zc >= 0,
                        self.spec_size() == w1 * w2 * zc,
                ;
            }
            let nkx1: i64 = ((a as i128) - (self.radius1 as i128)) as i64;
            let mut b: usize = 0;
            while b < w2
                invariant
                    self.wf(),
                    self.spec_size() <= usize::MAX,
                    w1 == self.spec_width1(),
                    w2 == self.spec_width2(),
                    zc == self.z_count,
                    a < w1,
                    b <= w2,
                    nkx1 == a - self.radius1,
                    out@.len() == a * (w2 * zc) + b * zc,
                    (a + 1) * (w2 * zc) <= self.spec_size(),
                    forall|i: int| 0 <= i < out@.len() ==> out@[i] == self.coordinate_at(i),
                decreases w2 - b,
            {
                let nkx2: i64 = ((b as i128) - (self.radius2 as i128)) as i64;
                let mut c: usize = 0;
                while c < zc
                    invariant
                        self.wf(),
                        self.spec_size() <= usize::MAX,
                        w1 == self.spec_width1(),
                        w2 == self.spec_width2(),
                        zc == self.z_count,
                        a < w1,
                        b < w2,
                        c <= zc,
                        nkx1 == a - self.radius1,
                        nkx2 == b - self.radius2,
                        out@.len() == a * (w2 * zc) + b * zc + c,
                        (a + 1) * (w2 * zc) <= self.spec_size(),
                        forall|i: int| 0 <= i < out@.len() ==> out@[i] == self.coordinate_at(i),
                    decreases zc - c,
                {
                    proof {
                        let x: int = w2 as int * zc as int;
                        assert(b * zc + c < x && a * x + (b * zc + c) < (a + 1) * x)
                            by (nonlinear_arith)
                            requires
                                0 <= b < w2,
                                0 <= c < zc,
                                0 <= a,
                                x == w2 as int * zc as int,
                        ;
                        assert(out@.len() < self.spec_size());
                    }
                    out.push(BasisCoordinate { nkx1, nkx2, nz: c });
                    proof {
                        let p: int = a * (w2 * zc) + b * zc + c;
                        lemma_enumeration_position(
                            a as int,
                            b as int,
                            c as int,
                            w2 as int,
                            zc as int,
                        );
                        assert(out@[p as int] == self.coordinate_at(p as int));
                    }
                    c = c + 1;
                }
                b = b + 1;
                proof {
                    assert((b - 1) * zc + zc == b * zc) by (nonlinear_arith);
                }
            }
            a = a + 1;
            proof {
                let x: int = w2 as int * zc as int;
                assert((a - 1) * x + x == a * x) by (nonlinear_arith);
            }
        }
        proof {
            assert(w1 * (w2 * zc) == self.spec_size()) by (nonlinear_arith)
                requires
                    self.spec_size() == w1 * w2 * zc,
            ;
        }
        out
    }
}

/// The flattened position `(a*w2 + b)*zc + c` decomposes back into its
/// three digits under division and remainder by `w2*zc` and `zc`.
proof fn lemma_enumeration_position(a: int, b: int, c: int, w2: int, zc: int)
    requires
        0 <= a,
        0 <= b < w2,
        0 <= c < zc,
    ensures
        (a * (w2 * zc) + b * zc + c) / (w2 * zc) == a,
        ((a * (w2 * zc) + b * zc + c) % (w2 * zc)) / zc == b,
        (a * (w2 * zc) + b * zc + c) % zc == c,
{
    let p: int = a * (w2 * zc) + b * zc + c;
    assert(0 <= b * zc + c < w2 * zc) by (nonlinear_arith)
        requires
            0 <= b < w2,
            0 <= c < zc,
    ;
    lemma_fundamental_div_mod_converse_div(p, w2 * zc, a, b * zc + c);
    lemma_fundamental_div_mod_converse_mod(p, w2 * zc, a, b * zc + c);
    lemma_fundamental_div_mod_converse_div(b * zc + c, zc, b, c);
    lemma_fundamental_div_mod_converse_mod(b * zc + c, zc, b, c);
    assert(p == (a * w2 + b) * zc + c) by (nonlinear_arith)
        requires
            p == a * (w2 * zc) + b * zc + c,
    ;
    lemma_fundamental_div_mod_converse_mod(p, zc, a * w2 + b, c);
}

} // verus!
