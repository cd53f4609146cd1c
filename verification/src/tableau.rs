//! The integer tableau of the solver: a dense n by n+2 matrix of big
//! integers together with one determinant scalar.  All updates are
//! fraction-free, so the logical rational entry `A[i][j] / determinant`
//! is carried exactly by integers from the first pivot to the last.

use vstd::prelude::*;

use crate::LcpError;
use crate::arith::divides;
use crate::arith::lemma_divides_witness;
use crate::arith::lemma_nonzero_remainder_not_divides;
use num::bigint::BigInt;

use crate::bigint::bi;
use crate::bigint::big_abs;
use crate::bigint::big_add;
use crate::bigint::big_clone;
use crate::bigint::big_cmp;
use crate::bigint::big_div_rem;
use crate::bigint::big_is_negative;
use crate::bigint::big_is_zero;
use crate::bigint::big_mul;
use crate::bigint::big_neg;
use crate::bigint::big_sub;

verus! {

pub struct Tableau {
    pub values: Vec<BigInt>,
    pub ncols: usize,
    pub nrows: usize,
    pub determinant: BigInt,
}

impl Tableau {
    /// The integer held at row `i`, column `j`.
    pub open spec fn val(self, i: int, j: int) -> int {
        bi(self.values@[i * self.ncols + j])
    }

    /// The integer held by the determinant scalar.
    pub open spec fn det(self) -> int {
        bi(self.determinant)
    }

    /// The flat storage really is an nrows by nrows+2 matrix.
    pub open spec fn dims_ok(self) -> bool {
        self.ncols == self.nrows + 2 && self.values@.len() == self.nrows * self.ncols
    }

    /// Shape is right and the determinant is non-zero, as every pivot
    /// needs it to be.
    pub open spec fn wf(self) -> bool {
        self.dims_ok() && self.det() != 0
    }

    /// The signed cross product that compares the ratios of rows `ra`
    /// and `rb`: it has the sign of
    /// `A[ra][cb] / A[ra][ca] - A[rb][cb] / A[rb][ca]`
    /// whenever both entries of column `ca` are positive.
    pub open spec fn cross(self, ra: int, rb: int, ca: int, cb: int) -> int {
        self.val(ra, cb) * self.val(rb, ca) - self.val(rb, cb) * self.val(ra, ca)
    }

    /// A fresh n by n+2 tableau, all zero, determinant -1: the sign is
    /// chosen so that the first pivot already makes it positive.
    pub fn new(n: usize) -> (r: Tableau)
        requires
            n * (n + 2) <= usize::MAX,
        ensures
            r.wf(),
            r.nrows == n,
            r.ncols == n + 2,
            r.det() == -1,
            forall|i: int, j: int| 0 <= i < n && 0 <= j < n + 2 ==> r.val(i, j) == 0,
    {
        proof {
            if n >= 1 {
                assert(n * (n + 2) >= n + 2) by (nonlinear_arith)
                    requires
                        n >= 1,
                ;
            }
        }
        let ncols: usize = n + 2;
        let total: usize = n * ncols;
        let mut values: Vec<BigInt> = Vec::new();
        let mut k: usize = 0;
        while k < total
            invariant
                k <= total,
                values@.len() == k,
                forall|m: int| 0 <= m < k ==> bi(#[trigger] values@[m]) == 0,
            decreases total - k,
        {
            values.push(crate::bigint::big_from_i64(0));
            k += 1;
        }
        let neg_one = crate::bigint::big_from_i64(-1);
        let r = Tableau { values, ncols, nrows: n, determinant: neg_one };
        proof {
            assert forall|i: int, j: int| 0 <= i < n && 0 <= j < n + 2 implies r.val(i, j)
                == 0 by {
                lemma_flat_index_bound(i, j, n as int, ncols as int);
            }
        }
        r
    }

    /// Overwrite one entry.
    pub fn set(&mut self, row: usize, col: usize, value: BigInt)
        requires
            old(self).dims_ok(),
            row < old(self).nrows,
            col < old(self).ncols,
        ensures
            final(self).dims_ok(),
            final(self).nrows == old(self).nrows,
            final(self).ncols == old(self).ncols,
            final(self).determinant == old(self).determinant,
            final(self).val(row as int, col as int) == bi(value),
            forall|i: int, j: int|
                0 <= i < old(self).nrows && 0 <= j < old(self).ncols && !(i == row && j == col)
                    ==> final(self).val(i, j) == old(self).val(i, j),
    {
        proof {
            lemma_flat_index_bound(row as int, col as int, self.nrows as int, self.ncols as int);
        }
        let total: usize = self.values.len();
        assert((row as int) * (self.ncols as int) + (col as int) < total);
        let k: usize = row * self.ncols + col;
        self.values[k] = value;
        proof {
            assert forall|i: int, j: int|
                0 <= i < self.nrows && 0 <= j < self.ncols && !(i == row && j == col) implies self
                .val(i, j) == old(self).val(i, j) by {
                lemma_flat_index_bound(i, j, self.nrows as int, self.ncols as int);
                lemma_flat_index_distinct(i, j, row as int, col as int, self.ncols as int);
            }
        }
    }

    /// Read one entry.
    pub fn entry(&self, row: usize, col: usize) -> (r: &BigInt)
        requires
            self.dims_ok(),
            row < self.nrows,
            col < self.ncols,
        ensures
            bi(*r) == self.val(row as int, col as int),
    {
        proof {
            lemma_flat_index_bound(row as int, col as int, self.nrows as int, self.ncols as int);
        }
        let total: usize = self.values.len();
        assert((row as int) * (self.ncols as int) + (col as int) < total);
        &self.values[row * self.ncols + col]
    }

    /// Negate every entry of row `row`.
    fn negate_row(&mut self, row: usize)
        requires
            old(self).dims_ok(),
            row < old(self).nrows,
        ensures
            final(self).dims_ok(),
            final(self).nrows == old(self).nrows,
            final(self).ncols == old(self).ncols,
            final(self).determinant == old(self).determinant,
            forall|j: int|
                0 <= j < old(self).ncols ==> final(self).val(row as int, j) == -old(self).val(
                    row as int,
                    j,
                ),
            forall|i: int, j: int|
                0 <= i < old(self).nrows && 0 <= j < old(self).ncols && i != row
                    ==> final(self).val(i, j) == old(self).val(i, j),
    {
        let ghost orig = *self;
        let mut j: usize = 0;
        while j < self.ncols
            invariant
                self.dims_ok(),
                self.nrows == orig.nrows,
                self.ncols == orig.ncols,
                self.determinant == orig.determinant,
                row < self.nrows,
                j <= self.ncols,
                forall|j2: int|
                    0 <= j2 < j ==> #[trigger] self.val(row as int, j2) == -orig.val(row as int, j2),
                forall|j2: int|
                    j <= j2 < self.ncols ==> #[trigger] self.val(row as int, j2) == orig.val(
                        row as int,
                        j2,
                    ),
                forall|i: int, j2: int|
                    0 <= i < self.nrows && 0 <= j2 < self.ncols && i != row ==> #[trigger] self.val(
                        i,
                        j2,
                    ) == orig.val(i, j2),
            decreases self.ncols - j,
        {
            let v = big_neg(self.entry(row, j));
            self.set(row, j, v);
            j += 1;
        }
    }

    /// Negate every entry of column `col`.
    pub fn negate_col(&mut self, col: usize)
        requires
            old(self).dims_ok(),
            col < old(self).ncols,
        ensures
            final(self).dims_ok(),
            final(self).nrows == old(self).nrows,
            final(self).ncols == old(self).ncols,
            final(self).determinant == old(self).determinant,
            forall|i: int|
                0 <= i < old(self).nrows ==> final(self).val(i, col as int) == -old(self).val(
                    i,
                    col as int,
                ),
            forall|i: int, j: int|
                0 <= i < old(self).nrows && 0 <= j < old(self).ncols && j != col
                    ==> final(self).val(i, j) == old(self).val(i, j),
    {
        let ghost orig = *self;
        let mut i: usize = 0;
        while i < self.nrows
            invariant
                self.dims_ok(),
                self.nrows == orig.nrows,
                self.ncols == orig.ncols,
                self.determinant == orig.determinant,
                col < self.ncols,
                i <= self.nrows,
                forall|i2: int|
                    0 <= i2 < i ==> #[trigger] self.val(i2, col as int) == -orig.val(i2, col as int),
                forall|i2: int|
                    i <= i2 < self.nrows ==> #[trigger] self.val(i2, col as int) == orig.val(
                        i2,
                        col as int,
                    ),
                forall|i2: int, j: int|
                    0 <= i2 < self.nrows && 0 <= j < self.ncols && j != col ==> #[trigger] self.val(
                        i2,
                        j,
                    ) == orig.val(i2, j),
            decreases self.nrows - i,
        {
            let v = big_neg(self.entry(i, col));
            self.set(i, col, v);
            i += 1;
        }
    }

    /// Pivot on `A[row][col]`, which must be non-zero, with the
    /// fraction-free update: every off cell becomes
    /// `(A[i][j] * |p| -/+ A[row][j] * A[i][col]) / D` with `p` the pivot
    /// entry and `D` the determinant before the call, the pivot row and
    /// column are renormalized, and the determinant becomes `|p|`.  Every
    /// division must come out exact; a remainder reports a broken
    /// invariant and the update stops there.
    pub fn pivot(&mut self, row: usize, col: usize) -> (res: Result<(), LcpError>)
        requires
            old(self).wf(),
            row < old(self).nrows,
            col < old(self).ncols,
            old(self).val(row as int, col as int) != 0,
        ensures
            final(self).dims_ok(),
            final(self).nrows == old(self).nrows,
            final(self).ncols == old(self).ncols,
            res is Ok <==> pivot_divisible(*old(self), row as int, col as int),
            res is Ok ==> pivot_post(*old(self), *final(self), row as int, col as int),
            res is Ok ==> final(self).det() > 0 && final(self).wf(),
            res is Err ==> final(self).det() == old(self).det() && final(self).wf(),
            res matches Err(e) ==> e == LcpError::BrokenInvariant,
    {
        let ghost orig = *self;
        let ghost r = row as int;
        let ghost c = col as int;
        let ghost p = orig.val(r, c);
        let negpivot = big_is_negative(self.entry(row, col));
        let abs_p = big_abs(self.entry(row, col));
        let cur_det = big_clone(&self.determinant);

        let mut i: usize = 0;
        while i < self.nrows
            invariant
                orig == *old(self),
                self.dims_ok(),
                self.nrows == orig.nrows,
                self.ncols == orig.ncols,
                self.determinant == orig.determinant,
                orig.wf(),
                row < orig.nrows,
                col < orig.ncols,
                r == row as int,
                c == col as int,
                p == orig.val(r, c),
                p != 0,
                negpivot == (p < 0),
                bi(abs_p) == (if p < 0 {
                    -p
                } else {
                    p
                }),
                bi(cur_det) == orig.det(),
                i <= self.nrows,
                forall|j: int|
                    0 <= j < self.ncols ==> #[trigger] self.val(r, j) == orig.val(r, j),
                forall|i2: int, j: int|
                    0 <= i2 < i && i2 != r && 0 <= j < self.ncols && j != c
                        ==> #[trigger] self.val(i2, j) * orig.det() == pivot_numer(orig, r, c, i2, j),
                forall|i2: int|
                    0 <= i2 < i && i2 != r ==> #[trigger] self.val(i2, c) == (if p < 0 {
                        orig.val(i2, c)
                    } else {
                        -orig.val(i2, c)
                    }),
                forall|i2: int, j: int|
                    i <= i2 < self.nrows && 0 <= j < self.ncols ==> #[trigger] self.val(i2, j)
                        == orig.val(i2, j),
            decreases self.nrows - i,
        {
            if i != row {
                let ghost ii = i as int;
                let nonzero = !big_is_zero(self.entry(i, col));
                let mut j: usize = 0;
                while j < self.ncols
                    invariant
                        orig == *old(self),
                        self.dims_ok(),
                        self.nrows == orig.nrows,
                        self.ncols == orig.ncols,
                        self.determinant == orig.determinant,
                        orig.wf(),
                        row < orig.nrows,
                        col < orig.ncols,
                        r == row as int,
                        c == col as int,
                        p == orig.val(r, c),
                        p != 0,
                        negpivot == (p < 0),
                        bi(abs_p) == (if p < 0 {
                            -p
                        } else {
                            p
                        }),
                        bi(cur_det) == orig.det(),
                        i < self.nrows,
                        ii == i as int,
                        ii != r,
                        j <= self.ncols,
                        nonzero == (orig.val(ii, c) != 0),
                        forall|j2: int|
                            0 <= j2 < self.ncols ==> #[trigger] self.val(r, j2) == orig.val(r, j2),
                        forall|i2: int, j2: int|
                            0 <= i2 < ii && i2 != r && 0 <= j2 < self.ncols && j2 != c
                                ==> #[trigger] self.val(i2, j2) * orig.det() == pivot_numer(
                                orig,
                                r,
                                c,
                                i2,
                                j2,
                            ),
                        forall|i2: int|
                            0 <= i2 < ii && i2 != r ==> #[trigger] self.val(i2, c) == (if p < 0 {
                                orig.val(i2, c)
                            } else {
                                -orig.val(i2, c)
                            }),
                        forall|i2: int, j2: int|
                            ii < i2 < self.nrows && 0 <= j2 < self.ncols ==> #[trigger] self.val(
                                i2,
                                j2,
                            ) == orig.val(i2, j2),
                        forall|j2: int|
                            0 <= j2 < j && j2 != c ==> #[trigger] self.val(ii, j2) * orig.det()
                                == pivot_numer(orig, r, c, ii, j2),
                        forall|j2: int|
                            (j <= j2 < self.ncols || j2 == c) && 0 <= j2 ==> #[trigger] self.val(
                                ii,
                                j2,
                            ) == orig.val(ii, j2),
                    decreases self.ncols - j,
                {
                    if j != col {
                        let prod1 = big_mul(self.entry(i, j), &abs_p);
                        let tmp = if nonzero {
                            let prod2 = big_mul(self.entry(row, j), self.entry(i, col));
                            if negpivot {
                                big_add(&prod1, &prod2)
                            } else {
                                big_sub(&prod1, &prod2)
                            }
                        } else {
                            prod1
                        };
                        assert(bi(tmp) == pivot_numer(orig, r, c, ii, j as int));
                        let (quot, rem) = big_div_rem(&tmp, &cur_det);
                        if !big_is_zero(&rem) {
                            proof {
                                lemma_nonzero_remainder_not_divides(
                                    bi(tmp),
                                    orig.det(),
                                    bi(quot),
                                    bi(rem),
                                );
                                assert(!pivot_divisible(orig, r, c));
                            }
                            return Err(LcpError::BrokenInvariant);
                        }
                        assert(bi(quot) * orig.det() == pivot_numer(orig, r, c, ii, j as int));
                        self.set(i, j, quot);
                    }
                    j += 1;
                }
                if nonzero && !negpivot {
                    let v = big_neg(self.entry(i, col));
                    self.set(i, col, v);
                }
                proof {
                    if !nonzero {
                        assert(self.val(ii, c) == 0 && orig.val(ii, c) == 0);
                    }
                }
            }
            i += 1;
        }

        let ghost after_rows = *self;
        self.set(row, col, cur_det);
        let ghost after_set = *self;
        if negpivot {
            self.negate_row(row);
        }
        let ghost before_det = *self;
        self.determinant = abs_p;

        proof {
            assert(self.values == before_det.values);
            assert forall|i2: int, j2: int|
                0 <= i2 < orig.nrows && 0 <= j2 < orig.ncols && i2 != r && j2 != c implies
                #[trigger] self.val(i2, j2) * orig.det() == pivot_numer(orig, r, c, i2, j2) by {
                assert(after_rows.val(i2, j2) * orig.det() == pivot_numer(orig, r, c, i2, j2));
                assert(after_set.val(i2, j2) == after_rows.val(i2, j2));
                assert(self.val(i2, j2) == after_set.val(i2, j2));
            }
            assert forall|i2: int, j2: int|
                0 <= i2 < orig.nrows && 0 <= j2 < orig.ncols && i2 != r && j2 != c implies divides(
                orig.det(),
                #[trigger] pivot_numer(orig, r, c, i2, j2),
            ) by {
                assert(self.val(i2, j2) * orig.det() == pivot_numer(orig, r, c, i2, j2));
                lemma_divides_witness(orig.det(), self.val(i2, j2));
            }
            assert(pivot_divisible(orig, r, c));
            assert forall|i2: int| 0 <= i2 < orig.nrows && i2 != r implies #[trigger] self.val(
                i2,
                c,
            ) == (if p < 0 {
                orig.val(i2, c)
            } else {
                -orig.val(i2, c)
            }) by {
                assert(after_rows.val(i2, c) == (if p < 0 {
                    orig.val(i2, c)
                } else {
                    -orig.val(i2, c)
                }));
                assert(after_set.val(i2, c) == after_rows.val(i2, c));
                assert(self.val(i2, c) == after_set.val(i2, c));
            }
            assert forall|j2: int| 0 <= j2 < orig.ncols && j2 != c implies #[trigger] self.val(
                r,
                j2,
            ) == (if p < 0 {
                -orig.val(r, j2)
            } else {
                orig.val(r, j2)
            }) by {
                assert(after_rows.val(r, j2) == orig.val(r, j2));
                assert(after_set.val(r, j2) == after_rows.val(r, j2));
                if p < 0 {
                    assert(before_det.val(r, j2) == -after_set.val(r, j2));
                } else {
                    assert(before_det.val(r, j2) == after_set.val(r, j2));
                }
                assert(self.val(r, j2) == before_det.val(r, j2));
            }
            assert(after_set.val(r, c) == orig.det());
            if p < 0 {
                assert(before_det.val(r, c) == -after_set.val(r, c));
            } else {
                assert(before_det.val(r, c) == after_set.val(r, c));
            }
            assert(self.val(r, c) == before_det.val(r, c));
            assert(self.val(r, c) == (if p < 0 {
                -orig.det()
            } else {
                orig.det()
            }));
            assert(self.det() == (if p < 0 {
                -p
            } else {
                p
            }));
            assert(pivot_post(orig, *self, r, c));
        }
        Ok(())
    }

    /// Sign of `A[ra][cb] / A[ra][ca] - A[rb][cb] / A[rb][ca]`, computed
    /// on cross products so that no fraction is ever formed; the caller
    /// keeps both denominators positive.
    pub fn ratio_test(&self, rowa: usize, rowb: usize, cola: usize, colb: usize) -> (r:
        core::cmp::Ordering)
        requires
            self.dims_ok(),
            rowa < self.nrows,
            rowb < self.nrows,
            cola < self.ncols,
            colb < self.ncols,
        ensures
            r == core::cmp::Ordering::Less <==> self.cross(
                rowa as int,
                rowb as int,
                cola as int,
                colb as int,
            ) < 0,
            r == core::cmp::Ordering::Equal <==> self.cross(
                rowa as int,
                rowb as int,
                cola as int,
                colb as int,
            ) == 0,
            r == core::cmp::Ordering::Greater <==> self.cross(
                rowa as int,
                rowb as int,
                cola as int,
                colb as int,
            ) > 0,
    {
        let a = big_mul(self.entry(rowa, colb), self.entry(rowb, cola));
        let b = big_mul(self.entry(rowb, colb), self.entry(rowa, cola));
        big_cmp(&a, &b)
    }
}

/// The numerator of the fraction-free update for an off cell `(i, j)` of
/// a pivot on `(r, c)`: `A[i][j] * |p|` minus the cross term, with the
/// sign of the cross term following the sign of the pivot entry `p`.
pub open spec fn pivot_numer(orig: Tableau, r: int, c: int, i: int, j: int) -> int {
    let p = orig.val(r, c);
    if p < 0 {
        orig.val(i, j) * (-p) + orig.val(r, j) * orig.val(i, c)
    } else {
        orig.val(i, j) * p - orig.val(r, j) * orig.val(i, c)
    }
}

/// Every division of the fraction-free update of a pivot on `(r, c)`
/// comes out exact.
pub open spec fn pivot_divisible(orig: Tableau, r: int, c: int) -> bool {
    forall|i: int, j: int|
        0 <= i < orig.nrows && 0 <= j < orig.ncols && i != r && j != c ==> divides(
            orig.det(),
            #[trigger] pivot_numer(orig, r, c, i, j),
        )
}

/// What a successful pivot on `(r, c)` leaves behind, cell by cell, with
/// `p` the old pivot entry and `d` the old determinant: off cells carry
/// the exact quotient of the fraction-free numerator, the pivot row
/// keeps its values and the pivot column flips its sign when `p > 0`,
/// the other way round when `p < 0`, the pivot cell holds the old
/// determinant, and the new determinant is `|p|`.
pub open spec fn pivot_post(orig: Tableau, now: Tableau, r: int, c: int) -> bool {
    let p = orig.val(r, c);
    let d = orig.det();
    &&& now.det() == (if p < 0 {
        -p
    } else {
        p
    })
    &&& now.val(r, c) == (if p < 0 {
        -d
    } else {
        d
    })
    &&& forall|j: int|
        0 <= j < orig.ncols && j != c ==> #[trigger] now.val(r, j) == (if p < 0 {
            -orig.val(r, j)
        } else {
            orig.val(r, j)
        })
    &&& forall|i: int|
        0 <= i < orig.nrows && i != r ==> #[trigger] now.val(i, c) == (if p < 0 {
            orig.val(i, c)
        } else {
            -orig.val(i, c)
        })
    &&& forall|i: int, j: int|
        0 <= i < orig.nrows && 0 <= j < orig.ncols && i != r && j != c ==> #[trigger] now.val(i, j)
            * d == pivot_numer(orig, r, c, i, j)
}

/// When the determinant is a unit, as it is before the first pivot,
/// every fraction-free division is exact: pivoting on a fresh tableau
/// cannot leave a remainder.
pub proof fn lemma_unit_determinant_divides(orig: Tableau, r: int, c: int)
    requires
        orig.det() == 1 || orig.det() == -1,
    ensures
        pivot_divisible(orig, r, c),
{
    assert forall|i: int, j: int|
        0 <= i < orig.nrows && 0 <= j < orig.ncols && i != r && j != c implies divides(
        orig.det(),
        #[trigger] pivot_numer(orig, r, c, i, j),
    ) by {
        let x = pivot_numer(orig, r, c, i, j);
        if orig.det() == 1 {
            assert(x == x * 1);
            lemma_divides_witness(1, x);
        } else {
            assert(x == (-x) * -1);
            lemma_divides_witness(-1, -x);
        }
    }
}

/// The minimum-ratio comparison is antisymmetric: swapping the two rows
/// flips the sign of the cross product, so a `ratio_test` of `(a, b)`
/// always answers the reverse of `(b, a)`.
pub proof fn lemma_ratio_test_antisymmetry(t: Tableau, ra: int, rb: int, ca: int, cb: int)
    ensures
        t.cross(ra, rb, ca, cb) == -t.cross(rb, ra, ca, cb),
{
}

/// Row-major flattening stays inside the backing vector.
proof fn lemma_flat_index_bound(i: int, j: int, nrows: int, ncols: int)
    requires
        0 <= i < nrows,
        0 <= j < ncols,
    ensures
        0 <= i * ncols + j < nrows * ncols,
{
    assert(i * ncols + j < nrows * ncols) by (nonlinear_arith)
        requires
            0 <= i < nrows,
            0 <= j < ncols,
    ;
    assert(0 <= i * ncols) by (nonlinear_arith)
        requires
            0 <= i,
            0 < ncols,
    ;
}

/// Row-major flattening is injective on cells.
proof fn lemma_flat_index_distinct(i1: int, j1: int, i2: int, j2: int, ncols: int)
    requires
        0 <= j1 < ncols,
        0 <= j2 < ncols,
        0 <= i1,
        0 <= i2,
        !(i1 == i2 && j1 == j2),
    ensures
        i1 * ncols + j1 != i2 * ncols + j2,
{
    assert(i1 * ncols + j1 != i2 * ncols + j2) by (nonlinear_arith)
        requires
            0 <= j1 < ncols,
            0 <= j2 < ncols,
            0 <= i1,
            0 <= i2,
            !(i1 == i2 && j1 == j2),
    ;
}

} // verus!
