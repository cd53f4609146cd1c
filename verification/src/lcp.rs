//! The solver driver: building the integer tableau from a rational
//! linear complementarity problem
//!
//! ```text
//!     w = M z + q,    w >= 0,    z >= 0,    z' w = 0
//! ```
//!
//! with a covering vector `d`, running Lemke's complementary pivoting
//! until z0 can leave the basis, and reading the rational solution back
//! out of the tableau.

use vstd::prelude::*;

use num::bigint::BigInt;
use num::rational::BigRational;
use num::rational::Ratio;

use crate::CoveringVectorFault;
use crate::LcpError;
use crate::arith::divides;
use crate::arith::lemma_divides_linear;
use crate::arith::lemma_divides_trans;
use crate::arith::lemma_divides_witness;
use crate::arith::lemma_small_remainder_zero;
use crate::bigint::bi;
use crate::bigint::big_clone;
use crate::bigint::big_div_rem;
use crate::bigint::big_from_i64;
use crate::bigint::big_is_negative;
use crate::bigint::big_is_zero;
use crate::bigint::big_mul;
use crate::bigint::rat_den;
use crate::bigint::rat_denom;
use crate::bigint::rat_new;
use crate::bigint::rat_num;
use crate::bigint::rat_numer;
use crate::tableau::Tableau;
use crate::tableau_vars::TableauVariables;

verus! {

/// Every rational in the slice carries a positive denominator, as the
/// canonical `num` representation guarantees.
pub open spec fn rats_wf(s: Seq<Ratio<BigInt>>) -> bool {
    forall|k: int| 0 <= k < s.len() ==> rat_den(#[trigger] s[k]) > 0
}

/// Row `i` makes the covering vector unusable: `d[i]` is negative, or
/// it is zero on a row where `q[i]` is negative.
pub open spec fn bad_cover(q: Seq<Ratio<BigInt>>, d: Seq<Ratio<BigInt>>, i: int) -> bool {
    rat_num(d[i]) < 0 || (rat_num(d[i]) == 0 && rat_num(q[i]) < 0)
}

/// Every entry of the right-hand-side column is non-negative.  The
/// minimum-ratio rule keeps this true from the first pivot on, and it
/// is what makes the reconstructed solution non-negative.
pub open spec fn rhs_nonneg(t: Tableau, n: int) -> bool {
    forall|i: int| 0 <= i < n ==> #[trigger] t.val(i, n + 1) >= 0
}

/// The exact rational value of `w[i] = (M z + q)[i]` after the first
/// `j` products, kept as an unreduced (numerator, denominator) pair:
/// start from `q[i]` and fold in `M[i][k] * z[k]` for `k < j` by the
/// school rules for fractions.
pub open spec fn w_entry(
    m: Seq<Ratio<BigInt>>,
    q: Seq<Ratio<BigInt>>,
    z: Seq<Ratio<BigInt>>,
    n: int,
    i: int,
    j: int,
) -> (int, int)
    decreases j,
{
    if j <= 0 {
        (rat_num(q[i]), rat_den(q[i]))
    } else {
        let prev = w_entry(m, q, z, n, i, j - 1);
        let tn = rat_num(m[i * n + (j - 1)]) * rat_num(z[j - 1]);
        let td = rat_den(m[i * n + (j - 1)]) * rat_den(z[j - 1]);
        (prev.0 * td + tn * prev.1, prev.1 * td)
    }
}

/// The returned solution solves the instance: together with
/// `w = M z + q`, computed exactly, every row has `w[i] >= 0` and
/// `z[i] * w[i] = 0`.
pub open spec fn solves_lcp(
    m: Seq<Ratio<BigInt>>,
    q: Seq<Ratio<BigInt>>,
    z: Seq<Ratio<BigInt>>,
    n: int,
) -> bool {
    forall|i: int|
        0 <= i < n ==> {
            let w = #[trigger] w_entry(m, q, z, n, i, n);
            &&& w.1 > 0
            &&& w.0 >= 0
            &&& rat_num(z[i]) * w.0 == 0
        }
}

/// A rational in lowest terms with a positive denominator is the only
/// representation of its value: the solver's output, which carries
/// both properties, is therefore pinned entry by entry as soon as its
/// value is.
pub proof fn lemma_reduced_rational_unique(x: Ratio<BigInt>, y: Ratio<BigInt>)
    requires
        rat_den(x) > 0,
        rat_den(y) > 0,
        crate::bigint::rat_reduced(x),
        crate::bigint::rat_reduced(y),
        rat_num(x) * rat_den(y) == rat_num(y) * rat_den(x),
    ensures
        rat_num(x) == rat_num(y),
        rat_den(x) == rat_den(y),
{
    crate::arith::lemma_reduced_fraction_unique(rat_num(x), rat_den(x), rat_num(y), rat_den(y));
}

/// The folded denominator stays positive when every source rational
/// carries a positive one.
proof fn lemma_w_entry_den_positive(
    m: Seq<Ratio<BigInt>>,
    q: Seq<Ratio<BigInt>>,
    z: Seq<Ratio<BigInt>>,
    n: int,
    i: int,
    j: int,
)
    requires
        0 <= i < n,
        0 <= j <= n,
        q.len() == n,
        m.len() == n * n,
        z.len() == n,
        rats_wf(m),
        rats_wf(q),
        forall|k: int| 0 <= k < n ==> rat_den(#[trigger] z[k]) > 0,
    ensures
        w_entry(m, q, z, n, i, j).1 > 0,
    decreases j,
{
    if j > 0 {
        lemma_w_entry_den_positive(m, q, z, n, i, j - 1);
        let prev = w_entry(m, q, z, n, i, j - 1);
        assert(0 <= i * n + (j - 1) < n * n) by (nonlinear_arith)
            requires
                0 <= i < n,
                1 <= j <= n,
        ;
        let td = rat_den(m[i * n + (j - 1)]) * rat_den(z[j - 1]);
        assert(prev.1 * td > 0) by (nonlinear_arith)
            requires
                prev.1 > 0,
                td == rat_den(m[i * n + (j - 1)]) * rat_den(z[j - 1]),
                rat_den(m[i * n + (j - 1)]) > 0,
                rat_den(z[j - 1]) > 0,
        ;
    }
}

/// With the zero vector for z, each folded numerator keeps the sign of
/// the matching entry of q: every product term vanishes.
proof fn lemma_w_entry_zero_z(
    m: Seq<Ratio<BigInt>>,
    q: Seq<Ratio<BigInt>>,
    z: Seq<Ratio<BigInt>>,
    n: int,
    i: int,
    j: int,
)
    requires
        0 <= i < n,
        0 <= j <= n,
        q.len() == n,
        m.len() == n * n,
        z.len() == n,
        rats_wf(m),
        rats_wf(q),
        rat_num(q[i]) >= 0,
        forall|k: int| 0 <= k < n ==> rat_den(#[trigger] z[k]) > 0,
        forall|k: int| 0 <= k < n ==> rat_num(#[trigger] z[k]) == 0,
    ensures
        w_entry(m, q, z, n, i, j).0 >= 0,
    decreases j,
{
    if j > 0 {
        lemma_w_entry_zero_z(m, q, z, n, i, j - 1);
        let prev = w_entry(m, q, z, n, i, j - 1);
        assert(0 <= i * n + (j - 1) < n * n) by (nonlinear_arith)
            requires
                0 <= i < n,
                1 <= j <= n,
        ;
        let tn = rat_num(m[i * n + (j - 1)]) * rat_num(z[j - 1]);
        let td = rat_den(m[i * n + (j - 1)]) * rat_den(z[j - 1]);
        assert(tn == 0) by (nonlinear_arith)
            requires
                tn == rat_num(m[i * n + (j - 1)]) * rat_num(z[j - 1]),
                rat_num(z[j - 1]) == 0,
        ;
        assert(prev.0 * td >= 0) by (nonlinear_arith)
            requires
                prev.0 >= 0,
                td == rat_den(m[i * n + (j - 1)]) * rat_den(z[j - 1]),
                rat_den(m[i * n + (j - 1)]) > 0,
                rat_den(z[j - 1]) > 0,
        ;
    }
}

/// The rational feeding tableau column `j`: column `j - 1` of `M` for
/// `j` in 1..=n, and `q` for the right-hand-side column `n + 1`.
pub open spec fn col_rat(
    m: Seq<Ratio<BigInt>>,
    q: Seq<Ratio<BigInt>>,
    n: int,
    i: int,
    j: int,
) -> Ratio<BigInt> {
    if j == n + 1 {
        q[i]
    } else {
        m[i * n + (j - 1)]
    }
}

/// One linear complementarity problem: the rational inputs, the integer
/// tableau that stands for them, the variable bookkeeping, and the
/// per-column scale factors that translate between the two.
pub struct LCP {
    pub m: Vec<BigRational>,
    pub q: Vec<BigRational>,
    pub n: usize,
    pub d: Vec<BigRational>,
    pub tableau: Tableau,
    pub vars: TableauVariables,
    pub scale_factors: Vec<BigInt>,
}

impl LCP {
    /// Shapes fit together: an n by n+2 tableau, 2n+1 variables, n+2
    /// scale factors, all for the same n >= 1.
    pub open spec fn wf(self) -> bool {
        &&& self.n >= 1
        &&& self.vars.wf()
        &&& self.vars.n == self.n
        &&& self.tableau.wf()
        &&& self.tableau.nrows == self.n
        &&& self.scale_factors@.len() == self.n + 2
    }

    /// The tableau column `j` carries the rationals it stands for,
    /// scaled to integers: `A[i][j] * den = num * scale[j]` for every
    /// row, where `num / den` is the source rational.
    pub open spec fn column_scaled(self, j: int) -> bool {
        forall|i: int|
            0 <= i < self.n ==> #[trigger] self.tableau.val(i, j) * rat_den(
                col_rat(self.m@, self.q@, self.n as int, i, j),
            ) == rat_num(col_rat(self.m@, self.q@, self.n as int, i, j)) * bi(
                self.scale_factors@[j],
            )
    }

    /// The scale factor of column `j` is not just a common multiple of
    /// the column's denominators but the least one: it divides every
    /// other common multiple.
    pub open spec fn column_scale_least(self, j: int) -> bool {
        forall|x: int|
            (forall|i: int|
                0 <= i < self.n ==> divides(
                    rat_den(#[trigger] col_rat(self.m@, self.q@, self.n as int, i, j)),
                    x,
                )) ==> #[trigger] divides(bi(self.scale_factors@[j]), x)
    }

    /// Build the problem state for `M` and `q`: fresh variables, a zero
    /// tableau, and then columns 1..=n+1 filled with the scaled `M` and
    /// `q`.  The covering vector comes separately, through
    /// `add_covering_vector`.
    pub(crate) fn new(m: Vec<BigRational>, q: Vec<BigRational>) -> (r: LCP)
        requires
            q@.len() >= 1,
            m@.len() == q@.len() * q@.len(),
            q@.len() * (q@.len() + 2) <= usize::MAX,
            rats_wf(m@),
            rats_wf(q@),
        ensures
            r.wf(),
            r.n == q@.len(),
            r.m@ == m@,
            r.q@ == q@,
            r.tableau.det() == -1,
            forall|i: int| 0 <= i <= r.n ==> #[trigger] r.vars.var_pos(i) == r.n + i,
            forall|i: int| 1 <= i <= r.n ==> #[trigger] r.vars.var_pos(r.n + i) == i - 1,
            forall|j: int| 1 <= j <= r.n + 1 ==> bi(#[trigger] r.scale_factors@[j]) > 0,
            forall|j: int| 1 <= j <= r.n + 1 ==> #[trigger] r.column_scaled(j),
            forall|j: int| 1 <= j <= r.n + 1 ==> #[trigger] r.column_scale_least(j),
            forall|i: int| 0 <= i < r.n ==> #[trigger] r.tableau.val(i, 0) == 0,
    {
        let n = q.len();
        proof {
            assert(2 * n < usize::MAX && n + 2 <= usize::MAX) by (nonlinear_arith)
                requires
                    n >= 1,
                    n * (n + 2) <= usize::MAX,
            ;
        }
        let vars = TableauVariables::new(n);
        let tableau = Tableau::new(n);
        let mut scale_factors: Vec<BigInt> = Vec::new();
        let mut k: usize = 0;
        while k < n + 2
            invariant
                n + 2 <= usize::MAX,
                k <= n + 2,
                scale_factors@.len() == k,
            decreases n + 2 - k,
        {
            scale_factors.push(big_from_i64(0));
            k += 1;
        }
        let mut lcp = LCP { m, q, n, d: Vec::new(), tableau, vars, scale_factors };
        lcp.init_tableau();
        lcp
    }

    /// Fill columns 1..=n+1 of the tableau with `M` and `q`, each
    /// column scaled by the least common multiple of its denominators.
    fn init_tableau(&mut self)
        requires
            old(self).wf(),
            old(self).m@.len() == old(self).n * old(self).n,
            old(self).q@.len() == old(self).n,
            rats_wf(old(self).m@),
            rats_wf(old(self).q@),
        ensures
            final(self).wf(),
            final(self).n == old(self).n,
            final(self).m == old(self).m,
            final(self).q == old(self).q,
            final(self).d == old(self).d,
            final(self).vars == old(self).vars,
            final(self).tableau.det() == old(self).tableau.det(),
            final(self).scale_factors@[0] == old(self).scale_factors@[0],
            forall|i: int|
                0 <= i < old(self).n ==> #[trigger] final(self).tableau.val(i, 0) == old(self).tableau.val(i, 0),
            forall|j: int| 1 <= j <= old(self).n + 1 ==> bi(#[trigger] final(self).scale_factors@[j]) > 0,
            forall|j: int| 1 <= j <= old(self).n + 1 ==> #[trigger] final(self).column_scaled(j),
            forall|j: int|
                1 <= j <= old(self).n + 1 ==> #[trigger] final(self).column_scale_least(j),
    {
        let n = self.n;
        let ghost mm = self.m@;
        let ghost qq = self.q@;
        let sflen: usize = self.scale_factors.len();
        let mlen: usize = self.m.len();
        assert(sflen == n + 2 && mlen == n * n);
        assert(n + 2 <= usize::MAX && n * n <= usize::MAX);
        let mut j: usize = 1;
        while j <= n + 1
            invariant
                n + 2 <= usize::MAX,
                n * n <= usize::MAX,
                self.wf(),
                n == self.n,
                mm == self.m@,
                qq == self.q@,
                self.m@.len() == n * n,
                self.q@.len() == n,
                rats_wf(self.m@),
                rats_wf(self.q@),
                self.m == old(self).m,
                self.q == old(self).q,
                self.d == old(self).d,
                self.n == old(self).n,
                self.vars == old(self).vars,
                self.tableau.determinant == old(self).tableau.determinant,
                self.scale_factors@[0] == old(self).scale_factors@[0],
                forall|i: int|
                    0 <= i < n ==> #[trigger] self.tableau.val(i, 0) == old(self).tableau.val(i, 0),
                1 <= j <= n + 2,
                forall|j2: int| 1 <= j2 < j ==> bi(#[trigger] self.scale_factors@[j2]) > 0,
                forall|j2: int| 1 <= j2 < j ==> #[trigger] self.column_scaled(j2),
                forall|j2: int| 1 <= j2 < j ==> #[trigger] self.column_scale_least(j2),
            decreases n + 2 - j,
        {
            let sf = if j == n + 1 {
                let s = compute_scale_factor(&self.q, 0, 1, n);
                proof {
                    assert forall|k: int| 0 <= k < n implies divides(
                        rat_den(#[trigger] self.q@[k]),
                        bi(s),
                    ) by {
                        assert(divides(rat_den(self.q@[0 + k * 1]), bi(s)));
                    }
                    assert forall|x: int|
                        (forall|k: int| 0 <= k < n ==> divides(rat_den(#[trigger] qq[k]), x))
                            implies #[trigger] divides(bi(s), x) by {
                        assert forall|k: int| 0 <= k < n implies divides(
                            rat_den(#[trigger] self.q@[0 + k * 1]),
                            x,
                        ) by {
                            assert(divides(rat_den(qq[k]), x));
                        }
                    }
                }
                s
            } else {
                proof {
                    assert((j - 1) + (n - 1) * n < n * n) by (nonlinear_arith)
                        requires
                            1 <= j <= n,
                    ;
                    assert forall|k: int| 0 <= k < n implies rat_den(
                        #[trigger] self.m@[(j - 1) + k * n],
                    ) > 0 by {
                        assert(0 <= (j - 1) + k * n < n * n) by (nonlinear_arith)
                            requires
                                1 <= j <= n,
                                0 <= k < n,
                        ;
                    }
                }
                let s = compute_scale_factor(&self.m, j - 1, n, n);
                proof {
                    assert forall|k: int| 0 <= k < n implies divides(
                        rat_den(#[trigger] self.m@[(j - 1) + k * n]),
                        bi(s),
                    ) by {
                        assert(divides(rat_den(self.m@[(j - 1) as int + k * (n as int)]), bi(s)));
                    }
                    assert forall|x: int|
                        (forall|k: int|
                            0 <= k < n ==> divides(rat_den(#[trigger] mm[(j - 1) + k * n]), x))
                            implies #[trigger] divides(bi(s), x) by {
                        assert forall|k: int| 0 <= k < n implies divides(
                            rat_den(#[trigger] self.m@[(j - 1) as int + k * (n as int)]),
                            x,
                        ) by {
                            assert(divides(rat_den(mm[(j - 1) + k * n]), x));
                        }
                    }
                }
                s
            };
            let ghost sfv = bi(sf);
            let ghost jj = j as int;
            let ghost pre = *self;

            let mut i: usize = 0;
            while i < n
                invariant
                    n + 2 <= usize::MAX,
                    n * n <= usize::MAX,
                    self.wf(),
                    n == self.n,
                    self.m@.len() == n * n,
                    self.q@.len() == n,
                    rats_wf(self.m@),
                    rats_wf(self.q@),
                    self.m == pre.m,
                    self.q == pre.q,
                    self.d == pre.d,
                    self.n == pre.n,
                    self.vars == pre.vars,
                    self.scale_factors == pre.scale_factors,
                    self.tableau.determinant == pre.tableau.determinant,
                    1 <= jj <= n + 1,
                    jj == j as int,
                    i <= n,
                    sfv == bi(sf),
                    sfv > 0,
                    jj == n + 1 ==> forall|k: int|
                        0 <= k < n ==> divides(rat_den(#[trigger] self.q@[k]), sfv),
                    1 <= jj <= n ==> forall|k: int|
                        0 <= k < n ==> divides(rat_den(#[trigger] self.m@[(jj - 1) + k * n]), sfv),
                    mm == self.m@,
                    qq == self.q@,
                    jj == n + 1 ==> forall|x: int|
                        (forall|k: int| 0 <= k < n ==> divides(rat_den(#[trigger] qq[k]), x))
                            ==> #[trigger] divides(sfv, x),
                    1 <= jj <= n ==> forall|x: int|
                        (forall|k: int|
                            0 <= k < n ==> divides(rat_den(#[trigger] mm[(jj - 1) + k * n]), x))
                            ==> #[trigger] divides(sfv, x),
                    forall|i2: int, j2: int|
                        0 <= i2 < n && 0 <= j2 < n + 2 && j2 != jj ==> #[trigger] self.tableau.val(
                            i2,
                            j2,
                        ) == pre.tableau.val(i2, j2),
                    forall|i2: int|
                        0 <= i2 < i ==> #[trigger] self.tableau.val(i2, jj) * rat_den(
                            col_rat(self.m@, self.q@, n as int, i2, jj),
                        ) == rat_num(col_rat(self.m@, self.q@, n as int, i2, jj)) * sfv,
                decreases n - i,
            {
                let (num, den) = if j == n + 1 {
                    (rat_numer(&self.q[i]), rat_denom(&self.q[i]))
                } else {
                    proof {
                        assert(0 <= i * n + (j - 1) < n * n) by (nonlinear_arith)
                            requires
                                1 <= j <= n,
                                0 <= i < n,
                        ;
                    }
                    let idx: usize = i * n + (j - 1);
                    (rat_numer(&self.m[idx]), rat_denom(&self.m[idx]))
                };
                proof {
                    let source = col_rat(self.m@, self.q@, n as int, i as int, jj);
                    assert(bi(num) == rat_num(source) && bi(den) == rat_den(source));
                    if 1 <= jj <= n {
                        assert(i as int * n + (jj - 1) == (jj - 1) + i as int * n);
                        assert(divides(rat_den(self.m@[(jj - 1) + i as int * n]), sfv));
                    }
                    assert(divides(bi(den), sfv));
                }
                let prod = big_mul(&num, &sf);
                let (quo, rem) = big_div_rem(&prod, &den);
                proof {
                    let kk = choose|k: int| sfv == #[trigger] (k * bi(den));
                    assert(bi(prod) == (bi(num) * kk) * bi(den)) by (nonlinear_arith)
                        requires
                            bi(prod) == bi(num) * sfv,
                            sfv == kk * bi(den),
                    ;
                    lemma_divides_witness(bi(den), bi(num) * kk);
                    lemma_small_remainder_zero(bi(prod), bi(den), bi(quo), bi(rem));
                }
                self.tableau.set(i, j, quo);
                i += 1;
            }
            self.scale_factors[j] = sf;
            proof {
                assert forall|j2: int| 1 <= j2 < j + 1 implies #[trigger] self.column_scaled(
                    j2,
                ) by {
                    if j2 < jj {
                        assert(pre.column_scaled(j2));
                        assert forall|i2: int| 0 <= i2 < n implies #[trigger] self.tableau.val(
                            i2,
                            j2,
                        ) * rat_den(col_rat(self.m@, self.q@, n as int, i2, j2)) == rat_num(
                            col_rat(self.m@, self.q@, n as int, i2, j2),
                        ) * bi(self.scale_factors@[j2]) by {
                            assert(self.tableau.val(i2, j2) == pre.tableau.val(i2, j2));
                        }
                    }
                }
                assert forall|j2: int| 1 <= j2 < j + 1 implies #[trigger] self.column_scale_least(
                    j2,
                ) by {
                    if j2 < jj {
                        assert(pre.column_scale_least(j2));
                        assert forall|x: int|
                            (forall|i2: int|
                                0 <= i2 < self.n ==> divides(
                                    rat_den(
                                        #[trigger] col_rat(
                                            self.m@,
                                            self.q@,
                                            self.n as int,
                                            i2,
                                            j2,
                                        ),
                                    ),
                                    x,
                                )) implies #[trigger] divides(bi(self.scale_factors@[j2]), x) by {
                            assert forall|i2: int| 0 <= i2 < pre.n implies divides(
                                rat_den(#[trigger] col_rat(pre.m@, pre.q@, pre.n as int, i2, j2)),
                                x,
                            ) by {
                                assert(col_rat(pre.m@, pre.q@, pre.n as int, i2, j2) == col_rat(
                                    self.m@,
                                    self.q@,
                                    self.n as int,
                                    i2,
                                    j2,
                                ));
                            }
                            assert(divides(bi(pre.scale_factors@[j2]), x));
                            assert(self.scale_factors@[j2] == pre.scale_factors@[j2]);
                        }
                        assert(self.column_scale_least(j2));
                    } else {
                        assert forall|x: int|
                            (forall|i2: int|
                                0 <= i2 < self.n ==> divides(
                                    rat_den(
                                        #[trigger] col_rat(
                                            self.m@,
                                            self.q@,
                                            self.n as int,
                                            i2,
                                            jj,
                                        ),
                                    ),
                                    x,
                                )) implies #[trigger] divides(bi(self.scale_factors@[jj]), x) by {
                            if jj == n + 1 {
                                assert forall|k: int| 0 <= k < n implies divides(
                                    rat_den(#[trigger] qq[k]),
                                    x,
                                ) by {
                                    assert(col_rat(self.m@, self.q@, self.n as int, k, jj) == qq[k]);
                                    assert(divides(
                                        rat_den(col_rat(self.m@, self.q@, self.n as int, k, jj)),
                                        x,
                                    ));
                                }
                            } else {
                                assert forall|k: int| 0 <= k < n implies divides(
                                    rat_den(#[trigger] mm[(jj - 1) + k * n]),
                                    x,
                                ) by {
                                    assert(col_rat(self.m@, self.q@, self.n as int, k, jj) == mm[k
                                        * n + (jj - 1)]);
                                    assert((jj - 1) + k * n == k * n + (jj - 1));
                                    assert(divides(
                                        rat_den(col_rat(self.m@, self.q@, self.n as int, k, jj)),
                                        x,
                                    ));
                                }
                            }
                            assert(divides(sfv, x));
                            assert(bi(self.scale_factors@[jj]) == sfv);
                        }
                        assert(j2 == jj);
                        assert(self.column_scale_least(j2));
                    }
                }
            }
            j += 1;
        }
    }

    /// Add the covering vector `d` as tableau column 0, scaled to
    /// integers like the other columns.
    pub fn add_covering_vector(&mut self, d: Vec<BigRational>)
        requires
            old(self).wf(),
            d@.len() == old(self).n,
            rats_wf(d@),
        ensures
            final(self).wf(),
            final(self).n == old(self).n,
            final(self).m == old(self).m,
            final(self).q == old(self).q,
            final(self).d@ == d@,
            final(self).vars == old(self).vars,
            final(self).tableau.det() == old(self).tableau.det(),
            bi(final(self).scale_factors@[0]) > 0,
            forall|i: int|
                0 <= i < old(self).n ==> divides(
                    rat_den(#[trigger] d@[i]),
                    bi(final(self).scale_factors@[0]),
                ),
            forall|x: int|
                (forall|i: int| 0 <= i < old(self).n ==> divides(rat_den(#[trigger] d@[i]), x))
                    ==> #[trigger] divides(bi(final(self).scale_factors@[0]), x),
            forall|k: int|
                1 <= k < old(self).n + 2 ==> #[trigger] final(self).scale_factors@[k] == old(self).scale_factors@[k],
            forall|i: int|
                0 <= i < old(self).n ==> #[trigger] final(self).tableau.val(i, 0) * rat_den(d@[i])
                    == rat_num(d@[i]) * bi(final(self).scale_factors@[0]),
            forall|i: int, j: int|
                0 <= i < old(self).n && 1 <= j < old(self).n + 2 ==> #[trigger] final(self).tableau.val(i, j)
                    == old(self).tableau.val(i, j),
    {
        let n = self.n;
        let sf = compute_scale_factor(&d, 0, 1, n);
        proof {
            assert forall|k: int| 0 <= k < n implies divides(rat_den(#[trigger] d@[k]), bi(sf)) by {
                assert(divides(rat_den(d@[0 + k * 1]), bi(sf)));
            }
            assert forall|x: int|
                (forall|k: int| 0 <= k < n ==> divides(rat_den(#[trigger] d@[k]), x))
                    implies #[trigger] divides(bi(sf), x) by {
                assert forall|k: int| 0 <= k < n implies divides(
                    rat_den(#[trigger] d@[0 + k * 1]),
                    x,
                ) by {
                    assert(divides(rat_den(d@[k]), x));
                }
            }
        }
        let ghost sfv = bi(sf);
        let ghost pre = *self;

        let mut i: usize = 0;
        while i < n
            invariant
                self.wf(),
                n == self.n,
                d@.len() == n,
                rats_wf(d@),
                self.m == pre.m,
                self.q == pre.q,
                self.d == pre.d,
                self.n == pre.n,
                self.vars == pre.vars,
                self.scale_factors == pre.scale_factors,
                self.tableau.determinant == pre.tableau.determinant,
                i <= n,
                sfv == bi(sf),
                sfv > 0,
                forall|k: int| 0 <= k < n ==> divides(rat_den(#[trigger] d@[k]), sfv),
                forall|x: int|
                    (forall|k: int| 0 <= k < n ==> divides(rat_den(#[trigger] d@[k]), x))
                        ==> #[trigger] divides(sfv, x),
                forall|i2: int, j2: int|
                    0 <= i2 < n && 1 <= j2 < n + 2 ==> #[trigger] self.tableau.val(i2, j2)
                        == pre.tableau.val(i2, j2),
                forall|i2: int|
                    0 <= i2 < i ==> #[trigger] self.tableau.val(i2, 0) * rat_den(d@[i2]) == rat_num(
                        d@[i2],
                    ) * sfv,
            decreases n - i,
        {
            let num = rat_numer(&d[i]);
            let den = rat_denom(&d[i]);
            let prod = big_mul(&num, &sf);
            let (quo, rem) = big_div_rem(&prod, &den);
            proof {
                let kk = choose|k: int| sfv == #[trigger] (k * bi(den));
                assert(bi(prod) == (bi(num) * kk) * bi(den)) by (nonlinear_arith)
                    requires
                        bi(prod) == bi(num) * sfv,
                        sfv == kk * bi(den),
                ;
                lemma_divides_witness(bi(den), bi(num) * kk);
                lemma_small_remainder_zero(bi(prod), bi(den), bi(quo), bi(rem));
            }
            self.tableau.set(i, 0, quo);
            i += 1;
        }
        self.scale_factors[0] = sf;
        self.d = d;
    }
}

/// Greatest common divisor of two positive integers by Euclid's
/// algorithm: the result is positive, divides both inputs, collects
/// every common divisor, and is an integer combination of the inputs
/// (the fact that makes the least common multiple least).
fn euclid_gcd(a: &BigInt, b: &BigInt) -> (g: BigInt)
    requires
        bi(*a) > 0,
        bi(*b) >= 0,
    ensures
        bi(g) > 0,
        divides(bi(g), bi(*a)),
        divides(bi(g), bi(*b)),
        forall|e: int|
            #[trigger] divides(e, bi(*a)) && divides(e, bi(*b)) ==> divides(e, bi(g)),
        exists|uv: (int, int)| bi(g) == #[trigger] (uv.0 * bi(*a)) + uv.1 * bi(*b),
{
    let ghost a0 = bi(*a);
    let ghost b0 = bi(*b);
    let mut x = big_clone(a);
    let mut y = big_clone(b);
    let ghost mut cx: (int, int) = (1int, 0int);
    let ghost mut cy: (int, int) = (0int, 1int);
    proof {
        lemma_divides_witness(bi(x), 1);
        lemma_divides_witness(bi(y), 1);
        if bi(y) == 0 {
            lemma_divides_witness(bi(x), 0);
        }
    }
    while !big_is_zero(&y)
        invariant
            bi(x) > 0,
            bi(y) >= 0,
            bi(x) == cx.0 * a0 + cx.1 * b0,
            bi(y) == cy.0 * a0 + cy.1 * b0,
            forall|e: int|
                #[trigger] divides(e, bi(x)) && divides(e, bi(y)) <==> divides(e, a0) && divides(
                    e,
                    b0,
                ),
        decreases bi(y),
    {
        let (quo, rem) = big_div_rem(&x, &y);
        let ghost e0 = bi(x);
        let ghost e1 = bi(y);
        let ghost e2 = bi(rem);
        let ghost cx_old = cx;
        let ghost cy_old = cy;
        proof {
            cx = cy_old;
            cy = (cx_old.0 - bi(quo) * cy_old.0, cx_old.1 - bi(quo) * cy_old.1);
            assert(e2 == (cx_old.0 - bi(quo) * cy_old.0) * a0 + (cx_old.1 - bi(quo) * cy_old.1)
                * b0) by (nonlinear_arith)
                requires
                    e2 == e0 - bi(quo) * e1,
                    e0 == cx_old.0 * a0 + cx_old.1 * b0,
                    e1 == cy_old.0 * a0 + cy_old.1 * b0,
            ;
        }
        x = y;
        y = rem;
        proof {
            assert(e2 == e0 - bi(quo) * e1);
            assert forall|e: int|
                (#[trigger] divides(e, bi(x)) && divides(e, bi(y))) == (divides(e, a0) && divides(
                    e,
                    b0,
                )) by {
                let d0 = divides(e, e0);
                let d1 = divides(e, e1);
                let d2 = divides(e, e2);
                if divides(e, e1) && divides(e, e2) {
                    lemma_divides_linear(e, e2, e1, -bi(quo));
                    assert((-bi(quo)) * e1 == -(bi(quo) * e1)) by (nonlinear_arith);
                    assert(e2 - (-bi(quo)) * e1 == e0);
                    assert(divides(e, e0));
                }
                if divides(e, e0) && divides(e, e1) {
                    lemma_divides_linear(e, e0, e1, bi(quo));
                    assert(e0 - bi(quo) * e1 == e2);
                    assert(divides(e, e2));
                }
            }
        }
    }
    proof {
        lemma_divides_witness(bi(x), 1);
        lemma_divides_witness(bi(x), 0);
        assert(divides(bi(x), bi(x)) && divides(bi(x), bi(y)));
        assert(bi(x) == (cx.0 * a0) + cx.1 * b0);
    }
    x
}

/// Least common multiple of the denominators of the rationals at
/// `start`, `start + step`, ..., `count` of them: a positive integer
/// that every one of those denominators divides.
fn compute_scale_factor(rats: &Vec<BigRational>, start: usize, step: usize, count: usize) -> (r:
    BigInt)
    requires
        step >= 1,
        count >= 1,
        start + (count - 1) * step < rats@.len(),
        forall|k: int| 0 <= k < count ==> rat_den(#[trigger] rats@[start + k * step]) > 0,
    ensures
        bi(r) > 0,
        forall|k: int|
            0 <= k < count ==> divides(rat_den(#[trigger] rats@[start + k * step]), bi(r)),
        forall|x: int|
            (forall|k: int|
                0 <= k < count ==> divides(rat_den(#[trigger] rats@[start + k * step]), x))
                ==> #[trigger] divides(bi(r), x),
{
    let rlen: usize = rats.len();
    let mut lcm = big_from_i64(1);
    proof {
        assert forall|x: int| true implies #[trigger] divides(bi(lcm), x) by {
            lemma_divides_witness(1, x);
            assert(x == x * 1);
        }
    }
    let mut i: usize = 0;
    while i < count
        invariant
            step >= 1,
            count >= 1,
            rlen == rats@.len(),
            start + (count - 1) * step < rats@.len(),
            forall|k: int| 0 <= k < count ==> rat_den(#[trigger] rats@[start + k * step]) > 0,
            i <= count,
            bi(lcm) > 0,
            forall|k: int|
                0 <= k < i ==> divides(rat_den(#[trigger] rats@[start + k * step]), bi(lcm)),
            forall|x: int|
                (forall|k: int|
                    0 <= k < i ==> divides(rat_den(#[trigger] rats@[start + k * step]), x))
                    ==> #[trigger] divides(bi(lcm), x),
        decreases count - i,
    {
        proof {
            assert(i * step <= (count - 1) * step) by (nonlinear_arith)
                requires
                    0 <= i <= count - 1,
                    step >= 1,
            ;
        }
        let idx: usize = start + i * step;
        let den = rat_denom(&rats[idx]);
        assert(bi(den) == rat_den(rats@[start + i as int * step]));
        let g = euclid_gcd(&lcm, &den);
        let (quo, rem) = big_div_rem(&lcm, &g);
        proof {
            lemma_small_remainder_zero(bi(lcm), bi(g), bi(quo), bi(rem));
        }
        let ghost old_lcm = bi(lcm);
        lcm = big_mul(&quo, &den);
        proof {
            let kq = choose|k: int| bi(den) == #[trigger] (k * bi(g));
            assert(bi(lcm) > 0) by (nonlinear_arith)
                requires
                    bi(lcm) == bi(quo) * bi(den),
                    old_lcm == bi(quo) * bi(g),
                    old_lcm > 0,
                    bi(g) > 0,
                    bi(den) > 0,
            ;
            assert(bi(lcm) == kq * old_lcm) by (nonlinear_arith)
                requires
                    bi(lcm) == bi(quo) * bi(den),
                    bi(den) == kq * bi(g),
                    old_lcm == bi(quo) * bi(g),
            ;
            lemma_divides_witness(old_lcm, kq);
            assert(divides(old_lcm, bi(lcm)));
            lemma_divides_witness(bi(den), bi(quo));
            assert(bi(lcm) == bi(quo) * bi(den));
            assert(divides(bi(den), bi(lcm)));
            assert forall|k: int|
                0 <= k < i + 1 implies divides(
                rat_den(#[trigger] rats@[start + k * step]),
                bi(lcm),
            ) by {
                if k < i {
                    lemma_divides_trans(rat_den(rats@[start + k * step]), old_lcm, bi(lcm));
                }
            }
            // and nothing smaller would do: any common multiple of the
            // denominators seen so far is a multiple of the new value
            assert(bi(lcm) * bi(g) == old_lcm * bi(den)) by (nonlinear_arith)
                requires
                    bi(lcm) == bi(quo) * bi(den),
                    old_lcm == bi(quo) * bi(g),
            ;
            assert forall|x: int|
                (forall|k: int|
                    0 <= k < i + 1 ==> divides(rat_den(#[trigger] rats@[start + k * step]), x))
                    implies #[trigger] divides(bi(lcm), x) by {
                assert(forall|k: int|
                    0 <= k < i ==> divides(rat_den(#[trigger] rats@[start + k * step]), x));
                assert(divides(old_lcm, x));
                assert(divides(rat_den(rats@[start + i as int * step]), x));
                assert(divides(bi(den), x));
                let uv = choose|uv: (int, int)|
                    bi(g) == #[trigger] (uv.0 * old_lcm) + uv.1 * bi(den);
                crate::arith::lemma_lcm_least(old_lcm, bi(den), bi(g), bi(lcm), uv.0, uv.1, x);
            }
        }
        i += 1;
    }
    lcm
}

/// Rejects covering vectors that cannot start the pivoting: a negative
/// entry anywhere, or a zero entry on a row where `q` is negative.  On
/// success reports whether `q` is entirely non-negative, in which case
/// `z = 0` already solves the problem and no pivot is needed.
fn validate_inputs(q: &Vec<BigRational>, d: &Vec<BigRational>) -> (res: Result<bool, LcpError>)
    requires
        q@.len() == d@.len(),
        rats_wf(q@),
        rats_wf(d@),
    ensures
        res is Ok ==> forall|i: int| 0 <= i < q@.len() ==> !#[trigger] bad_cover(q@, d@, i),
        res matches Ok(trivial) ==> trivial == (forall|i: int|
            0 <= i < q@.len() ==> rat_num(#[trigger] q@[i]) >= 0),
        res is Err ==> (exists|i: int| 0 <= i < q@.len() && #[trigger] bad_cover(q@, d@, i)),
        res matches Err(e) ==> (e matches LcpError::BadCoveringVector(i, fault) && 0 <= i < q@.len()
            && bad_cover(q@, d@, i as int) && (fault == CoveringVectorFault::NegativeEntry
            <==> rat_num(d@[i as int]) < 0) && (forall|k: int|
            0 <= k < i ==> !#[trigger] bad_cover(q@, d@, k))),
{
    let mut is_q_pos = true;
    let mut i: usize = 0;
    while i < q.len()  // scan rows in order, so the first fault wins
        invariant
            q@.len() == d@.len(),
            rats_wf(q@),
            rats_wf(d@),
            i <= q@.len(),
            forall|k: int| 0 <= k < i ==> !#[trigger] bad_cover(q@, d@, k),
            is_q_pos == (forall|k: int| 0 <= k < i ==> rat_num(#[trigger] q@[k]) >= 0),
        decreases q@.len() - i,
    {
        let dn = rat_numer(&d[i]);
        let qn = rat_numer(&q[i]);
        if big_is_negative(&dn) {
            assert(bad_cover(q@, d@, i as int));
            return Err(LcpError::BadCoveringVector(i, CoveringVectorFault::NegativeEntry));
        }
        if big_is_negative(&qn) {
            if big_is_zero(&dn) {
                assert(bad_cover(q@, d@, i as int));
                return Err(LcpError::BadCoveringVector(i, CoveringVectorFault::ZeroOnNegativeQ));
            }
            is_q_pos = false;
        }
        assert(!bad_cover(q@, d@, i as int));
        i += 1;
    }
    Ok(is_q_pos)
}

/// Check a candidate solution: fold each row of `w = M z + q` as an
/// exact unreduced fraction, with plain big-integer arithmetic, and
/// test that it is non-negative and complementary to `z`.  This is the
/// last word of the solver: a vector only comes back once it passed.
fn check_solution(m: &Vec<BigRational>, q: &Vec<BigRational>, z: &Vec<BigRational>) -> (ok: bool)
    requires
        q@.len() >= 1,
        m@.len() == q@.len() * q@.len(),
        z@.len() == q@.len(),
        rats_wf(m@),
        rats_wf(q@),
        forall|k: int| 0 <= k < z@.len() ==> rat_den(#[trigger] z@[k]) > 0,
    ensures
        ok == solves_lcp(m@, q@, z@, q@.len() as int),
{
    let n = q.len();
    let mlen: usize = m.len();
    assert(n * n <= usize::MAX);
    let ghost nn = n as int;
    let mut i: usize = 0;
    while i < n
        invariant
            n * n <= usize::MAX,
            n == q@.len(),
            1 <= n,
            m@.len() == n * n,
            z@.len() == n,
            rats_wf(m@),
            rats_wf(q@),
            forall|k: int| 0 <= k < n ==> rat_den(#[trigger] z@[k]) > 0,
            nn == n as int,
            i <= n,
            forall|i2: int|
                0 <= i2 < i ==> {
                    let w = #[trigger] w_entry(m@, q@, z@, nn, i2, nn);
                    &&& w.1 > 0
                    &&& w.0 >= 0
                    &&& rat_num(z@[i2]) * w.0 == 0
                },
        decreases n - i,
    {
        let mut acc_n = rat_numer(&q[i]);
        let mut acc_d = rat_denom(&q[i]);
        let mut j: usize = 0;
        while j < n
            invariant
                n * n <= usize::MAX,
                n == q@.len(),
                1 <= n,
                m@.len() == n * n,
                z@.len() == n,
                rats_wf(m@),
                rats_wf(q@),
                forall|k: int| 0 <= k < n ==> rat_den(#[trigger] z@[k]) > 0,
                nn == n as int,
                i < n,
                j <= n,
                bi(acc_n) == w_entry(m@, q@, z@, nn, i as int, j as int).0,
                bi(acc_d) == w_entry(m@, q@, z@, nn, i as int, j as int).1,
            decreases n - j,
        {
            proof {
                assert(0 <= (i as int) * nn + (j as int) < nn * nn) by (nonlinear_arith)
                    requires
                        0 <= (i as int) < nn,
                        0 <= (j as int) < nn,
                ;
            }
            let idx: usize = i * n + j;
            let tn = big_mul(&rat_numer(&m[idx]), &rat_numer(&z[j]));
            let td = big_mul(&rat_denom(&m[idx]), &rat_denom(&z[j]));
            let scaled = big_mul(&acc_n, &td);
            let cross = big_mul(&tn, &acc_d);
            acc_n = crate::bigint::big_add(&scaled, &cross);
            acc_d = big_mul(&acc_d, &td);
            j += 1;
        }
        proof {
            lemma_w_entry_den_positive(m@, q@, z@, nn, i as int, nn);
        }
        if big_is_negative(&acc_n) {
            proof {
                assert(!solves_lcp(m@, q@, z@, nn));
            }
            return false;
        }
        let zn = rat_numer(&z[i]);
        if !big_is_zero(&zn) && !big_is_zero(&acc_n) {
            proof {
                let w = w_entry(m@, q@, z@, nn, i as int, nn);
                assert(rat_num(z@[i as int]) * w.0 != 0) by (nonlinear_arith)
                    requires
                        rat_num(z@[i as int]) != 0,
                        w.0 != 0,
                ;
                assert(!solves_lcp(m@, q@, z@, nn));
            }
            return false;
        }
        proof {
            let w = w_entry(m@, q@, z@, nn, i as int, nn);
            if rat_num(z@[i as int]) == 0 {
                assert(rat_num(z@[i as int]) * w.0 == 0) by (nonlinear_arith)
                    requires
                        rat_num(z@[i as int]) == 0,
                ;
            } else {
                assert(w.0 == 0);
                assert(rat_num(z@[i as int]) * w.0 == 0) by (nonlinear_arith)
                    requires
                        w.0 == 0,
                ;
            }
        }
        i += 1;
    }
    true
}

/// Classification of the dimension errors: mismatched lengths and a
/// rectangular `M` are reported exactly when they occur, before
/// anything else is looked at.
pub open spec fn lemke_dims_post(
    m: Seq<Ratio<BigInt>>,
    q: Seq<Ratio<BigInt>>,
    d: Seq<Ratio<BigInt>>,
    res: Result<Vec<BigRational>, LcpError>,
) -> bool {
    let n = q.len() as int;
    &&& (res == Err::<Vec<BigRational>, LcpError>(LcpError::DimensionMismatch) <==> (n == 0 || (
    m.len() as int) % n != 0 || (m.len() == n * n && d.len() != n)))
    &&& (res == Err::<Vec<BigRational>, LcpError>(LcpError::NonSquareMatrix) <==> (n >= 1 && (
    m.len() as int) % n == 0 && m.len() != n * n))
}

/// Classification of covering-vector rejection: with the shapes right,
/// the first offending row is reported, with the reason.
pub open spec fn lemke_cover_post(
    m: Seq<Ratio<BigInt>>,
    q: Seq<Ratio<BigInt>>,
    d: Seq<Ratio<BigInt>>,
    res: Result<Vec<BigRational>, LcpError>,
) -> bool {
    let n = q.len() as int;
    &&& ((res matches Err(e) && e is BadCoveringVector) <==> (n >= 1 && m.len() == n * n && d.len()
        == n && exists|i: int| 0 <= i < n && bad_cover(q, d, i)))
    &&& (res matches Err(LcpError::BadCoveringVector(i, fault)) ==> 0 <= i < n && bad_cover(
        q,
        d,
        i as int,
    ) && (fault == CoveringVectorFault::NegativeEntry <==> rat_num(d[i as int]) < 0) && (forall|
        k: int,
    | 0 <= k < i ==> !bad_cover(q, d, k)))
}

/// What a returned solution vector looks like: n non-negative
/// rationals, each in lowest terms with a positive denominator, that
/// genuinely solve the instance (`w = M z + q` is non-negative and
/// complementary to z), and the zero vector whenever `q` was already
/// non-negative.
pub open spec fn lemke_result_post(
    m: Seq<Ratio<BigInt>>,
    q: Seq<Ratio<BigInt>>,
    d: Seq<Ratio<BigInt>>,
    res: Result<Vec<BigRational>, LcpError>,
) -> bool {
    let n = q.len() as int;
    &&& ((n >= 1 && m.len() == n * n && d.len() == n && (forall|k: int|
        0 <= k < n ==> !bad_cover(q, d, k)) && (forall|k: int|
        0 <= k < n ==> rat_num(#[trigger] q[k]) >= 0)) ==> (res matches Ok(z) && z@.len() == n
        && forall|i: int| 0 <= i < n ==> rat_num(#[trigger] z@[i]) == 0 && rat_den(z@[i]) > 0))
    &&& (res matches Ok(z) ==> n >= 1 && m.len() == n * n && d.len() == n && z@.len() == n && (
    forall|i: int|
        0 <= i < n ==> rat_den(#[trigger] z@[i]) > 0 && rat_num(z@[i]) >= 0
            && crate::bigint::rat_reduced(z@[i])) && solves_lcp(m, q, z@, n))
}

/// Solve the LCP given by `M` (row-major, n by n), `q` and `d`, with at
/// most `pivot_max` pivots; `pivot_max = 0` means no bound.  A
/// non-negative `q` is already solved by `z = 0` and returns the zero
/// vector without pivoting.  All input rationals carry the positive
/// denominators that canonical `num` rationals always have.
pub fn lemke_with_pivot_max(
    m: Vec<BigRational>,
    q: Vec<BigRational>,
    d: Vec<BigRational>,
    pivot_max: usize,
) -> (res: Result<Vec<BigRational>, LcpError>)
    requires
        rats_wf(m@),
        rats_wf(q@),
        rats_wf(d@),
        q@.len() * (q@.len() + 2) <= usize::MAX,
    ensures
        lemke_dims_post(m@, q@, d@, res),
        lemke_cover_post(m@, q@, d@, res),
        lemke_result_post(m@, q@, d@, res),
{
    let ghost m0 = m@;
    let ghost q0 = q@;
    let ghost d0 = d@;
    let n = q.len();
    if n == 0 {
        return Err(LcpError::DimensionMismatch);
    }
    proof {
        assert((((n as int) * (n as int)) % (n as int)) == 0) by (nonlinear_arith)
            requires
                n as int >= 1,
        ;
    }
    if m.len() % n != 0 {
        return Err(LcpError::DimensionMismatch);
    }
    let ncols = m.len() / n;
    proof {
        assert(m@.len() as int == ((m@.len() as int) / (n as int)) * (n as int)) by (nonlinear_arith)
            requires
                n as int > 0,
                (m@.len() as int) % (n as int) == 0,
        ;
    }
    if ncols != n {
        proof {
            assert(m@.len() as int != (n as int) * (n as int)) by (nonlinear_arith)
                requires
                    n as int > 0,
                    m@.len() as int == ((m@.len() as int) / (n as int)) * (n as int),
                    (m@.len() as int) / (n as int) != n as int,
            ;
        }
        return Err(LcpError::NonSquareMatrix);
    }
    if d.len() != n {
        return Err(LcpError::DimensionMismatch);
    }

    let trivial = match validate_inputs(&q, &d) {
        Ok(t) => t,
        Err(e) => {
            return Err(e);
        },
    };
    if trivial {
        let mut z: Vec<BigRational> = Vec::new();
        let mut i: usize = 0;
        while i < n
            invariant
                i <= n,
                z@.len() == i,
                forall|k: int|
                    0 <= k < i ==> rat_num(#[trigger] z@[k]) == 0 && rat_den(z@[k]) > 0
                        && crate::bigint::rat_reduced(z@[k]),
            decreases n - i,
        {
            z.push(rat_new(big_from_i64(0), big_from_i64(1)));
            i += 1;
        }
        proof {
            let nn = n as int;
            assert forall|i2: int| 0 <= i2 < nn implies ({
                let w = #[trigger] w_entry(m@, q@, z@, nn, i2, nn);
                &&& w.1 > 0
                &&& w.0 >= 0
                &&& rat_num(z@[i2]) * w.0 == 0
            }) by {
                lemma_w_entry_den_positive(m@, q@, z@, nn, i2, nn);
                assert(rat_num(q@[i2]) >= 0);
                lemma_w_entry_zero_z(m@, q@, z@, nn, i2, nn);
                let w = w_entry(m@, q@, z@, nn, i2, nn);
                assert(rat_num(z@[i2]) * w.0 == 0) by (nonlinear_arith)
                    requires
                        rat_num(z@[i2]) == 0,
                ;
            }
            assert(solves_lcp(m@, q@, z@, nn));
        }
        return Ok(z);
    }

    let mut lcp = LCP::new(m, q);
    let ghost lcp_built = lcp;
    lcp.add_covering_vector(d);

    let mut enter = lcp.vars.z(0);
    proof {
        assert(lcp.vars.var_pos(0) == lcp.n);
        assert forall|i: int| 1 <= i <= lcp.n implies !(#[trigger] lcp.vars.basic(i)
            && lcp.vars.basic(i + lcp.n)) by {
            assert(lcp.vars.var_pos(lcp.n + i) == i - 1);
            assert(lcp.vars.var_pos(i) == lcp.n + i);
        }
    }
    let (mut leave, mut z0_can_leave) = match crate::lex_min_ratio::lexminratio(
        &lcp.tableau,
        &lcp.vars,
        &enter,
    ) {
        Ok(p) => p,
        Err(e) => {
            return Err(e);
        },
    };
    let ghost t_built = lcp.tableau;
    lcp.vars.negate_rhs(&mut lcp.tableau);

    proof {
        let nn = n as int;
        let t0 = t_built;
        let t1 = lcp.tableau;
        let sf = lcp.scale_factors@;
        // every scale factor is positive
        assert forall|j: int| 0 <= j < nn + 2 implies bi(#[trigger] sf[j]) > 0 by {
            if j >= 1 {
                assert(sf[j] == lcp_built.scale_factors@[j]);
                assert(bi(lcp_built.scale_factors@[j]) > 0);
            }
        }
        // z0 enters on the covering column
        assert(lcp.vars.var_pos(0) == nn);
        // the covering column is non-negative, and where it vanishes the
        // (still un-negated) q entry was non-negative
        assert forall|i: int| 0 <= i < nn implies #[trigger] t1.val(i, 0) >= 0 && (t1.val(i, 0)
            == 0 ==> t1.val(i, nn + 1) <= 0) by {
            assert(!bad_cover(q0, d0, i));
            assert(t1.val(i, 0) == t0.val(i, 0));
            assert(t0.val(i, 0) * rat_den(d0[i]) == rat_num(d0[i]) * bi(sf[0]));
            assert(rat_num(d0[i]) >= 0);
            assert(t1.val(i, 0) >= 0) by (nonlinear_arith)
                requires
                    t1.val(i, 0) * rat_den(d0[i]) == rat_num(d0[i]) * bi(sf[0]),
                    rat_den(d0[i]) > 0,
                    rat_num(d0[i]) >= 0,
                    bi(sf[0]) > 0,
            ;
            if t1.val(i, 0) == 0 {
                assert(rat_num(d0[i]) == 0) by (nonlinear_arith)
                    requires
                        t1.val(i, 0) == 0,
                        t1.val(i, 0) * rat_den(d0[i]) == rat_num(d0[i]) * bi(sf[0]),
                        bi(sf[0]) > 0,
                ;
                assert(rat_num(q0[i]) >= 0);
                assert(lcp_built.column_scaled(nn + 1));
                assert(lcp_built.tableau.val(i, nn + 1) * rat_den(
                    col_rat(m0, q0, nn, i, nn + 1),
                ) == rat_num(col_rat(m0, q0, nn, i, nn + 1)) * bi(
                    lcp_built.scale_factors@[nn + 1],
                ));
                assert(t0.val(i, nn + 1) * rat_den(q0[i]) == rat_num(q0[i]) * bi(sf[nn + 1]));
                assert(t0.val(i, nn + 1) >= 0) by (nonlinear_arith)
                    requires
                        t0.val(i, nn + 1) * rat_den(q0[i]) == rat_num(q0[i]) * bi(sf[nn + 1]),
                        rat_den(q0[i]) > 0,
                        rat_num(q0[i]) >= 0,
                        bi(sf[nn + 1]) > 0,
                ;
                assert(t1.val(i, nn + 1) == -t0.val(i, nn + 1));
            }
        }
        // some row is strictly infeasible and its covering entry positive
        let iw = choose|i: int| 0 <= i < q0.len() && !(rat_num(#[trigger] q0[i]) >= 0);
        assert(rat_num(q0[iw]) < 0);
        assert(!bad_cover(q0, d0, iw));
        assert(rat_num(d0[iw]) > 0);
        assert(t0.val(iw, 0) * rat_den(d0[iw]) == rat_num(d0[iw]) * bi(sf[0]));
        assert(t1.val(iw, 0) == t0.val(iw, 0));
        assert(t1.val(iw, 0) > 0) by (nonlinear_arith)
            requires
                t1.val(iw, 0) * rat_den(d0[iw]) == rat_num(d0[iw]) * bi(sf[0]),
                rat_den(d0[iw]) > 0,
                rat_num(d0[iw]) > 0,
                bi(sf[0]) > 0,
        ;
        assert(lcp_built.column_scaled(nn + 1));
        assert(lcp_built.tableau.val(iw, nn + 1) * rat_den(col_rat(m0, q0, nn, iw, nn + 1))
            == rat_num(col_rat(m0, q0, nn, iw, nn + 1)) * bi(lcp_built.scale_factors@[nn + 1]));
        assert(t0.val(iw, nn + 1) * rat_den(q0[iw]) == rat_num(q0[iw]) * bi(sf[nn + 1]));
        assert(t0.val(iw, nn + 1) < 0) by (nonlinear_arith)
            requires
                t0.val(iw, nn + 1) * rat_den(q0[iw]) == rat_num(q0[iw]) * bi(sf[nn + 1]),
                rat_den(q0[iw]) > 0,
                rat_num(q0[iw]) < 0,
                bi(sf[nn + 1]) > 0,
        ;
        assert(t1.val(iw, nn + 1) == -t0.val(iw, nn + 1));
        assert(t1.val(iw, 0) > 0 && t1.val(iw, nn + 1) > 0);
        // the ratio test ran before the negation: flip its answer
        let rr = lcp.vars.var_pos(leave.value as int);
        assert(rr < nn);
        assert forall|k: int| 0 <= k < nn && #[trigger] t1.val(k, 0) > 0 implies t1.val(
            rr,
            nn + 1,
        ) * t1.val(k, 0) >= t1.val(k, nn + 1) * t1.val(rr, 0) by {
            assert(t1.val(k, 0) == t0.val(k, 0));
            assert(crate::lex_min_ratio::candidate(t0, 0, k));
            assert(crate::lex_min_ratio::ratio_le(t0, 0, nn + 1, rr, k));
            assert(t0.val(rr, nn + 1) * t0.val(k, 0) <= t0.val(k, nn + 1) * t0.val(rr, 0));
            assert(t1.val(rr, nn + 1) == -t0.val(rr, nn + 1));
            assert(t1.val(k, nn + 1) == -t0.val(k, nn + 1));
            assert(t1.val(rr, 0) == t0.val(rr, 0));
            assert(t1.val(rr, nn + 1) * t1.val(k, 0) == -(t0.val(rr, nn + 1) * t0.val(k, 0)))
                by (nonlinear_arith)
                requires
                    t1.val(rr, nn + 1) == -t0.val(rr, nn + 1),
                    t1.val(k, 0) == t0.val(k, 0),
            ;
            assert(t1.val(k, nn + 1) * t1.val(rr, 0) == -(t0.val(k, nn + 1) * t0.val(rr, 0)))
                by (nonlinear_arith)
                requires
                    t1.val(k, nn + 1) == -t0.val(k, nn + 1),
                    t1.val(rr, 0) == t0.val(rr, 0),
            ;
        }
    }

    // a zero budget stands for the largest one, which no run exhausts
    let bound: usize = if pivot_max == 0 {
        usize::MAX
    } else {
        pivot_max
    };
    let mut pivot_count: usize = 1;
    loop
        invariant_except_break
            !lcp.vars.basic(enter.value as int),
            enter.value != 0 ==> !lcp.vars.basic(enter.complement_spec().value as int),
            lcp.vars.basic(leave.value as int),
            !z0_can_leave ==> leave.value != 0,
            lcp.tableau.val(
                lcp.vars.var_pos(leave.value as int),
                lcp.vars.var_pos(enter.value as int) - lcp.n,
            ) > 0,
            // before the first pivot z0 is still entering on the
            // covering column, the ratio test ran on the un-negated
            // right-hand side, and some row is strictly infeasible
            lcp.tableau.det() < 0 ==> ({
                let rr = lcp.vars.var_pos(leave.value as int);
                &&& lcp.vars.var_pos(enter.value as int) - lcp.n == 0
                &&& forall|i: int| 0 <= i < n ==> #[trigger] lcp.tableau.val(i, 0) >= 0
                &&& forall|i: int|
                    0 <= i < n && #[trigger] lcp.tableau.val(i, 0) == 0 ==> lcp.tableau.val(
                        i,
                        n as int + 1,
                    ) <= 0
                &&& (exists|i: int|
                    0 <= i < n && #[trigger] lcp.tableau.val(i, 0) > 0 && lcp.tableau.val(
                        i,
                        n as int + 1,
                    ) > 0)
                &&& forall|k: int|
                    0 <= k < n && #[trigger] lcp.tableau.val(k, 0) > 0 ==> lcp.tableau.val(
                        rr,
                        n as int + 1,
                    ) * lcp.tableau.val(k, 0) >= lcp.tableau.val(k, n as int + 1)
                        * lcp.tableau.val(rr, 0)
            }),
            // after it, the right-hand side is non-negative and the
            // pending leaving row minimizes the ratio
            lcp.tableau.det() > 0 ==> rhs_nonneg(lcp.tableau, n as int),
            lcp.tableau.det() > 0 ==> ({
                let rr = lcp.vars.var_pos(leave.value as int);
                let cc = lcp.vars.var_pos(enter.value as int) - lcp.n;
                forall|k: int|
                    0 <= k < n && #[trigger] lcp.tableau.val(k, cc) > 0 ==> lcp.tableau.val(
                        rr,
                        n as int + 1,
                    ) * lcp.tableau.val(k, cc) <= lcp.tableau.val(k, n as int + 1)
                        * lcp.tableau.val(rr, cc)
            }),
        invariant
            m0 == m@,
            q0 == q@,
            d0 == d@,
            lcp.m@ == m0,
            lcp.q@ == q0,
            q0.len() == n,
            m0.len() == (n as int) * (n as int),
            d0.len() == n,
            (m0.len() as int) % (n as int) == 0,
            forall|i: int| 0 <= i < q0.len() ==> !#[trigger] bad_cover(q0, d0, i),
            !(forall|i: int| 0 <= i < q0.len() ==> rat_num(#[trigger] q0[i]) >= 0),
            1 <= pivot_count <= bound,
            n == lcp.n,
            n >= 1,
            lcp.wf(),
            forall|j: int| 0 <= j < n + 2 ==> bi(#[trigger] lcp.scale_factors@[j]) > 0,
            crate::tableau_vars::almost_complementary(lcp.vars),
            lcp.vars.owns(enter),
            lcp.vars.owns(leave),
        ensures
            n == lcp.n,
            lcp.wf(),
            lcp.tableau.det() > 0,
            rhs_nonneg(lcp.tableau, n as int),
            forall|j: int| 0 <= j < n + 2 ==> bi(#[trigger] lcp.scale_factors@[j]) > 0,
        decreases bound - pivot_count,
    {
        let ghost vpre = lcp.vars;
        let ghost tpre = lcp.tableau;
        match lcp.vars.pivot(&mut lcp.tableau, &leave, &enter) {
            Ok(u) => u,
            Err(e) => {
                return Err(e);
            },
        };
        proof {
            let e = enter.value as int;
            let l = leave.value as int;
            let nn = lcp.n as int;
            assert forall|i: int| 1 <= i <= nn implies !(#[trigger] lcp.vars.basic(i)
                && lcp.vars.basic(i + nn)) by {
                if i == e || i + nn == e {
                    assert(e != 0);
                    let partner: int = if i == e {
                        i + nn
                    } else {
                        i
                    };
                    assert(partner == enter.complement_spec().value);
                    assert(!vpre.basic(partner));
                    assert(partner != e && partner != l);
                    assert(lcp.vars.var_pos(partner) == vpre.var_pos(partner));
                } else if i == l || i + nn == l {
                    assert(!lcp.vars.basic(l));
                    let partner: int = if i == l {
                        i + nn
                    } else {
                        i
                    };
                    if partner != e {
                        assert(lcp.vars.var_pos(partner) == vpre.var_pos(partner));
                        assert(!(vpre.basic(i) && vpre.basic(i + nn)));
                    }
                } else {
                    assert(lcp.vars.var_pos(i) == vpre.var_pos(i));
                    assert(lcp.vars.var_pos(i + nn) == vpre.var_pos(i + nn));
                    assert(!(vpre.basic(i) && vpre.basic(i + nn)));
                }
            }
        }
        proof {
            let nn = n as int;
            let t0 = tpre;
            let t1 = lcp.tableau;
            let r0 = vpre.var_pos(leave.value as int);
            let c0 = vpre.var_pos(enter.value as int) - nn;
            let p = t0.val(r0, c0);
            let dd = t0.det();
            assert(crate::tableau::pivot_post(t0, t1, r0, c0));
            assert(p > 0);
            assert(0 <= r0 < nn);
            assert(0 <= vpre.var_pos(enter.value as int) <= 2 * nn);
            assert(0 <= c0 <= nn);
            assert forall|i: int| 0 <= i < nn implies #[trigger] t1.val(i, nn + 1) >= 0 by {
                if i == r0 {
                    assert(t1.val(r0, nn + 1) == t0.val(r0, nn + 1));
                    if dd < 0 {
                        let iw = choose|k: int|
                            0 <= k < nn && #[trigger] t0.val(k, 0) > 0 && t0.val(k, nn + 1) > 0;
                        assert(c0 == 0);
                        assert(t0.val(r0, nn + 1) * t0.val(iw, 0) >= t0.val(iw, nn + 1) * t0.val(
                            r0,
                            0,
                        ));
                        assert(t0.val(r0, 0) == p);
                        assert(t0.val(r0, nn + 1) >= 0) by (nonlinear_arith)
                            requires
                                t0.val(r0, nn + 1) * t0.val(iw, 0) >= t0.val(iw, nn + 1) * t0.val(
                                    r0,
                                    0,
                                ),
                                t0.val(iw, 0) > 0,
                                t0.val(iw, nn + 1) > 0,
                                t0.val(r0, 0) > 0,
                        ;
                    } else {
                        assert(dd > 0);
                        assert(t0.val(r0, nn + 1) >= 0);
                    }
                } else {
                    assert(t1.val(i, nn + 1) * dd == crate::tableau::pivot_numer(
                        t0,
                        r0,
                        c0,
                        i,
                        nn + 1,
                    ));
                    assert(crate::tableau::pivot_numer(t0, r0, c0, i, nn + 1) == t0.val(i, nn + 1)
                        * p - t0.val(r0, nn + 1) * t0.val(i, c0));
                    if dd < 0 {
                        assert(c0 == 0);
                        assert(t0.val(i, c0) == t0.val(i, 0));
                        assert(t0.val(r0, c0) == t0.val(r0, 0));
                        if t0.val(i, 0) > 0 {
                            assert(t0.val(r0, nn + 1) * t0.val(i, 0) >= t0.val(i, nn + 1) * t0.val(
                                r0,
                                0,
                            ));
                            assert(t1.val(i, nn + 1) * dd <= 0) by (nonlinear_arith)
                                requires
                                    t1.val(i, nn + 1) * dd == t0.val(i, nn + 1) * p - t0.val(
                                        r0,
                                        nn + 1,
                                    ) * t0.val(i, c0),
                                    t0.val(i, c0) == t0.val(i, 0),
                                    p == t0.val(r0, 0),
                                    t0.val(r0, nn + 1) * t0.val(i, 0) >= t0.val(i, nn + 1) * t0.val(
                                        r0,
                                        0,
                                    ),
                            ;
                        } else {
                            assert(t0.val(i, 0) >= 0);
                            assert(t0.val(i, 0) == 0);
                            assert(t0.val(i, nn + 1) <= 0);
                            assert(t1.val(i, nn + 1) * dd <= 0) by (nonlinear_arith)
                                requires
                                    t1.val(i, nn + 1) * dd == t0.val(i, nn + 1) * p - t0.val(
                                        r0,
                                        nn + 1,
                                    ) * t0.val(i, c0),
                                    t0.val(i, c0) == 0,
                                    t0.val(i, nn + 1) <= 0,
                                    p > 0,
                            ;
                        }
                        assert(t1.val(i, nn + 1) >= 0) by (nonlinear_arith)
                            requires
                                t1.val(i, nn + 1) * dd <= 0,
                                dd < 0,
                        ;
                    } else {
                        assert(dd > 0);
                        assert(t0.val(i, nn + 1) >= 0);
                        if t0.val(i, c0) > 0 {
                            assert(t0.val(r0, nn + 1) * t0.val(i, c0) <= t0.val(i, nn + 1) * t0.val(
                                r0,
                                c0,
                            ));
                            assert(t1.val(i, nn + 1) * dd >= 0) by (nonlinear_arith)
                                requires
                                    t1.val(i, nn + 1) * dd == t0.val(i, nn + 1) * p - t0.val(
                                        r0,
                                        nn + 1,
                                    ) * t0.val(i, c0),
                                    p == t0.val(r0, c0),
                                    t0.val(r0, nn + 1) * t0.val(i, c0) <= t0.val(i, nn + 1) * t0.val(
                                        r0,
                                        c0,
                                    ),
                            ;
                        } else {
                            assert(t0.val(r0, nn + 1) >= 0);
                            assert(t1.val(i, nn + 1) * dd >= 0) by (nonlinear_arith)
                                requires
                                    t1.val(i, nn + 1) * dd == t0.val(i, nn + 1) * p - t0.val(
                                        r0,
                                        nn + 1,
                                    ) * t0.val(i, c0),
                                    t0.val(i, nn + 1) >= 0,
                                    p > 0,
                                    t0.val(r0, nn + 1) >= 0,
                                    t0.val(i, c0) <= 0,
                            ;
                        }
                        assert(t1.val(i, nn + 1) >= 0) by (nonlinear_arith)
                            requires
                                t1.val(i, nn + 1) * dd >= 0,
                                dd > 0,
                        ;
                    }
                }
            }
            assert(rhs_nonneg(t1, nn));
        }
        if z0_can_leave {
            break ;
        }
        let next_enter = leave.complement();
        proof {
            let e = enter.value as int;
            let l = leave.value as int;
            let ne = next_enter.value as int;
            assert(ne == leave.complement_spec().value);
            // the complement of the leaving variable was cobasic before
            // the pivot and is untouched by it
            assert(!vpre.basic(ne)) by {
                if 1 <= l <= lcp.n {
                    assert(!(vpre.basic(l) && vpre.basic(l + lcp.n)));
                } else {
                    assert(!(vpre.basic(ne) && vpre.basic(ne + lcp.n)));
                }
            }
            assert(ne != l);
            assert(ne != e) by {
                if ne == e {
                    assert(enter.complement_spec().value == l);
                    assert(e != 0);
                    assert(!vpre.basic(l));
                }
            }
            assert(lcp.vars.var_pos(ne) == vpre.var_pos(ne));
            assert(!lcp.vars.basic(ne));
            // and its own complement is the leaving variable, cobasic now
            assert(next_enter.complement_spec().value == l);
            assert(!lcp.vars.basic(l));
        }
        enter = next_enter;
        match crate::lex_min_ratio::lexminratio(&lcp.tableau, &lcp.vars, &enter) {
            Ok(p) => {
                leave = p.0;
                z0_can_leave = p.1;
            },
            Err(e) => {
                return Err(e);
            },
        }
        proof {
            let nn = n as int;
            let rr = lcp.vars.var_pos(leave.value as int);
            let cc = lcp.vars.var_pos(enter.value as int) - nn;
            assert forall|k: int|
                0 <= k < nn && #[trigger] lcp.tableau.val(k, cc) > 0 implies lcp.tableau.val(
                rr,
                nn + 1,
            ) * lcp.tableau.val(k, cc) <= lcp.tableau.val(k, nn + 1) * lcp.tableau.val(
                rr,
                cc,
            ) by {
                assert(crate::lex_min_ratio::candidate(lcp.tableau, cc, k));
                assert(crate::lex_min_ratio::ratio_le(lcp.tableau, cc, nn + 1, rr, k));
            }
        }
        if pivot_count == bound {
            return Err(LcpError::PivotLimitReached);
        }
        pivot_count = pivot_count + 1;
    }

    let z = lcp.vars.solution(&lcp.tableau, &lcp.scale_factors);
    proof {
        let nn = n as int;
        assert forall|i: int| 0 <= i < nn implies rat_den(#[trigger] z@[i]) > 0 && rat_num(z@[i])
            >= 0 && crate::bigint::rat_reduced(z@[i]) by {
            assert(lcp.vars.solution_entry_ok(lcp.tableau, lcp.scale_factors@, i + 1, z@[i]));
            let v = z@[i];
            if lcp.vars.basic(i + 1) {
                let row = lcp.vars.var_pos(i + 1);
                assert(0 <= lcp.vars.var_pos(i + 1) <= 2 * nn);
                assert(0 <= row < nn);
                assert(lcp.tableau.val(row, nn + 1) >= 0);
                assert(rat_num(v) * (lcp.tableau.det() * bi(lcp.scale_factors@[nn + 1])) == bi(
                    lcp.scale_factors@[i + 1],
                ) * lcp.tableau.val(row, nn + 1) * rat_den(v));
                assert(rat_num(v) >= 0) by (nonlinear_arith)
                    requires
                        rat_num(v) * (lcp.tableau.det() * bi(lcp.scale_factors@[nn + 1])) == bi(
                            lcp.scale_factors@[i + 1],
                        ) * lcp.tableau.val(row, nn + 1) * rat_den(v),
                        lcp.tableau.det() > 0,
                        bi(lcp.scale_factors@[nn + 1]) > 0,
                        bi(lcp.scale_factors@[i + 1]) > 0,
                        lcp.tableau.val(row, nn + 1) >= 0,
                        rat_den(v) > 0,
                ;
            } else {
                assert(rat_num(v) == 0);
            }
        }
    }
    // the engine never hands a vector out unchecked: w = M z + q is
    // recomputed exactly and must be non-negative and complementary
    if !check_solution(&lcp.m, &lcp.q, &z) {
        return Err(LcpError::BrokenInvariant);
    }
    Ok(z)
}

/// Solve the LCP given by `M` (row-major, n by n), `q` and `d` with no
/// bound on the number of pivots.
pub fn lemke(m: Vec<BigRational>, q: Vec<BigRational>, d: Vec<BigRational>) -> (res: Result<
    Vec<BigRational>,
    LcpError,
>)
    requires
        rats_wf(m@),
        rats_wf(q@),
        rats_wf(d@),
        q@.len() * (q@.len() + 2) <= usize::MAX,
    ensures
        lemke_dims_post(m@, q@, d@, res),
        lemke_cover_post(m@, q@, d@, res),
        lemke_result_post(m@, q@, d@, res),
{
    lemke_with_pivot_max(m, q, d, 0)
}

} // verus!
