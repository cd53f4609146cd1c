//! Bookkeeping for the symbolic variables of the complementarity system.
//!
//! The 2n+1 variables z0..zn, w1..wn are encoded as the indices 0..=2n:
//! index 0 is z0, indices 1..=n are z1..zn, and indices n+1..=2n are
//! w1..wn.  A variable is *basic* when it currently owns a tableau row and
//! *cobasic* when it owns a tableau column; the map between variables and
//! positions is kept as a pair of mutually inverse index arrays.

use vstd::prelude::*;

use num::bigint::BigInt;
use num::rational::BigRational;
use num::rational::Ratio;

use crate::LcpError;
use crate::bigint::bi;
use crate::bigint::big_clone;
use crate::bigint::big_from_i64;
use crate::bigint::big_mul;
use crate::bigint::rat_den;
use crate::bigint::rat_new;
use crate::bigint::rat_num;
use crate::tableau::Tableau;
use crate::tableau::pivot_divisible;
use crate::tableau::pivot_post;

verus! {

/// A symbolic variable of the complementarity system, together with the
/// problem size `n` it was built for.
#[derive(Debug, PartialEq, Eq, Structural)]
pub struct TableauVariable {
    pub value: usize,
    pub n: usize,
}

impl TableauVariable {
    /// The encoded index is in range and arithmetic on it cannot overflow.
    pub open spec fn wf(self) -> bool {
        self.value <= 2 * self.n && 2 * self.n < usize::MAX
    }

    /// The complementary variable: w(i) for z(i) and z(i) for w(i).
    pub open spec fn complement_spec(self) -> TableauVariable {
        if self.value <= self.n {
            TableauVariable { value: (self.value + self.n) as usize, n: self.n }
        } else {
            TableauVariable { value: (self.value - self.n) as usize, n: self.n }
        }
    }

    pub fn is_z(&self) -> (r: bool)
        ensures
            r == (self.value <= self.n),
    {
        self.value <= self.n
    }

    pub fn is_w(&self) -> (r: bool)
        ensures
            r == (self.value > self.n),
    {
        self.value > self.n
    }

    pub fn is_z0(&self) -> (r: bool)
        ensures
            r == (self.value == 0),
    {
        self.value == 0
    }

    /// The complement of z(i) is w(i) and the other way round, for
    /// i = 1..=n; z0 has no complement, so it is excluded up front.
    pub fn complement(&self) -> (r: TableauVariable)
        requires
            self.wf(),
            self.value != 0,
        ensures
            r == self.complement_spec(),
            r.wf(),
            r.n == self.n,
            r.value != 0,
    {
        if self.value <= self.n {
            TableauVariable { value: self.value + self.n, n: self.n }
        } else {
            TableauVariable { value: self.value - self.n, n: self.n }
        }
    }
}

/// Taking the complement twice leads back to the starting variable, for
/// every variable except z0.
pub proof fn lemma_complement_involution(v: TableauVariable)
    requires
        v.wf(),
        v.value != 0,
    ensures
        v.complement_spec().complement_spec() == v,
{
}

/// The bijection between the variable indices 0..=2n and the tableau
/// positions 0..=2n: positions 0..n-1 are the rows of the basic
/// variables, positions n..=2n are the columns 0..=n of the cobasic ones.
pub struct TableauVariables {
    pub vars2rowcol: Vec<usize>,
    pub rowcol2vars: Vec<usize>,
    pub n: usize,
}

impl TableauVariables {
    /// Position held by variable `v`.
    pub open spec fn var_pos(self, v: int) -> int {
        self.vars2rowcol@[v] as int
    }

    /// Variable holding position `p`.
    pub open spec fn pos_var(self, p: int) -> int {
        self.rowcol2vars@[p] as int
    }

    /// The two position arrays are mutually inverse maps on 0..=2n.
    pub open spec fn wf(self) -> bool {
        &&& 2 * self.n < usize::MAX
        &&& self.vars2rowcol@.len() == 2 * self.n + 1
        &&& self.rowcol2vars@.len() == 2 * self.n + 1
        &&& forall|v: int|
            0 <= v <= 2 * self.n ==> 0 <= #[trigger] self.var_pos(v) <= 2 * self.n
        &&& forall|p: int|
            0 <= p <= 2 * self.n ==> 0 <= #[trigger] self.pos_var(p) <= 2 * self.n
        &&& forall|v: int| 0 <= v <= 2 * self.n ==> self.pos_var(#[trigger] self.var_pos(v)) == v
        &&& forall|p: int| 0 <= p <= 2 * self.n ==> self.var_pos(#[trigger] self.pos_var(p)) == p
    }

    /// Variable `v` is basic exactly when its position is a row.
    pub open spec fn basic(self, v: int) -> bool {
        self.var_pos(v) < self.n
    }

    /// A variable handle fits this map.
    pub open spec fn owns(self, v: TableauVariable) -> bool {
        v.wf() && v.n == self.n
    }

    /// Initial complementary layout: z0..zn cobasic at columns 0..=n,
    /// w1..wn basic at rows 0..n-1.
    pub fn new(n: usize) -> (r: TableauVariables)
        requires
            2 * n < usize::MAX,
        ensures
            r.wf(),
            r.n == n,
            forall|i: int| 0 <= i <= n ==> #[trigger] r.var_pos(i) == n + i,
            forall|i: int| 1 <= i <= n ==> #[trigger] r.var_pos(n + i) == i - 1,
            forall|p: int| 0 <= p < n ==> #[trigger] r.pos_var(p) == p + n + 1,
            forall|p: int| n <= p <= 2 * n ==> #[trigger] r.pos_var(p) == p - n,
    {
        let len: usize = 2 * n + 1;

        // z0..zn sit at positions n..=2n (columns 0..=n); w1..wn at rows 0..n-1.
        let mut vars2rowcol: Vec<usize> = Vec::new();
        let mut v: usize = 0;
        while v < len
            invariant
                v <= len,
                len == 2 * n + 1,
                2 * n < usize::MAX,
                vars2rowcol@.len() == v,
                forall|j: int|
                    0 <= j < v ==> #[trigger] vars2rowcol@[j] as int == if j <= n {
                        n + j
                    } else {
                        j - n - 1
                    },
            decreases len - v,
        {
            if v <= n {
                vars2rowcol.push(n + v);
            } else {
                vars2rowcol.push(v - n - 1);
            }
            v += 1;
        }

        let mut rowcol2vars: Vec<usize> = Vec::new();
        let mut p: usize = 0;
        while p < len
            invariant
                p <= len,
                len == 2 * n + 1,
                2 * n < usize::MAX,
                rowcol2vars@.len() == p,
                forall|j: int|
                    0 <= j < p ==> #[trigger] rowcol2vars@[j] as int == if j < n {
                        j + n + 1
                    } else {
                        j - n
                    },
            decreases len - p,
        {
            if p < n {
                rowcol2vars.push(p + n + 1);
            } else {
                rowcol2vars.push(p - n);
            }
            p += 1;
        }

        let vars = TableauVariables { n, vars2rowcol, rowcol2vars };

        proof {
            assert forall|v: int| 0 <= v <= 2 * n implies 0 <= #[trigger] vars.var_pos(v) <= 2
                * n && vars.pos_var(vars.var_pos(v)) == v by {
                if v <= n {
                    assert(vars.var_pos(v) == n + v);
                } else {
                    assert(vars.var_pos(n + (v - n)) == (v - n) - 1);
                }
            }
            assert forall|p: int| 0 <= p <= 2 * n implies 0 <= #[trigger] vars.pos_var(p) <= 2
                * n && vars.var_pos(vars.pos_var(p)) == p by {
                if p < n {
                    assert(vars.pos_var(p) == p + n + 1);
                } else {
                    assert(vars.pos_var(p) == p - n);
                }
            }
        }
        vars
    }

    /// Handle for z(idx), idx in 0..=n.
    pub fn z(&self, idx: usize) -> (r: TableauVariable)
        requires
            self.wf(),
            idx <= self.n,
        ensures
            self.owns(r),
            r.value == idx,
    {
        TableauVariable { value: idx, n: self.n }
    }

    /// Handle for w(idx), idx in 1..=n.
    pub fn w(&self, idx: usize) -> (r: TableauVariable)
        requires
            self.wf(),
            1 <= idx <= self.n,
        ensures
            self.owns(r),
            r.value == idx + self.n,
    {
        TableauVariable { value: idx + self.n, n: self.n }
    }

    /// The basic variable sitting at row `row`.
    pub fn from_row(&self, row: usize) -> (r: TableauVariable)
        requires
            self.wf(),
            row < self.n,
        ensures
            self.owns(r),
            r.value == self.pos_var(row as int),
            self.basic(r.value as int),
    {
        proof {
            assert(0 <= self.pos_var(row as int) <= 2 * self.n);
            assert(self.var_pos(self.pos_var(row as int)) == row as int);
        }
        TableauVariable { value: self.rowcol2vars[row], n: self.n }
    }

    /// The cobasic variable sitting at column `col`, col in 0..=n.
    pub fn from_col(&self, col: usize) -> (r: TableauVariable)
        requires
            self.wf(),
            col <= self.n,
        ensures
            self.owns(r),
            r.value == self.pos_var(col + self.n),
            !self.basic(r.value as int),
    {
        proof {
            assert(0 <= self.pos_var(col + self.n) <= 2 * self.n);
            assert(self.var_pos(self.pos_var(col + self.n)) == col + self.n);
        }
        TableauVariable { value: self.rowcol2vars[col + self.n], n: self.n }
    }

    /// Row of a basic variable.
    pub fn to_row(&self, var: &TableauVariable) -> (r: usize)
        requires
            self.wf(),
            self.owns(*var),
            self.basic(var.value as int),
        ensures
            r == self.var_pos(var.value as int),
            r < self.n,
    {
        self.vars2rowcol[var.value]
    }

    /// Column of a cobasic variable, in 0..=n.
    pub fn to_col(&self, var: &TableauVariable) -> (r: usize)
        requires
            self.wf(),
            self.owns(*var),
            !self.basic(var.value as int),
        ensures
            r == self.var_pos(var.value as int) - self.n,
            r <= self.n,
    {
        self.vars2rowcol[var.value] - self.n
    }

    pub fn is_basic(&self, var: &TableauVariable) -> (r: bool)
        requires
            self.wf(),
            self.owns(*var),
        ensures
            r == self.basic(var.value as int),
    {
        self.vars2rowcol[var.value] < self.n
    }

    /// Index of the right-hand-side column.
    pub fn rhs_col(&self) -> (r: usize)
        requires
            self.wf(),
        ensures
            r == self.n + 1,
    {
        self.n + 1
    }

    /// Negate the right-hand-side column of the tableau; done once,
    /// after the first ratio test, to give the q column its proper sign.
    pub fn negate_rhs(&self, tableau: &mut Tableau)
        requires
            self.wf(),
            old(tableau).dims_ok(),
            old(tableau).nrows == self.n,
        ensures
            final(tableau).dims_ok(),
            final(tableau).nrows == old(tableau).nrows,
            final(tableau).ncols == old(tableau).ncols,
            final(tableau).determinant == old(tableau).determinant,
            forall|i: int|
                0 <= i < old(tableau).nrows ==> #[trigger] final(tableau).val(i, self.n + 1)
                    == -old(tableau).val(i, self.n + 1),
            forall|i: int, j: int|
                0 <= i < old(tableau).nrows && 0 <= j < old(tableau).ncols && j != self.n + 1
                    ==> final(tableau).val(i, j) == old(tableau).val(i, j),
    {
        tableau.negate_col(self.rhs_col())
    }

    /// Exchange the positions of a cobasic entering variable and a basic
    /// leaving variable; returns the freed row and column.
    pub fn swap(&mut self, enter: &TableauVariable, leave: &TableauVariable) -> (r: (
        usize,
        usize,
    ))
        requires
            old(self).wf(),
            old(self).owns(*enter),
            old(self).owns(*leave),
            old(self).basic(leave.value as int),
            !old(self).basic(enter.value as int),
        ensures
            final(self).wf(),
            final(self).n == old(self).n,
            r.0 == old(self).var_pos(leave.value as int),
            r.1 == old(self).var_pos(enter.value as int) - old(self).n,
            final(self).var_pos(enter.value as int) == old(self).var_pos(leave.value as int),
            final(self).var_pos(leave.value as int) == old(self).var_pos(enter.value as int),
            forall|v: int|
                0 <= v <= 2 * old(self).n && v != enter.value && v != leave.value
                    ==> #[trigger] final(self).var_pos(v) == old(self).var_pos(v),
            forall|p: int|
                0 <= p <= 2 * old(self).n && p != old(self).var_pos(enter.value as int) && p
                    != old(self).var_pos(leave.value as int) ==> #[trigger] final(self).pos_var(p)
                    == old(self).pos_var(p),
            final(self).pos_var(old(self).var_pos(leave.value as int)) == enter.value,
            final(self).pos_var(old(self).var_pos(enter.value as int)) == leave.value,
            final(self).basic(enter.value as int),
            !final(self).basic(leave.value as int),
    {
        let leave_row = self.to_row(leave);
        let enter_col = self.to_col(enter);

        self.vars2rowcol[leave.value] = enter_col + self.n;
        self.rowcol2vars[enter_col + self.n] = leave.value;

        self.vars2rowcol[enter.value] = leave_row;
        self.rowcol2vars[leave_row] = enter.value;

        proof {
            let s0 = *old(self);
            let s1 = *self;
            let e = enter.value as int;
            let l = leave.value as int;
            assert forall|v: int| 0 <= v <= 2 * s1.n implies 0 <= #[trigger] s1.var_pos(v) <= 2
                * s1.n && s1.pos_var(s1.var_pos(v)) == v by {
                if v != e && v != l {
                    assert(s1.var_pos(v) == s0.var_pos(v));
                    assert(s0.var_pos(v) != s0.var_pos(e));
                    assert(s0.var_pos(v) != s0.var_pos(l));
                }
            }
            assert forall|p: int| 0 <= p <= 2 * s1.n implies 0 <= #[trigger] s1.pos_var(p) <= 2
                * s1.n && s1.var_pos(s1.pos_var(p)) == p by {
                if p != s0.var_pos(e) && p != s0.var_pos(l) {
                    assert(s1.pos_var(p) == s0.pos_var(p));
                    assert(s0.pos_var(p) != e);
                    assert(s0.pos_var(p) != l);
                }
            }
        }
        (leave_row, enter_col)
    }

    /// Pivot the tableau on the cell owned by a basic leaving variable
    /// and a cobasic entering variable: swap their positions, then run
    /// the fraction-free update on the freed cell, which must be
    /// non-zero.
    pub fn pivot(
        &mut self,
        tableau: &mut Tableau,
        leave: &TableauVariable,
        enter: &TableauVariable,
    ) -> (res: Result<(), LcpError>)
        requires
            old(self).wf(),
            old(self).owns(*leave),
            old(self).owns(*enter),
            old(self).basic(leave.value as int),
            !old(self).basic(enter.value as int),
            old(tableau).wf(),
            old(tableau).nrows == old(self).n,
            old(tableau).val(
                old(self).var_pos(leave.value as int),
                old(self).var_pos(enter.value as int) - old(self).n,
            ) != 0,
        ensures
            final(self).wf(),
            final(self).n == old(self).n,
            final(self).var_pos(enter.value as int) == old(self).var_pos(leave.value as int),
            final(self).var_pos(leave.value as int) == old(self).var_pos(enter.value as int),
            forall|v: int|
                0 <= v <= 2 * old(self).n && v != enter.value && v != leave.value
                    ==> #[trigger] final(self).var_pos(v) == old(self).var_pos(v),
            final(self).basic(enter.value as int),
            !final(self).basic(leave.value as int),
            final(tableau).dims_ok(),
            final(tableau).nrows == old(tableau).nrows,
            final(tableau).ncols == old(tableau).ncols,
            res is Ok <==> pivot_divisible(
                *old(tableau),
                old(self).var_pos(leave.value as int),
                old(self).var_pos(enter.value as int) - old(self).n,
            ),
            res is Ok ==> pivot_post(
                *old(tableau),
                *final(tableau),
                old(self).var_pos(leave.value as int),
                old(self).var_pos(enter.value as int) - old(self).n,
            ),
            res is Ok ==> final(tableau).det() > 0 && final(tableau).wf(),
            res is Err ==> final(tableau).det() == old(tableau).det() && final(tableau).wf(),
            res matches Err(e) ==> e == LcpError::BrokenInvariant,
    {
        let (row, col) = self.swap(enter, leave);
        tableau.pivot(row, col)
    }

    /// The entry `z(i)` of the reconstructed solution satisfies
    /// `value = scale(i) * rhs(row of z(i)) / (determinant * scale(rhs))`
    /// when z(i) is basic, and is zero when it is cobasic.
    pub open spec fn solution_entry_ok(
        self,
        t: Tableau,
        sf: Seq<BigInt>,
        i: int,
        v: Ratio<BigInt>,
    ) -> bool {
        &&& rat_den(v) > 0
        &&& crate::bigint::rat_reduced(v)
        &&& self.basic(i) ==> rat_num(v) * (t.det() * bi(sf[self.n + 1])) == bi(sf[i]) * t.val(
            self.var_pos(i),
            self.n + 1,
        ) * rat_den(v)
        &&& !self.basic(i) ==> rat_num(v) == 0
    }

    /// The rational value of one variable in the current basic solution:
    /// `scale * rhs / (determinant * rhs scale)` for a basic variable,
    /// zero for a cobasic one.  The scale is `scale_factors[i]` for z(i)
    /// and one for a w variable, undoing the integer scaling of the
    /// column that the variable came from.
    fn result(
        &self,
        tableau: &Tableau,
        scale_factors: &Vec<BigInt>,
        var: &TableauVariable,
    ) -> (r: BigRational)
        requires
            self.wf(),
            self.owns(*var),
            tableau.wf(),
            tableau.nrows == self.n,
            scale_factors@.len() == self.n + 2,
            bi(scale_factors@[self.n + 1]) != 0,
        ensures
            rat_den(r) > 0,
            crate::bigint::rat_reduced(r),
            self.basic(var.value as int) && var.value <= self.n ==> rat_num(r) * (tableau.det()
                * bi(scale_factors@[self.n + 1])) == bi(scale_factors@[var.value as int])
                * tableau.val(self.var_pos(var.value as int), self.n + 1) * rat_den(r),
            self.basic(var.value as int) && var.value > self.n ==> rat_num(r) * (tableau.det()
                * bi(scale_factors@[self.n + 1])) == tableau.val(
                self.var_pos(var.value as int),
                self.n + 1,
            ) * rat_den(r),
            !self.basic(var.value as int) ==> rat_num(r) == 0,
    {
        if self.is_basic(var) {
            let row = self.to_row(var);
            let col = self.rhs_col();
            let scale_factor = if var.is_z() {
                big_clone(&scale_factors[var.value])
            } else {
                big_from_i64(1)
            };
            let numer = big_mul(&scale_factor, tableau.entry(row, col));
            let denom = big_mul(&tableau.determinant, &scale_factors[col]);
            proof {
                assert(bi(denom) != 0) by (nonlinear_arith)
                    requires
                        bi(denom) == tableau.det() * bi(scale_factors@[self.n + 1]),
                        tableau.det() != 0,
                        bi(scale_factors@[self.n + 1]) != 0,
                ;
            }
            let r = rat_new(numer, denom);
            proof {
                assert(rat_num(r) * (tableau.det() * bi(scale_factors@[self.n + 1])) == bi(numer)
                    * rat_den(r));
            }
            r
        } else {
            rat_new(big_from_i64(0), big_from_i64(1))
        }
    }

    /// The current basic solution, read out as the rational values of
    /// z(1)..z(n).
    pub fn solution(&self, tableau: &Tableau, scale_factors: &Vec<BigInt>) -> (z: Vec<
        BigRational,
    >)
        requires
            self.wf(),
            tableau.wf(),
            tableau.nrows == self.n,
            scale_factors@.len() == self.n + 2,
            bi(scale_factors@[self.n + 1]) != 0,
        ensures
            z@.len() == self.n,
            forall|k: int|
                0 <= k < self.n ==> self.solution_entry_ok(
                    *tableau,
                    scale_factors@,
                    k + 1,
                    #[trigger] z@[k],
                ),
    {
        let mut z: Vec<BigRational> = Vec::new();
        let mut i: usize = 1;
        while i <= self.n
            invariant
                self.wf(),
                tableau.wf(),
                tableau.nrows == self.n,
                scale_factors@.len() == self.n + 2,
                bi(scale_factors@[self.n + 1]) != 0,
                1 <= i <= self.n + 1,
                z@.len() == i - 1,
                forall|k: int|
                    0 <= k < i - 1 ==> self.solution_entry_ok(
                        *tableau,
                        scale_factors@,
                        k + 1,
                        #[trigger] z@[k],
                    ),
            decreases self.n + 1 - i,
        {
            let v = self.result(tableau, scale_factors, &self.z(i));
            z.push(v);
            i += 1;
        }
        z
    }
}

/// The two position arrays are mutual inverses on 0..=2n whenever the
/// map is well formed; `new` establishes well-formedness and `swap` and
/// `pivot` keep it, so this holds after every pivot.
pub proof fn lemma_positions_mutually_inverse(vars: TableauVariables)
    requires
        vars.wf(),
    ensures
        forall|v: int|
            0 <= v <= 2 * vars.n ==> vars.pos_var(#[trigger] vars.var_pos(v)) == v,
        forall|p: int|
            0 <= p <= 2 * vars.n ==> vars.var_pos(#[trigger] vars.pos_var(p)) == p,
{
}

/// For every pair z(i), w(i) with i >= 1, at most one of the two is
/// basic.  The bases that complementary pivoting walks through are all
/// of this kind: z0 stands in for the one pair that has no basic
/// member.
pub open spec fn almost_complementary(v: TableauVariables) -> bool {
    forall|i: int| 1 <= i <= v.n ==> !(#[trigger] v.basic(i) && v.basic(i + v.n))
}

/// Round trip between a cobasic variable and its column: looking up the
/// variable of the column of any cobasic variable gives that variable
/// back, and the analogue holds for basic variables and their rows.
pub proof fn lemma_position_round_trip(vars: TableauVariables, v: TableauVariable)
    requires
        vars.wf(),
        vars.owns(v),
    ensures
        !vars.basic(v.value as int) ==> vars.pos_var(
            (vars.var_pos(v.value as int) - vars.n) + vars.n,
        ) == v.value,
        vars.basic(v.value as int) ==> vars.pos_var(vars.var_pos(v.value as int)) == v.value,
{
}

/// Exactly n of the 2n+1 variables are basic: the basic variables are the
/// image of the n rows under the position-to-variable map.
pub proof fn lemma_basis_cardinality(vars: TableauVariables)
    requires
        vars.wf(),
    ensures
        Set::new(|v: int| 0 <= v <= 2 * vars.n && vars.basic(v)).len() == vars.n,
{
    let n = vars.n as int;
    let rows = Seq::new(vars.n as nat, |p: int| vars.pos_var(p));
    assert(rows.no_duplicates()) by {
        assert forall|i: int, j: int|
            0 <= i < rows.len() && 0 <= j < rows.len() && i != j implies rows[i] != rows[j] by {
            assert(vars.var_pos(vars.pos_var(i)) == i);
            assert(vars.var_pos(vars.pos_var(j)) == j);
        }
    }
    rows.unique_seq_to_set();
    assert(rows.to_set() =~= Set::new(|v: int| 0 <= v <= 2 * vars.n && vars.basic(v))) by {
        assert forall|v: int| 0 <= v <= 2 * n && vars.basic(v) implies rows.to_set().contains(
            v,
        ) by {
            assert(rows[vars.var_pos(v)] == v);
        }
        assert forall|v: int| rows.to_set().contains(v) implies 0 <= v <= 2 * n
            && vars.basic(v) by {
            let i = choose|i: int| 0 <= i < rows.len() && rows[i] == v;
            assert(vars.var_pos(vars.pos_var(i)) == i);
        }
    }
}

} // verus!
