//! The lexicographic minimum-ratio test: given an entering variable, it
//! picks the basic variable that must leave so that the right-hand side
//! stays lexicographically feasible, breaking ties against the columns
//! of w(1), w(2), ... in turn.
//!
//! All ratio comparisons are made on cross products of tableau entries,
//! so only rows with a positive entry in the entering column take part.

use vstd::prelude::*;

use crate::LcpError;
use crate::bigint::big_is_positive;
use crate::tableau::Tableau;
use crate::tableau_vars::TableauVariable;
use crate::tableau_vars::TableauVariables;

verus! {

/// Row `i` can host the leaving variable: its entry in the entering
/// column `c` is positive.
pub open spec fn candidate(t: Tableau, c: int, i: int) -> bool {
    0 <= i < t.nrows && t.val(i, c) > 0
}

/// The ratio `A[i][tc] / A[i][c]` is at most `A[j][tc] / A[j][c]`,
/// stated on cross products; it reads as a ratio comparison whenever
/// both entries of column `c` are positive.
pub open spec fn ratio_le(t: Tableau, c: int, tc: int, i: int, j: int) -> bool {
    t.val(i, tc) * t.val(j, c) <= t.val(j, tc) * t.val(i, c)
}

/// Row `i` minimizes the ratio against column `tc` over all rows of `s`.
pub open spec fn min_ratio_of(t: Tableau, c: int, tc: int, s: Seq<usize>, i: int) -> bool {
    forall|k: int| 0 <= k < s.len() ==> ratio_le(t, c, tc, i, #[trigger] s[k] as int)
}

/// Row `r` occurs in `s`.
pub open spec fn in_seq(s: Seq<usize>, r: int) -> bool {
    exists|k: int| 0 <= k < s.len() && #[trigger] s[k] == r
}

/// The predicate a row must pass to stay in the ratio test: it
/// minimizes the ratio over all of `s`.
pub open spec fn min_pred(t: Tableau, c: int, tc: int, s: Seq<usize>) -> spec_fn(usize) -> bool {
    |r: usize| min_ratio_of(t, c, tc, s, r as int)
}

/// The subsequence of `s` holding exactly the rows whose ratio against
/// column `tc` is minimal over `s`, in their original order.
pub open spec fn min_rows(t: Tableau, c: int, tc: int, s: Seq<usize>) -> Seq<usize> {
    s.filter(min_pred(t, c, tc, s))
}

/// Filtering one more element appends it exactly when it passes.
proof fn lemma_filter_push(s: Seq<usize>, pred: spec_fn(usize) -> bool, x: usize)
    ensures
        s.push(x).filter(pred) == if pred(x) {
            s.filter(pred).push(x)
        } else {
            s.filter(pred)
        },
{
    reveal(Seq::filter);
    assert(s.push(x).drop_last() =~= s);
    assert(s.push(x).last() == x);
}

/// Two predicates that agree on every element filter alike.
proof fn lemma_filter_congruent(s: Seq<usize>, p1: spec_fn(usize) -> bool, p2: spec_fn(
    usize,
) -> bool)
    requires
        forall|k: int| 0 <= k < s.len() ==> p1(#[trigger] s[k]) == p2(s[k]),
    ensures
        s.filter(p1) == s.filter(p2),
    decreases s.len(),
{
    reveal(Seq::filter);
    if s.len() > 0 {
        assert forall|k: int| 0 <= k < s.drop_last().len() implies p1(
            #[trigger] s.drop_last()[k],
        ) == p2(s.drop_last()[k]) by {
            assert(s.drop_last()[k] == s[k]);
        }
        lemma_filter_congruent(s.drop_last(), p1, p2);
        assert(p1(s.last()) == p2(s.last()));
    }
}

/// A predicate no element passes filters to the empty sequence.
proof fn lemma_filter_none(s: Seq<usize>, pred: spec_fn(usize) -> bool)
    requires
        forall|k: int| 0 <= k < s.len() ==> !pred(#[trigger] s[k]),
    ensures
        s.filter(pred) == Seq::<usize>::empty(),
    decreases s.len(),
{
    reveal(Seq::filter);
    if s.len() > 0 {
        assert forall|k: int| 0 <= k < s.drop_last().len() implies !pred(
            #[trigger] s.drop_last()[k],
        ) by {
            assert(s.drop_last()[k] == s[k]);
        }
        lemma_filter_none(s.drop_last(), pred);
        assert(!pred(s.last()));
    }
}

/// z0 is among the rows that survive the ratio test against the
/// right-hand side: it is basic, its row is a candidate, and no other
/// candidate has a strictly smaller ratio.
pub open spec fn z0_can_leave_spec(t: Tableau, vars: TableauVariables, c: int) -> bool {
    let zrow = vars.var_pos(0);
    &&& vars.basic(0)
    &&& candidate(t, c, zrow)
    &&& forall|k: int| #[trigger] candidate(t, c, k) ==> ratio_le(t, c, vars.n + 1, zrow, k)
}

/// One pass of the tie-break, against w(j): a basic w(j) frees its own
/// row from the candidate list, a cobasic one contributes a ratio test
/// on its column unless that is the entering column itself.
pub open spec fn tie_break_pass(
    t: Tableau,
    vars: TableauVariables,
    c: int,
    s: Seq<usize>,
    j: int,
) -> Seq<usize> {
    let w = vars.n + j;
    if vars.basic(w) {
        s.remove_value(vars.var_pos(w) as usize)
    } else {
        let tc = vars.var_pos(w) - vars.n;
        if tc == c {
            s
        } else {
            min_rows(t, c, tc, s)
        }
    }
}

/// The candidate list after the tie-break passes against w(1)..w(j),
/// each pass applied only while more than one candidate remains.
pub open spec fn tie_break_upto(
    t: Tableau,
    vars: TableauVariables,
    c: int,
    s: Seq<usize>,
    j: int,
) -> Seq<usize>
    decreases j,
{
    if j <= 0 {
        s
    } else {
        let prev = tie_break_upto(t, vars, c, s, j - 1);
        if prev.len() <= 1 {
            prev
        } else {
            tie_break_pass(t, vars, c, prev, j)
        }
    }
}

/// Once the list is down to a single row, later passes change nothing.
proof fn lemma_tie_break_stable(
    t: Tableau,
    vars: TableauVariables,
    c: int,
    s: Seq<usize>,
    j: int,
    j2: int,
)
    requires
        0 <= j <= j2,
        tie_break_upto(t, vars, c, s, j).len() <= 1,
    ensures
        tie_break_upto(t, vars, c, s, j2) == tie_break_upto(t, vars, c, s, j),
    decreases j2 - j,
{
    if j2 > j {
        lemma_tie_break_stable(t, vars, c, s, j, j2 - 1);
    }
}

/// The candidate rows for entering column `c`, in ascending order:
/// every row below `upto` whose entry in that column is positive.
pub open spec fn candidate_rows(t: Tableau, c: int, upto: int) -> Seq<usize>
    decreases upto,
{
    if upto <= 0 {
        Seq::empty()
    } else if t.val(upto - 1, c) > 0 {
        candidate_rows(t, c, upto - 1).push((upto - 1) as usize)
    } else {
        candidate_rows(t, c, upto - 1)
    }
}

/// The ratio comparison is transitive over candidate rows.
proof fn lemma_ratio_trans(t: Tableau, c: int, tc: int, i: int, j: int, k: int)
    requires
        t.val(i, c) > 0,
        t.val(j, c) > 0,
        t.val(k, c) > 0,
        ratio_le(t, c, tc, i, j),
        ratio_le(t, c, tc, j, k),
    ensures
        ratio_le(t, c, tc, i, k),
{
    let xi = t.val(i, tc);
    let xj = t.val(j, tc);
    let xk = t.val(k, tc);
    let di = t.val(i, c);
    let dj = t.val(j, c);
    let dk = t.val(k, c);
    assert(xi * dk <= xk * di) by (nonlinear_arith)
        requires
            di > 0,
            dj > 0,
            dk > 0,
            xi * dj <= xj * di,
            xj * dk <= xk * dj,
    ;
}

/// How the set of ratio minimizers evolves when one more candidate row
/// `x` arrives, compared against a row `h` that minimizes the ratio
/// over `s`: an equal ratio appends `x`, a larger one changes nothing,
/// a strictly smaller one restarts the list with `x` alone.
proof fn lemma_min_rows_push(t: Tableau, c: int, tc: int, s: Seq<usize>, x: usize, h: usize)
    requires
        forall|k: int| 0 <= k < s.len() ==> candidate(t, c, #[trigger] s[k] as int),
        candidate(t, c, x as int),
        candidate(t, c, h as int),
        in_seq(s, h as int),
        forall|k: int| 0 <= k < s.len() ==> ratio_le(t, c, tc, h as int, #[trigger] s[k] as int),
    ensures
        ratio_le(t, c, tc, h as int, x as int) && ratio_le(t, c, tc, x as int, h as int)
            ==> min_rows(t, c, tc, s.push(x)) == min_rows(t, c, tc, s).push(x),
        ratio_le(t, c, tc, h as int, x as int) && !ratio_le(t, c, tc, x as int, h as int)
            ==> min_rows(t, c, tc, s.push(x)) == min_rows(t, c, tc, s),
        !ratio_le(t, c, tc, h as int, x as int) ==> min_rows(t, c, tc, s.push(x))
            == Seq::<usize>::empty().push(x),
{
    let p1 = min_pred(t, c, tc, s);
    let p2 = min_pred(t, c, tc, s.push(x));
    let s2 = s.push(x);
    let hi = choose|k: int| 0 <= k < s.len() && #[trigger] s[k] == h;
    if ratio_le(t, c, tc, h as int, x as int) {
        // ratios never drop below the old minimum, so the old entries
        // keep or lose their place exactly as before
        assert forall|k: int| 0 <= k < s.len() implies p2(#[trigger] s[k]) == p1(s[k]) by {
            let y = s[k] as int;
            assert(candidate(t, c, y));
            if p1(s[k]) {
                assert(ratio_le(t, c, tc, y, s[hi] as int));
                lemma_ratio_trans(t, c, tc, y, h as int, x as int);
                assert forall|m: int| 0 <= m < s2.len() implies ratio_le(
                    t,
                    c,
                    tc,
                    y,
                    #[trigger] s2[m] as int,
                ) by {
                    if m < s.len() {
                        assert(ratio_le(t, c, tc, y, s[m] as int));
                    }
                }
            }
            if p2(s[k]) {
                assert forall|m: int| 0 <= m < s.len() implies ratio_le(
                    t,
                    c,
                    tc,
                    y,
                    #[trigger] s[m] as int,
                ) by {
                    assert(s2[m] == s[m]);
                    assert(ratio_le(t, c, tc, y, s2[m] as int));
                }
            }
        }
        lemma_filter_congruent(s, p2, p1);
        lemma_filter_push(s, p2, x);
        if ratio_le(t, c, tc, x as int, h as int) {
            assert(p2(x)) by {
                assert forall|m: int| 0 <= m < s2.len() implies ratio_le(
                    t,
                    c,
                    tc,
                    x as int,
                    #[trigger] s2[m] as int,
                ) by {
                    if m < s.len() {
                        lemma_ratio_trans(t, c, tc, x as int, h as int, s[m] as int);
                    }
                }
            }
        } else {
            assert(!p2(x)) by {
                if p2(x) {
                    assert(s2[hi] == h);
                    assert(ratio_le(t, c, tc, x as int, s2[hi] as int));
                }
            }
        }
    } else {
        // the new row beats the old minimum strictly: nothing old stays
        assert(ratio_le(t, c, tc, x as int, h as int));
        assert forall|k: int| 0 <= k < s.len() implies !p2(#[trigger] s[k]) by {
            let y = s[k] as int;
            if p2(s[k]) {
                assert(s2[s.len() as int] == x);
                assert(ratio_le(t, c, tc, y, x as int));
                assert(ratio_le(t, c, tc, h as int, y));
                assert(candidate(t, c, y));
                lemma_ratio_trans(t, c, tc, h as int, y, x as int);
            }
        }
        lemma_filter_none(s, p2);
        lemma_filter_push(s, p2, x);
        assert(p2(x)) by {
            assert forall|m: int| 0 <= m < s2.len() implies ratio_le(
                t,
                c,
                tc,
                x as int,
                #[trigger] s2[m] as int,
            ) by {
                if m < s.len() {
                    lemma_ratio_trans(t, c, tc, x as int, h as int, s[m] as int);
                }
            }
        }
    }
}

/// Keep exactly the rows of `rows` whose ratio against column
/// `test_col` is minimal, in their original order: a strictly smaller
/// ratio restarts the list, an equal one extends it, a larger one is
/// dropped.
pub fn take_min_ratio_rows(
    tableau: &Tableau,
    enter_col: usize,
    test_col: usize,
    rows: &mut Vec<usize>,
)
    requires
        tableau.dims_ok(),
        enter_col < tableau.ncols,
        test_col < tableau.ncols,
        old(rows)@.len() >= 1,
        forall|k: int|
            0 <= k < old(rows)@.len() ==> candidate(
                *tableau,
                enter_col as int,
                #[trigger] old(rows)@[k] as int,
            ),
    ensures
        final(rows)@.len() >= 1,
        forall|k: int|
            0 <= k < final(rows)@.len() ==> in_seq(old(rows)@, #[trigger] final(rows)@[k] as int)
                && min_ratio_of(
                *tableau,
                enter_col as int,
                test_col as int,
                old(rows)@,
                final(rows)@[k] as int,
            ),
        forall|k: int|
            0 <= k < old(rows)@.len() && min_ratio_of(
                *tableau,
                enter_col as int,
                test_col as int,
                old(rows)@,
                #[trigger] old(rows)@[k] as int,
            ) ==> in_seq(final(rows)@, old(rows)@[k] as int),
        final(rows)@ == min_rows(*tableau, enter_col as int, test_col as int, old(rows)@),
{
    let ghost t = *tableau;
    let ghost c = enter_col as int;
    let ghost tc = test_col as int;
    let ghost r0 = rows@;

    let mut keep: Vec<usize> = Vec::new();
    keep.push(rows[0]);
    proof {
        assert(keep@[0] == r0[0]);
        assert(r0.subrange(0, 1)[0] == r0[0]);
        assert(in_seq(r0.subrange(0, 1), keep@[0] as int));
        assert(in_seq(keep@, r0[0] as int));
        // the first row alone is the minimizer list of the length-one prefix
        let pre1 = r0.subrange(0, 1);
        let p1 = min_pred(t, c, tc, pre1);
        assert(pre1 =~= Seq::<usize>::empty().push(r0[0]));
        reveal(Seq::filter);
        assert(Seq::<usize>::empty().filter(p1) =~= Seq::<usize>::empty());
        lemma_filter_push(Seq::<usize>::empty(), p1, r0[0]);
        assert(p1(r0[0])) by {
            assert forall|m: int| 0 <= m < pre1.len() implies ratio_le(
                t,
                c,
                tc,
                r0[0] as int,
                #[trigger] pre1[m] as int,
            ) by {
                assert(pre1[m] == r0[0]);
            }
        }
        assert(keep@ =~= min_rows(t, c, tc, pre1));
    }
    let mut i: usize = 1;
    while i < rows.len()
        invariant
            tableau.dims_ok(),
            enter_col < tableau.ncols,
            test_col < tableau.ncols,
            t == *tableau,
            c == enter_col as int,
            tc == test_col as int,
            r0 == rows@,
            r0.len() >= 1,
            1 <= i <= r0.len(),
            forall|k: int| 0 <= k < r0.len() ==> candidate(t, c, #[trigger] r0[k] as int),
            keep@.len() >= 1,
            // every kept row comes from the prefix and minimizes over it
            forall|k: int|
                0 <= k < keep@.len() ==> in_seq(r0.subrange(0, i as int), #[trigger] keep@[k] as int),
            forall|k: int, m: int|
                0 <= k < keep@.len() && 0 <= m < i ==> ratio_le(
                    t,
                    c,
                    tc,
                    #[trigger] keep@[k] as int,
                    #[trigger] r0[m] as int,
                ),
            // every prefix row no worse than the head of the kept list is kept
            forall|m: int|
                0 <= m < i && ratio_le(t, c, tc, #[trigger] r0[m] as int, keep@[0] as int)
                    ==> in_seq(keep@, r0[m] as int),
            // the kept list is exactly the minimizer subsequence so far
            keep@ == min_rows(t, c, tc, r0.subrange(0, i as int)),
        decreases r0.len() - i,
    {
        let ghost keep_old = keep@;
        let first: usize = keep[0];
        let cand: usize = rows[i];
        proof {
            assert(in_seq(r0.subrange(0, i as int), first as int));
            let ki = choose|k: int|
                0 <= k < r0.subrange(0, i as int).len() && #[trigger] r0.subrange(0, i as int)[k]
                    == first;
            assert(r0[ki] == first);
            assert(candidate(t, c, first as int));
            assert(candidate(t, c, cand as int));
        }
        match tableau.ratio_test(first, cand, enter_col, test_col) {
            core::cmp::Ordering::Equal => {
                keep.push(cand);
                proof {
                    assert forall|k: int, m: int|
                        0 <= k < keep@.len() && 0 <= m < i + 1 implies ratio_le(
                        t,
                        c,
                        tc,
                        #[trigger] keep@[k] as int,
                        #[trigger] r0[m] as int,
                    ) by {
                        let kv = keep@[k] as int;
                        assert(candidate(t, c, kv)) by {
                            if k < keep_old.len() {
                                assert(in_seq(r0.subrange(0, i as int), kv));
                                let kk = choose|q: int|
                                    0 <= q < r0.subrange(0, i as int).len()
                                        && #[trigger] r0.subrange(0, i as int)[q] == kv;
                                assert(r0[kk] as int == kv);
                            }
                        }
                        if m < i {
                            if k < keep_old.len() {
                            } else {
                                // the new row has the same ratio as the head
                                assert(keep@[k] == cand);
                                assert(ratio_le(t, c, tc, cand as int, first as int));
                                assert(ratio_le(t, c, tc, first as int, r0[m] as int));
                                lemma_ratio_trans(t, c, tc, cand as int, first as int, r0[m] as int);
                            }
                        } else {
                            // m == i: compare against the new row itself
                            assert(r0[m] == cand);
                            if k < keep_old.len() {
                                assert(ratio_le(t, c, tc, kv, first as int));
                                assert(ratio_le(t, c, tc, first as int, cand as int));
                                lemma_ratio_trans(t, c, tc, kv, first as int, cand as int);
                            }
                        }
                    }
                    assert forall|m: int|
                        0 <= m < i + 1 && ratio_le(t, c, tc, #[trigger] r0[m] as int, keep@[0] as int)
                            implies in_seq(keep@, r0[m] as int) by {
                        if m < i {
                            assert(in_seq(keep_old, r0[m] as int));
                            let q = choose|q: int|
                                0 <= q < keep_old.len() && #[trigger] keep_old[q] == r0[m];
                            assert(keep@[q] == r0[m]);
                        } else {
                            assert(keep@[keep@.len() - 1] == cand);
                        }
                    }
                    assert forall|k: int|
                        0 <= k < keep@.len() implies in_seq(
                        r0.subrange(0, i as int + 1),
                        #[trigger] keep@[k] as int,
                    ) by {
                        if k < keep_old.len() {
                            let q = choose|q: int|
                                0 <= q < r0.subrange(0, i as int).len()
                                    && #[trigger] r0.subrange(0, i as int)[q] == keep_old[k];
                            assert(r0.subrange(0, i as int + 1)[q] == keep@[k]);
                        } else {
                            assert(r0.subrange(0, i as int + 1)[i as int] == keep@[k]);
                        }
                    }
                }
            },
            core::cmp::Ordering::Greater => {
                // strictly smaller ratio found: restart the kept list
                keep.clear();
                keep.push(cand);
                proof {
                    assert(!ratio_le(t, c, tc, first as int, cand as int));
                    assert(ratio_le(t, c, tc, cand as int, first as int));
                    assert forall|k: int, m: int|
                        0 <= k < keep@.len() && 0 <= m < i + 1 implies ratio_le(
                        t,
                        c,
                        tc,
                        #[trigger] keep@[k] as int,
                        #[trigger] r0[m] as int,
                    ) by {
                        if m < i {
                            assert(ratio_le(t, c, tc, first as int, r0[m] as int));
                            lemma_ratio_trans(t, c, tc, cand as int, first as int, r0[m] as int);
                        } else {
                            assert(r0[m] == cand);
                        }
                    }
                    assert forall|m: int|
                        0 <= m < i + 1 && ratio_le(t, c, tc, #[trigger] r0[m] as int, keep@[0] as int)
                            implies in_seq(keep@, r0[m] as int) by {
                        if m < i {
                            // impossible: that row would beat the old head strictly
                            assert(ratio_le(t, c, tc, r0[m] as int, cand as int));
                            if !ratio_le(t, c, tc, r0[m] as int, first as int) {
                                assert(ratio_le(t, c, tc, first as int, r0[m] as int));
                                lemma_ratio_trans(t, c, tc, first as int, r0[m] as int, cand as int);
                                assert(false);
                            }
                            assert(ratio_le(t, c, tc, first as int, r0[m] as int));
                            lemma_ratio_trans(t, c, tc, first as int, r0[m] as int, cand as int);
                            assert(false);
                        } else {
                            assert(keep@[0] == r0[m]);
                        }
                    }
                    assert forall|k: int|
                        0 <= k < keep@.len() implies in_seq(
                        r0.subrange(0, i as int + 1),
                        #[trigger] keep@[k] as int,
                    ) by {
                        assert(r0.subrange(0, i as int + 1)[i as int] == cand);
                    }
                }
            },
            core::cmp::Ordering::Less => {
                proof {
                    assert(!ratio_le(t, c, tc, cand as int, first as int));
                    assert(ratio_le(t, c, tc, first as int, cand as int));
                    assert forall|k: int, m: int|
                        0 <= k < keep@.len() && 0 <= m < i + 1 implies ratio_le(
                        t,
                        c,
                        tc,
                        #[trigger] keep@[k] as int,
                        #[trigger] r0[m] as int,
                    ) by {
                        let kv = keep@[k] as int;
                        assert(candidate(t, c, kv)) by {
                            assert(in_seq(r0.subrange(0, i as int), kv));
                            let kk = choose|q: int|
                                0 <= q < r0.subrange(0, i as int).len()
                                    && #[trigger] r0.subrange(0, i as int)[q] == kv;
                            assert(r0[kk] as int == kv);
                        }
                        if m == i {
                            assert(r0[m] == cand);
                            assert(ratio_le(t, c, tc, kv, first as int));
                            lemma_ratio_trans(t, c, tc, kv, first as int, cand as int);
                        }
                    }
                    assert forall|m: int|
                        0 <= m < i + 1 && ratio_le(t, c, tc, #[trigger] r0[m] as int, keep@[0] as int)
                            implies in_seq(keep@, r0[m] as int) by {
                        if m == i {
                            // impossible: the dropped row is strictly worse
                            assert(r0[m] == cand);
                            assert(ratio_le(t, c, tc, cand as int, keep@[0] as int));
                            assert(keep@[0] == first);
                            assert(false);
                        }
                    }
                    assert forall|k: int|
                        0 <= k < keep@.len() implies in_seq(
                        r0.subrange(0, i as int + 1),
                        #[trigger] keep@[k] as int,
                    ) by {
                        let q = choose|q: int|
                            0 <= q < r0.subrange(0, i as int).len()
                                && #[trigger] r0.subrange(0, i as int)[q] == keep@[k];
                        assert(r0.subrange(0, i as int + 1)[q] == keep@[k]);
                    }
                }
            },
        }
        proof {
            // the kept list is still the exact minimizer subsequence
            let pre = r0.subrange(0, i as int);
            let pre2 = r0.subrange(0, i as int + 1);
            assert(pre2 =~= pre.push(cand));
            assert forall|k: int| 0 <= k < pre.len() implies candidate(
                t,
                c,
                #[trigger] pre[k] as int,
            ) by {
                assert(pre[k] == r0[k]);
            }
            assert(in_seq(pre, first as int)) by {
                let ki = choose|k: int|
                    0 <= k < keep_old.len() && in_seq(pre, #[trigger] keep_old[k] as int) && k == 0;
                assert(in_seq(pre, keep_old[0] as int));
            }
            assert forall|k: int| 0 <= k < pre.len() implies ratio_le(
                t,
                c,
                tc,
                first as int,
                #[trigger] pre[k] as int,
            ) by {
                assert(pre[k] == r0[k]);
                assert(ratio_le(t, c, tc, keep_old[0] as int, r0[k] as int));
            }
            lemma_min_rows_push(t, c, tc, pre, cand, first);
            assert(keep@ == min_rows(t, c, tc, pre2));
        }
        i += 1;
    }
    proof {
        assert(r0.subrange(0, r0.len() as int) == r0);
    }
    *rows = keep;
}

/// Reduce the candidate rows against the right-hand-side column and
/// report whether z0's row is among the survivors.
fn process_rhs(
    tableau: &Tableau,
    vars: &TableauVariables,
    enter_col: usize,
    rows: &mut Vec<usize>,
) -> (z0: bool)
    requires
        vars.wf(),
        tableau.dims_ok(),
        tableau.nrows == vars.n,
        enter_col < tableau.ncols,
        old(rows)@.len() >= 1,
        forall|k: int|
            0 <= k < old(rows)@.len() ==> candidate(
                *tableau,
                enter_col as int,
                #[trigger] old(rows)@[k] as int,
            ),
    ensures
        final(rows)@.len() >= 1,
        forall|k: int|
            0 <= k < final(rows)@.len() ==> in_seq(old(rows)@, #[trigger] final(rows)@[k] as int)
                && min_ratio_of(
                *tableau,
                enter_col as int,
                vars.n + 1,
                old(rows)@,
                final(rows)@[k] as int,
            ) && candidate(*tableau, enter_col as int, final(rows)@[k] as int),
        forall|k: int|
            0 <= k < old(rows)@.len() && min_ratio_of(
                *tableau,
                enter_col as int,
                vars.n + 1,
                old(rows)@,
                #[trigger] old(rows)@[k] as int,
            ) ==> in_seq(final(rows)@, old(rows)@[k] as int),
        final(rows)@ == min_rows(*tableau, enter_col as int, vars.n + 1, old(rows)@),
        z0 == (vars.basic(0) && in_seq(final(rows)@, vars.var_pos(0))),
{
    let ghost t = *tableau;
    let ghost c = enter_col as int;
    let ghost r0 = rows@;
    let rhs = vars.rhs_col();
    take_min_ratio_rows(tableau, enter_col, rhs, rows);
    proof {
        assert forall|k: int| 0 <= k < rows@.len() implies candidate(
            t,
            c,
            #[trigger] rows@[k] as int,
        ) by {
            assert(in_seq(r0, rows@[k] as int));
            let q = choose|q: int| 0 <= q < r0.len() && #[trigger] r0[q] == rows@[k];
            assert(candidate(t, c, r0[q] as int));
        }
    }

    let mut z0_can_leave = false;
    let mut k: usize = 0;
    while k < rows.len()
        invariant
            vars.wf(),
            tableau.nrows == vars.n,
            t == *tableau,
            k <= rows@.len(),
            forall|m: int|
                0 <= m < rows@.len() ==> candidate(t, enter_col as int, #[trigger] rows@[m] as int),
            z0_can_leave == exists|m: int|
                0 <= m < k && vars.pos_var(#[trigger] rows@[m] as int) == 0,
        decreases rows@.len() - k,
    {
        let var = vars.from_row(rows[k]);
        if var.is_z0() {
            z0_can_leave = true;
        }
        proof {
            if vars.pos_var(rows@[k as int] as int) == 0 {
                assert(exists|m: int| 0 <= m < k + 1 && vars.pos_var(#[trigger] rows@[m] as int) == 0);
            }
        }
        k += 1;
    }
    proof {
        let zr = vars.var_pos(0);
        if z0_can_leave {
            let m = choose|m: int| 0 <= m < rows@.len() && vars.pos_var(#[trigger] rows@[m] as int) == 0;
            assert(vars.var_pos(vars.pos_var(rows@[m] as int)) == rows@[m] as int);
            assert(zr == rows@[m] as int);
            assert(vars.basic(0) && in_seq(rows@, zr));
        } else {
            if vars.basic(0) && in_seq(rows@, zr) {
                let m = choose|m: int| 0 <= m < rows@.len() && #[trigger] rows@[m] == zr;
                assert(vars.pos_var(vars.var_pos(0)) == 0);
                assert(vars.pos_var(rows@[m] as int) == 0);
                assert(false);
            }
        }
    }
    z0_can_leave
}

/// While several candidates remain, test them against the columns of
/// w(1), w(2), ...: a basic w(j) eliminates its own row, a cobasic one
/// contributes a ratio test on its column.  A perturbed right-hand side
/// has full rank, so the list must shrink to one row within n steps;
/// running out of columns reports a broken invariant.
fn process_candidates(
    tableau: &Tableau,
    vars: &TableauVariables,
    enter_col: usize,
    rows: &mut Vec<usize>,
) -> (res: Result<bool, LcpError>)
    requires
        vars.wf(),
        tableau.dims_ok(),
        tableau.nrows == vars.n,
        enter_col < tableau.ncols,
        old(rows)@.len() >= 1,
        forall|k: int|
            0 <= k < old(rows)@.len() ==> candidate(
                *tableau,
                enter_col as int,
                #[trigger] old(rows)@[k] as int,
            ),
    ensures
        res is Err ==> res == Err::<bool, LcpError>(LcpError::BrokenInvariant),
        res is Ok ==> final(rows)@.len() >= 1,
        res is Ok ==> forall|k: int|
            0 <= k < final(rows)@.len() ==> in_seq(old(rows)@, #[trigger] final(rows)@[k] as int)
                && min_ratio_of(
                *tableau,
                enter_col as int,
                vars.n + 1,
                old(rows)@,
                final(rows)@[k] as int,
            ) && candidate(*tableau, enter_col as int, final(rows)@[k] as int),
        res matches Ok(z0) ==> z0 == (vars.basic(0) && in_seq(old(rows)@, vars.var_pos(0))
            && min_ratio_of(*tableau, enter_col as int, vars.n + 1, old(rows)@, vars.var_pos(0))),
        res is Err <==> tie_break_upto(
            *tableau,
            *vars,
            enter_col as int,
            min_rows(*tableau, enter_col as int, vars.n + 1, old(rows)@),
            vars.n as int,
        ).len() > 1,
        res is Ok ==> final(rows)@ == tie_break_upto(
            *tableau,
            *vars,
            enter_col as int,
            min_rows(*tableau, enter_col as int, vars.n + 1, old(rows)@),
            vars.n as int,
        ) && final(rows)@.len() == 1,
    {
        let ghost t = *tableau;
        let ghost c = enter_col as int;
        let ghost r0 = rows@;

        let z0_can_leave = process_rhs(tableau, vars, enter_col, rows);
        let ghost r1 = rows@;
        proof {
            assert(r1 == min_rows(t, c, vars.n + 1, r0));
        }
        proof {
            let zr = vars.var_pos(0);
            if z0_can_leave {
                let m = choose|m: int| 0 <= m < r1.len() && #[trigger] r1[m] == zr;
                assert(in_seq(r0, r1[m] as int) && min_ratio_of(t, c, vars.n + 1, r0, r1[m] as int));
            } else {
                if vars.basic(0) && in_seq(r0, zr) && min_ratio_of(t, c, vars.n + 1, r0, zr) {
                    let m = choose|m: int| 0 <= m < r0.len() && #[trigger] r0[m] == zr;
                    assert(in_seq(r1, r0[m] as int));
                    assert(in_seq(r1, zr));
                    assert(false);
                }
            }
        }

        let mut j: usize = 1;
        while rows.len() > 1
            invariant
                vars.wf(),
                tableau.dims_ok(),
                tableau.nrows == vars.n,
                enter_col < tableau.ncols,
                t == *tableau,
                c == enter_col as int,
                1 <= j,
                j <= vars.n + 1,
                rows@.len() >= 1,
                r0 == old(rows)@,
                r1 == min_rows(t, c, vars.n + 1, r0),
                rows@ == tie_break_upto(t, *vars, c, r1, j - 1),
                forall|k: int|
                    0 <= k < rows@.len() ==> in_seq(r0, #[trigger] rows@[k] as int) && min_ratio_of(
                        t,
                        c,
                        vars.n + 1,
                        r0,
                        rows@[k] as int,
                    ) && candidate(t, c, rows@[k] as int),
            decreases vars.n + 1 - j,
        {
            if j > vars.n {
                proof {
                    assert(j - 1 == vars.n);
                    assert(tie_break_upto(t, *vars, c, r1, vars.n as int).len() > 1);
                }
                return Err(LcpError::BrokenInvariant);
            }
            let ghost prev = rows@;
            let wj = vars.w(j);
            if vars.is_basic(&wj) {
                // w(j) basic: its row is a unit column already in the
                // basis, so it cannot constrain the ratio; drop it.
                let wrow = vars.to_row(&wj);
                let len = rows.len();
                let mut idx: usize = len;
                let mut k: usize = 0;
                while k < len
                    invariant
                        len == rows@.len(),
                        k <= len,
                        idx <= len,
                        idx == len ==> forall|k2: int| 0 <= k2 < k ==> #[trigger] rows@[k2] != wrow,
                        idx < len ==> rows@[idx as int] == wrow && (forall|k2: int|
                            0 <= k2 < idx ==> #[trigger] rows@[k2] != wrow),
                    decreases len - k,
                {
                    if rows[k] == wrow && idx == len {
                        idx = k;
                    }
                    k += 1;
                }
                proof {
                    // the scan found the first occurrence, if any
                    rows@.index_of_first_ensures(wrow);
                    if idx < len {
                        assert(rows@.contains(wrow)) by {
                            assert(rows@[idx as int] == wrow);
                        }
                        match rows@.index_of_first(wrow) {
                            Some(i2) => {
                                if i2 < idx {
                                    assert(rows@[i2] == wrow);
                                    assert(false);
                                }
                                if i2 > idx {
                                    assert(rows@[idx as int] != wrow);
                                    assert(false);
                                }
                                assert(rows@.remove_value(wrow) == rows@.remove(idx as int));
                            },
                            None => {
                                assert(false);
                            },
                        }
                    } else {
                        if rows@.contains(wrow) {
                            let q = choose|q: int| 0 <= q < rows@.len() && rows@[q] == wrow;
                            assert(rows@[q] == wrow);
                            assert(rows@[q] != wrow);
                            assert(false);
                        }
                        assert(rows@.remove_value(wrow) == rows@);
                    }
                }
                if idx < len {
                    let ghost before = rows@;
                    rows.remove(idx);
                    proof {
                        assert forall|k2: int|
                            0 <= k2 < rows@.len() implies in_seq(r0, #[trigger] rows@[k2] as int)
                                && min_ratio_of(t, c, vars.n + 1, r0, rows@[k2] as int)
                                && candidate(t, c, rows@[k2] as int) by {
                            if k2 < idx {
                                assert(rows@[k2] == before[k2]);
                            } else {
                                assert(rows@[k2] == before[k2 + 1]);
                            }
                        }
                        assert(rows@ == before.remove_value(wrow));
                    }
                }
                proof {
                    assert(wj.value == j + vars.n);
                    assert(vars.basic(vars.n + j as int));
                    assert(vars.var_pos(vars.n + j as int) == wrow as int);
                    assert((vars.var_pos(vars.n + j as int) as usize) == wrow);
                    assert(rows@ == tie_break_pass(t, *vars, c, prev, j as int));
                }
            } else {
                let test_col = vars.to_col(&wj);
                if test_col != enter_col {
                    let ghost before = rows@;
                    take_min_ratio_rows(tableau, enter_col, test_col, rows);
                    proof {
                        assert forall|k2: int|
                            0 <= k2 < rows@.len() implies in_seq(r0, #[trigger] rows@[k2] as int)
                                && min_ratio_of(t, c, vars.n + 1, r0, rows@[k2] as int)
                                && candidate(t, c, rows@[k2] as int) by {
                            assert(in_seq(before, rows@[k2] as int));
                            let q = choose|q: int|
                                0 <= q < before.len() && #[trigger] before[q] == rows@[k2];
                            assert(in_seq(r0, before[q] as int));
                            assert(min_ratio_of(t, c, vars.n + 1, r0, before[q] as int));
                            assert(candidate(t, c, before[q] as int));
                        }
                        assert(rows@ == min_rows(t, c, test_col as int, before));
                    }
                }
                proof {
                    assert(wj.value == j + vars.n);
                    assert(!vars.basic(vars.n + j as int));
                    assert(vars.var_pos(vars.n + j as int) - vars.n == test_col as int);
                    assert(rows@ == tie_break_pass(t, *vars, c, prev, j as int));
                }
            }
            proof {
                assert(prev == tie_break_upto(t, *vars, c, r1, j - 1));
                assert(prev.len() > 1);
                assert(rows@ == tie_break_upto(t, *vars, c, r1, j as int));
            }
            j += 1;
        }
        proof {
            assert(rows@.len() == 1);
            lemma_tie_break_stable(t, *vars, c, r1, j - 1, vars.n as int);
            assert(rows@ == tie_break_upto(t, *vars, c, r1, vars.n as int));
        }
        Ok(z0_can_leave)
    }

/// The leaving variable for the given entering variable: the basic
/// variable of the lexicographically minimal candidate row, together
/// with the flag that tells whether z0 survived the ratio test against
/// the right-hand side (the signal that the solve can stop).  A column
/// without positive entries means the complementary path runs off along
/// a ray.
pub fn lexminratio(tableau: &Tableau, vars: &TableauVariables, enter: &TableauVariable) -> (res:
    Result<(TableauVariable, bool), LcpError>)
    requires
        vars.wf(),
        tableau.dims_ok(),
        tableau.nrows == vars.n,
        vars.owns(*enter),
        !vars.basic(enter.value as int),
    ensures
        res == Err::<(TableauVariable, bool), LcpError>(LcpError::RayTermination) <==> (forall|
            i: int,
        |
            0 <= i < vars.n ==> !(#[trigger] tableau.val(
                i,
                vars.var_pos(enter.value as int) - vars.n,
            ) > 0)),
        res is Err ==> res == Err::<(TableauVariable, bool), LcpError>(LcpError::RayTermination)
            || res == Err::<(TableauVariable, bool), LcpError>(LcpError::BrokenInvariant),
        res matches Ok(lz) ==> {
            let cc = vars.var_pos(enter.value as int) - vars.n;
            &&& vars.owns(lz.0)
            &&& vars.basic(lz.0.value as int)
            &&& candidate(*tableau, cc, vars.var_pos(lz.0.value as int))
            &&& forall|k: int|
                #[trigger] candidate(*tableau, cc, k) ==> ratio_le(
                    *tableau,
                    cc,
                    vars.n + 1,
                    vars.var_pos(lz.0.value as int),
                    k,
                )
            &&& lz.1 == z0_can_leave_spec(*tableau, *vars, cc)
            &&& (!lz.1 ==> lz.0.value != 0)
        },
        res == Err::<(TableauVariable, bool), LcpError>(LcpError::BrokenInvariant) <==> ({
            let cc = vars.var_pos(enter.value as int) - vars.n;
            let cands = candidate_rows(*tableau, cc, vars.n as int);
            candidate_rows(*tableau, cc, vars.n as int).len() > 0 && tie_break_upto(
                *tableau,
                *vars,
                cc,
                min_rows(*tableau, cc, vars.n + 1, cands),
                vars.n as int,
            ).len() > 1
        }),
        res matches Ok(lz) ==> ({
            let cc = vars.var_pos(enter.value as int) - vars.n;
            let cands = candidate_rows(*tableau, cc, vars.n as int);
            let reduced = tie_break_upto(
                *tableau,
                *vars,
                cc,
                min_rows(*tableau, cc, vars.n + 1, cands),
                vars.n as int,
            );
            reduced.len() == 1 && lz.0.value == vars.pos_var(reduced[0] as int)
        }),
{
    let ghost t = *tableau;
    let enter_col = vars.to_col(enter);
    let ghost c = enter_col as int;

    let mut rows: Vec<usize> = Vec::new();
    let mut i: usize = 0;
    while i < vars.n
        invariant
            vars.wf(),
            tableau.dims_ok(),
            tableau.nrows == vars.n,
            enter_col < tableau.ncols,
            t == *tableau,
            c == enter_col as int,
            i <= vars.n,
            rows@ == candidate_rows(t, c, i as int),
            forall|k: int| 0 <= k < rows@.len() ==> candidate(t, c, #[trigger] rows@[k] as int),
            forall|r: int| 0 <= r < i && candidate(t, c, r) ==> in_seq(rows@, r),
        decreases vars.n - i,
    {
        if big_is_positive(tableau.entry(i, enter_col)) {
            let ghost before = rows@;
            rows.push(i);
            proof {
                assert(rows@[rows@.len() - 1] == i);
                assert forall|r: int| 0 <= r < i + 1 && candidate(t, c, r) implies in_seq(
                    rows@,
                    r,
                ) by {
                    if r < i {
                        let q = choose|q: int| 0 <= q < before.len() && #[trigger] before[q] == r;
                        assert(rows@[q] == r);
                    }
                }
            }
        }
        i += 1;
    }

    if rows.len() == 0 {
        proof {
            assert forall|r: int| 0 <= r < vars.n implies !(#[trigger] t.val(r, c) > 0) by {
                if candidate(t, c, r) {
                    assert(in_seq(rows@, r));
                    assert(false);
                }
            }
        }
        return Err(LcpError::RayTermination);
    }

    let ghost r0 = rows@;
    let z0_can_leave = match process_candidates(tableau, vars, enter_col, &mut rows) {
        Ok(flag) => flag,
        Err(e) => {
            proof {
                assert(candidate(t, c, r0[0] as int));
                assert(t.val(r0[0] as int, c) > 0);
            }
            return Err(e);
        },
    };

    let leave = vars.from_row(rows[0]);
    proof {
        let lr = rows@[0] as int;
        assert(in_seq(r0, lr) && min_ratio_of(t, c, vars.n + 1, r0, lr) && candidate(t, c, lr));
        assert(vars.var_pos(vars.pos_var(lr)) == lr);
        assert forall|k: int| #[trigger] candidate(t, c, k) implies ratio_le(
            t,
            c,
            vars.n + 1,
            lr,
            k,
        ) by {
            assert(in_seq(r0, k));
            let q = choose|q: int| 0 <= q < r0.len() && #[trigger] r0[q] == k;
            assert(ratio_le(t, c, vars.n + 1, lr, r0[q] as int));
        }
        // the reported flag matches the specification of z0's survival
        let zr = vars.var_pos(0);
        if z0_can_leave {
            let m = choose|m: int| 0 <= m < r0.len() && #[trigger] r0[m] == zr;
            assert(candidate(t, c, zr));
            assert forall|k: int| #[trigger] candidate(t, c, k) implies ratio_le(
                t,
                c,
                vars.n + 1,
                zr,
                k,
            ) by {
                assert(in_seq(r0, k));
                let q = choose|q: int| 0 <= q < r0.len() && #[trigger] r0[q] == k;
                assert(ratio_le(t, c, vars.n + 1, zr, r0[q] as int));
            }
            assert(z0_can_leave_spec(t, *vars, c));
        } else {
            if z0_can_leave_spec(t, *vars, c) {
                assert(candidate(t, c, zr));
                assert(in_seq(r0, zr));
                assert(min_ratio_of(t, c, vars.n + 1, r0, zr)) by {
                    assert forall|k: int| 0 <= k < r0.len() implies ratio_le(
                        t,
                        c,
                        vars.n + 1,
                        zr,
                        #[trigger] r0[k] as int,
                    ) by {
                        assert(candidate(t, c, r0[k] as int));
                    }
                }
                assert(false);
            }
            // z0 cannot be the leaving variable here
            if leave.value == 0 {
                assert(lr == zr);
                assert(candidate(t, c, zr));
                assert forall|k: int| #[trigger] candidate(t, c, k) implies ratio_le(
                    t,
                    c,
                    vars.n + 1,
                    zr,
                    k,
                ) by {
                    assert(in_seq(r0, k));
                    let q = choose|q: int| 0 <= q < r0.len() && #[trigger] r0[q] == k;
                    assert(ratio_le(t, c, vars.n + 1, zr, r0[q] as int));
                }
                assert(z0_can_leave_spec(t, *vars, c));
                assert(false);
            }
        }
    }
    Ok((leave, z0_can_leave))
}

} // verus!
