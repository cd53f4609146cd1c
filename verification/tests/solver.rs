use num::bigint::BigInt;
use num::rational::BigRational;
use num::rational::Ratio;
use num::traits::FromPrimitive;
use num::traits::Signed;
use num::traits::ToPrimitive;
use num::traits::Zero;

use lemke::CoveringVectorFault;
use lemke::LcpError;
use lemke::lcp::lemke;
use lemke::lcp::lemke_with_pivot_max;

fn into_bigrats(ints: Vec<i64>) -> Vec<BigRational> {
    ints.into_iter().map(|val| Ratio::from_integer(BigInt::from_i64(val).unwrap())).collect()
}

fn rat(numer: i64, denom: i64) -> BigRational {
    Ratio::new(BigInt::from_i64(numer).unwrap(), BigInt::from_i64(denom).unwrap())
}

#[test]
fn lemke2() {
    let m = into_bigrats(vec![2, 1, 1, 3]);
    let q = into_bigrats(vec![-1, -1]);
    let d = into_bigrats(vec![2, 1]);

    let z = lemke(m, q, d).unwrap();

    assert_eq!(2, z.len());
    assert_eq!(false, z[0].is_integer());
    assert_eq!(2, z[0].numer().to_i64().unwrap());
    assert_eq!(5, z[0].denom().to_i64().unwrap());
    assert_eq!(false, z[1].is_integer());
    assert_eq!(1, z[1].numer().to_i64().unwrap());
    assert_eq!(5, z[1].denom().to_i64().unwrap());
}

#[test]
fn lemke3() {
    let m = into_bigrats(vec![0, -1, 2, 2, 0, -2, -1, 1, 0]);
    let q = into_bigrats(vec![-3, 6, -1]);
    let d = into_bigrats(vec![1, 1, 1]);

    let z = lemke(m, q, d).unwrap();

    assert_eq!(3, z.len());
    assert_eq!(true, z[0].is_integer());
    assert_eq!(0, z[0].numer().to_i64().unwrap());
    assert_eq!(true, z[1].is_integer());
    assert_eq!(1, z[1].numer().to_i64().unwrap());
    assert_eq!(true, z[2].is_integer());
    assert_eq!(3, z[2].numer().to_i64().unwrap());
}

// One-dimensional boundary: M = [[1]], q = [-1], d = [1] gives z = [1].
#[test]
fn one_dimensional_unit_problem() {
    let z = lemke(into_bigrats(vec![1]), into_bigrats(vec![-1]), into_bigrats(vec![1])).unwrap();
    assert_eq!(1, z.len());
    assert_eq!(rat(1, 1), z[0]);
}

// A non-negative q is solved by the zero vector without any pivoting.
#[test]
fn nonnegative_q_gives_trivial_solution() {
    let m = into_bigrats(vec![1, 0, 0, 1]);
    let q = into_bigrats(vec![1, 1]);
    let d = into_bigrats(vec![1, 1]);
    let z = lemke(m, q, d).unwrap();
    assert_eq!(2, z.len());
    assert!(z[0].is_zero());
    assert!(z[1].is_zero());
}

// Ray termination: M = [[-1]], q = [-1], d = [1] has no solution along
// the covering ray.
#[test]
fn ray_termination_is_reported() {
    let res = lemke(into_bigrats(vec![-1]), into_bigrats(vec![-1]), into_bigrats(vec![1]));
    assert_eq!(Err(LcpError::RayTermination), res);
}

// Pivot budget: a problem that needs several pivots stops with an error
// when only one is allowed.
#[test]
fn pivot_limit_is_reported() {
    let m = into_bigrats(vec![2, 1, 1, 3]);
    let q = into_bigrats(vec![-1, -1]);
    let d = into_bigrats(vec![2, 1]);
    let res = lemke_with_pivot_max(m, q, d, 1);
    assert_eq!(Err(LcpError::PivotLimitReached), res);
}

#[test]
fn empty_q_is_a_dimension_mismatch() {
    let res = lemke(vec![], vec![], vec![]);
    assert_eq!(Err(LcpError::DimensionMismatch), res);
}

#[test]
fn ragged_matrix_is_a_dimension_mismatch() {
    let m = into_bigrats(vec![1, 2, 3]);
    let q = into_bigrats(vec![-1, -1]);
    let d = into_bigrats(vec![1, 1]);
    assert_eq!(Err(LcpError::DimensionMismatch), lemke(m, q, d));
}

#[test]
fn wrong_covering_length_is_a_dimension_mismatch() {
    let m = into_bigrats(vec![1, 0, 0, 1]);
    let q = into_bigrats(vec![-1, -1]);
    let d = into_bigrats(vec![1]);
    assert_eq!(Err(LcpError::DimensionMismatch), lemke(m, q, d));
}

#[test]
fn rectangular_matrix_is_rejected() {
    let m = into_bigrats(vec![1, 2]);
    let q = into_bigrats(vec![-1]);
    let d = into_bigrats(vec![1]);
    assert_eq!(Err(LcpError::NonSquareMatrix), lemke(m, q, d));
}

#[test]
fn negative_covering_entry_is_rejected() {
    let m = into_bigrats(vec![1, 0, 0, 1]);
    let q = into_bigrats(vec![-1, -1]);
    let d = into_bigrats(vec![1, -1]);
    assert_eq!(
        Err(LcpError::BadCoveringVector(1, CoveringVectorFault::NegativeEntry)),
        lemke(m, q, d)
    );
}

#[test]
fn zero_covering_entry_on_negative_q_is_rejected() {
    let m = into_bigrats(vec![1, 0, 0, 1]);
    let q = into_bigrats(vec![1, -1]);
    let d = into_bigrats(vec![1, 0]);
    assert_eq!(
        Err(LcpError::BadCoveringVector(1, CoveringVectorFault::ZeroOnNegativeQ)),
        lemke(m, q, d)
    );
}

// Fractional inputs exercise the per-column scale factors: the solution
// of (1/2) z - 1/2 >= 0 is z = 1.
#[test]
fn fractional_inputs_are_scaled_exactly() {
    let m = vec![rat(1, 2)];
    let q = vec![rat(-1, 2)];
    let d = vec![rat(1, 1)];
    let z = lemke(m, q, d).unwrap();
    assert_eq!(1, z.len());
    assert_eq!(rat(1, 1), z[0]);
}

// Mixed denominators within one column force a non-trivial least
// common multiple, and the answer still comes back exact.
#[test]
fn mixed_denominators_use_column_lcms() {
    let m = vec![rat(1, 2), rat(0, 1), rat(0, 1), rat(1, 2)];
    let q = vec![rat(-1, 4), rat(-1, 6)];
    let d = vec![rat(1, 1), rat(1, 1)];
    let z = lemke(m, q, d).unwrap();
    assert_eq!(2, z.len());
    assert_eq!(rat(1, 2), z[0]);
    assert_eq!(rat(1, 3), z[1]);
}

// Complementarity of the returned solution: z >= 0, w = M z + q >= 0,
// and z_i * w_i = 0 on every row.
#[test]
fn complementarity_holds_on_solved_problems() {
    let cases: Vec<(Vec<i64>, Vec<i64>, Vec<i64>)> = vec![
        (vec![2, 1, 1, 3], vec![-1, -1], vec![2, 1]),
        (vec![0, -1, 2, 2, 0, -2, -1, 1, 0], vec![-3, 6, -1], vec![1, 1, 1]),
        (vec![1], vec![-1], vec![1]),
    ];
    for (mi, qi, di) in cases {
        let n = qi.len();
        let m = into_bigrats(mi);
        let q = into_bigrats(qi);
        let d = into_bigrats(di);
        let z = lemke(m.clone(), q.clone(), d).unwrap();
        assert_eq!(n, z.len());
        for i in 0..n {
            assert!(!z[i].is_negative());
            let mut w = q[i].clone();
            for j in 0..n {
                w = w + m[i * n + j].clone() * z[j].clone();
            }
            assert!(!w.is_negative());
            assert!((z[i].clone() * w).is_zero());
        }
    }
}
