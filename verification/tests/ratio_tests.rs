use std::cmp::Ordering;

use num::bigint::BigInt;
use num::traits::FromPrimitive;

use lemke::lex_min_ratio::lexminratio;
use lemke::lex_min_ratio::take_min_ratio_rows;
use lemke::tableau::Tableau;
use lemke::tableau_vars::TableauVariables;

/*
 * Test row candidate elimination using sign of:
 * A[l_0,t] / A[l_0,col] - A[l_i,t] / A[l_i,col]
 */
#[test]
fn take_min_ratio_elems_works() {
    let mut a = Tableau::new(2);
    a.set(0, 0, BigInt::from_i32(2).unwrap());
    a.set(0, 1, BigInt::from_i32(2).unwrap());
    a.set(0, 2, BigInt::from_i32(1).unwrap());
    a.set(0, 3, BigInt::from_i32(-1).unwrap());
    a.set(1, 0, BigInt::from_i32(1).unwrap());
    a.set(1, 1, BigInt::from_i32(1).unwrap());
    a.set(1, 2, BigInt::from_i32(3).unwrap());
    a.set(1, 3, BigInt::from_i32(-1).unwrap());

    let mut candidates = vec![0, 1];

    let col1 = 1;
    let testcol1 = 2;
    let sgn1 = a.ratio_test(candidates[0], candidates[1], col1, testcol1);
    assert_eq!(Ordering::Less, sgn1); // A[0,2] / A[0,1] - A[1,2] / A[1,1] should be 1/2 - 3/1 = -5/2

    take_min_ratio_rows(&a, col1, testcol1, &mut candidates);
    assert_eq!(1, candidates.len());
    assert_eq!(0, candidates[0]);

    candidates = vec![0, 1];
    let col2 = 2;
    let testcol2 = 1;
    let sgn2 = a.ratio_test(candidates[0], candidates[1], col2, testcol2);
    assert_eq!(Ordering::Greater, sgn2); // A[0,1] / A[0,2] - A[1,1] / A[1,2] should be 2/1 - 1/3 = 5/3

    take_min_ratio_rows(&a, col2, testcol2, &mut candidates);
    assert_eq!(1, candidates.len());
    assert_eq!(1, candidates[0]);
}

#[test]
fn lexminvar_works() {
    let n = 2;
    let vars = TableauVariables::new(n);

    let mut a = Tableau::new(n);
    a.set(0, 0, BigInt::from_i32(2).unwrap());
    a.set(0, 1, BigInt::from_i32(2).unwrap());
    a.set(0, 2, BigInt::from_i32(1).unwrap());
    a.set(0, 3, BigInt::from_i32(-1).unwrap());
    a.set(1, 0, BigInt::from_i32(1).unwrap());
    a.set(1, 1, BigInt::from_i32(1).unwrap());
    a.set(1, 2, BigInt::from_i32(3).unwrap());
    a.set(1, 3, BigInt::from_i32(-1).unwrap());

    let (leave, z0_can_leave) = lexminratio(&a, &vars, &vars.z(0)).unwrap();
    assert_eq!(vars.w(2), leave); // w2 = 4 is leaving
    assert_eq!(false, z0_can_leave); // z0 can not leave

    let (leave, z0_can_leave) = lexminratio(&a, &vars, &vars.z(1)).unwrap();
    assert_eq!(vars.w(2), leave); // w2 = 4 is leaving
    assert_eq!(false, z0_can_leave); // z0 can not leave

    let (leave, z0_can_leave) = lexminratio(&a, &vars, &vars.z(2)).unwrap();
    assert_eq!(vars.w(1), leave); // w1 = 3 is leaving
    assert_eq!(false, z0_can_leave); // z0 can not leave
}

#[test]
fn lexninvar_on_large_tableau_works() {
    let n = 1000;
    let vars = TableauVariables::new(n);

    let mut a = Tableau::new(n);

    for i in 0..a.nrows {
        for j in 0..a.ncols {
            if j == 0 {
                a.set(i, j, BigInt::from_i32(1).unwrap())
            } else {
                let v = {
                    let i = i as i64;
                    let j = j as i64;
                    (i - j + 1) * (j * 17 - i * 63)
                };
                a.set(i, j, BigInt::from_i64(v).unwrap());
            }
        }
    }

    for _i in 0..1000 {
        let (leave, z0_can_leave) = lexminratio(&a, &vars, &vars.z(0)).unwrap();
        assert_eq!(vars.w(1), leave);
        assert_eq!(false, z0_can_leave);
    }
}
