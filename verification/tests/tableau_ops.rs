use std::cmp::Ordering;

use num::bigint::BigInt;
use num::traits::FromPrimitive;
use num::traits::Signed;

use lemke::tableau::Tableau;

#[test]
fn tableau_set_and_get_works() {
    let mut a = Tableau::new(3);
    a.set(0, 0, BigInt::from_i32(2).unwrap());
    a.set(0, 1, BigInt::from_i32(2).unwrap());
    a.set(0, 2, BigInt::from_i32(1).unwrap());
    a.set(0, 3, BigInt::from_i32(-1).unwrap());
    a.set(1, 0, BigInt::from_i32(1).unwrap());
    a.set(1, 1, BigInt::from_i32(1).unwrap());
    a.set(1, 2, BigInt::from_i32(3).unwrap());
    a.set(1, 3, BigInt::from_i32(-1).unwrap());

    assert_eq!(&BigInt::from_i32(2).unwrap(), a.entry(0, 0));
    assert_eq!(&BigInt::from_i32(2).unwrap(), a.entry(0, 1));
    assert_eq!(&BigInt::from_i32(1).unwrap(), a.entry(0, 2));
    assert_eq!(&BigInt::from_i32(-1).unwrap(), a.entry(0, 3));
    assert_eq!(&BigInt::from_i32(1).unwrap(), a.entry(1, 0));
    assert_eq!(&BigInt::from_i32(1).unwrap(), a.entry(1, 1));
    assert_eq!(&BigInt::from_i32(3).unwrap(), a.entry(1, 2));
    assert_eq!(&BigInt::from_i32(-1).unwrap(), a.entry(1, 3));
}

#[test]
fn tableau_pivoting_works() {
    let n = 2;
    let mut a = Tableau::new(n);
    for i in 0..n {
        for j in 0..n + 2 {
            let value = BigInt::from_usize((i + 1) + j * 10).unwrap();
            a.set(i, j, value);
        }
    }

    assert_eq!(&BigInt::from_i32(1).unwrap(), a.entry(0, 0));
    assert_eq!(&BigInt::from_i32(11).unwrap(), a.entry(0, 1));
    assert_eq!(&BigInt::from_i32(2).unwrap(), a.entry(1, 0));
    assert_eq!(&BigInt::from_i32(12).unwrap(), a.entry(1, 1));

    a.pivot(0, 0).unwrap();

    assert_eq!(&BigInt::from_i32(-1).unwrap(), a.entry(0, 0));
    assert_eq!(&BigInt::from_i32(11).unwrap(), a.entry(0, 1));
    assert_eq!(&BigInt::from_i32(-2).unwrap(), a.entry(1, 0));
    assert_eq!(&BigInt::from_i32(10).unwrap(), a.entry(1, 1));
}

#[test]
fn tableau_negating_col_works() {
    let n = 3;
    let mut a = Tableau::new(n);
    for i in 0..n {
        for j in 0..n + 2 {
            let value = BigInt::from_usize(i + j * 10).unwrap();
            a.set(i, j, value);
        }
    }

    a.negate_col(1);

    assert_eq!(&BigInt::from_i32(20).unwrap(), a.entry(0, 2));
    assert_eq!(&BigInt::from_i32(-10).unwrap(), a.entry(0, 1));
    assert_eq!(&BigInt::from_i32(-11).unwrap(), a.entry(1, 1));
    assert_eq!(&BigInt::from_i32(-12).unwrap(), a.entry(2, 1));
}

#[test]
fn tableau_positive_values_ratio_test_works() {
    let n = 2;
    let mut a = Tableau::new(n);
    for i in 0..n {
        for j in 0..n + 2 {
            let value = BigInt::from_usize((i + 1) + j * 10).unwrap();
            a.set(i, j, value);
        }
    }

    assert_eq!(Ordering::Greater, a.ratio_test(0, 1, 0, 1));
    assert_eq!(Ordering::Less, a.ratio_test(1, 0, 0, 1));
}

#[test]
fn lib_set_and_get_works() {
    let mut a = Tableau::new(3);
    a.set(0, 0, BigInt::from_i32(2).unwrap());
    a.set(0, 1, BigInt::from_i32(2).unwrap());
    a.set(0, 2, BigInt::from_i32(1).unwrap());
    a.set(0, 3, BigInt::from_i32(-1).unwrap());
    a.set(1, 0, BigInt::from_i32(1).unwrap());
    a.set(1, 1, BigInt::from_i32(1).unwrap());
    a.set(1, 2, BigInt::from_i32(3).unwrap());
    a.set(1, 3, BigInt::from_i32(-1).unwrap());

    assert_eq!(&BigInt::from_i32(2).unwrap(), a.entry(0, 0));
    assert_eq!(&BigInt::from_i32(2).unwrap(), a.entry(0, 1));
    assert_eq!(&BigInt::from_i32(1).unwrap(), a.entry(0, 2));
    assert_eq!(&BigInt::from_i32(-1).unwrap(), a.entry(0, 3));
    assert_eq!(&BigInt::from_i32(1).unwrap(), a.entry(1, 0));
    assert_eq!(&BigInt::from_i32(1).unwrap(), a.entry(1, 1));
    assert_eq!(&BigInt::from_i32(3).unwrap(), a.entry(1, 2));
    assert_eq!(&BigInt::from_i32(-1).unwrap(), a.entry(1, 3));
}

#[test]
fn lib_pivoting_works() {
    let n = 2;
    let mut a = Tableau::new(n);
    for i in 0..n {
        for j in 0..n + 2 {
            let value = BigInt::from_usize((i + 1) + j * 10).unwrap();
            a.set(i, j, value);
        }
    }

    assert_eq!(&BigInt::from_i32(1).unwrap(), a.entry(0, 0));
    assert_eq!(&BigInt::from_i32(11).unwrap(), a.entry(0, 1));
    assert_eq!(&BigInt::from_i32(2).unwrap(), a.entry(1, 0));
    assert_eq!(&BigInt::from_i32(12).unwrap(), a.entry(1, 1));

    a.pivot(0, 0).unwrap();

    assert_eq!(&BigInt::from_i32(-1).unwrap(), a.entry(0, 0));
    assert_eq!(&BigInt::from_i32(11).unwrap(), a.entry(0, 1));
    assert_eq!(&BigInt::from_i32(-2).unwrap(), a.entry(1, 0));
    assert_eq!(&BigInt::from_i32(10).unwrap(), a.entry(1, 1));
}

#[test]
fn lib_negating_col_works() {
    let n = 3;
    let mut a = Tableau::new(n);
    for i in 0..n {
        for j in 0..n + 2 {
            let value = BigInt::from_usize(i + j * 10).unwrap();
            a.set(i, j, value);
        }
    }

    a.negate_col(1);

    assert_eq!(&BigInt::from_i32(20).unwrap(), a.entry(0, 2));
    assert_eq!(&BigInt::from_i32(-10).unwrap(), a.entry(0, 1));
    assert_eq!(&BigInt::from_i32(-11).unwrap(), a.entry(1, 1));
    assert_eq!(&BigInt::from_i32(-12).unwrap(), a.entry(2, 1));
}

#[test]
fn lib_positive_values_ratio_test_works() {
    let n = 2;
    let mut a = Tableau::new(n);
    for i in 0..n {
        for j in 0..n + 2 {
            let value = BigInt::from_usize((i + 1) + j * 10).unwrap();
            a.set(i, j, value);
        }
    }

    assert_eq!(Ordering::Greater, a.ratio_test(0, 1, 0, 1));
    assert_eq!(Ordering::Less, a.ratio_test(1, 0, 0, 1));
}

// The determinant starts at -1 and turns positive with the first pivot,
// staying positive from then on.
#[test]
fn determinant_positive_after_pivot() {
    let n = 2;
    let mut a = Tableau::new(n);
    assert_eq!(&BigInt::from_i32(-1).unwrap(), &a.determinant);
    for i in 0..n {
        for j in 0..n + 2 {
            let value = BigInt::from_i64((i as i64 + 1) + j as i64 * 10 - 7).unwrap();
            a.set(i, j, value);
        }
    }
    a.pivot(0, 0).unwrap();
    assert!(a.determinant.is_positive());
    a.pivot(1, 1).unwrap();
    assert!(a.determinant.is_positive());
}

// Antisymmetry of the ratio test, including the tie case.
#[test]
fn ratio_test_antisymmetry_works() {
    let mut a = Tableau::new(2);
    a.set(0, 0, BigInt::from_i32(2).unwrap());
    a.set(0, 1, BigInt::from_i32(3).unwrap());
    a.set(1, 0, BigInt::from_i32(4).unwrap());
    a.set(1, 1, BigInt::from_i32(6).unwrap());
    // equal ratios 3/2 and 6/4
    assert_eq!(Ordering::Equal, a.ratio_test(0, 1, 0, 1));
    assert_eq!(Ordering::Equal, a.ratio_test(1, 0, 0, 1));

    a.set(1, 1, BigInt::from_i32(7).unwrap());
    assert_eq!(Ordering::Less, a.ratio_test(0, 1, 0, 1));
    assert_eq!(Ordering::Greater, a.ratio_test(1, 0, 0, 1));
}
