use lemke::tableau_vars::TableauVariables;

#[test]
fn lcp_variable_assignments_work() {
    let vars = TableauVariables::new(4);

    for i in 0..vars.n + 1 {
        let zi = vars.z(i);
        assert_eq!(i, zi.value); // z(i) should equal i
        assert_eq!(i, vars.to_col(&zi)); // col(z(i)) should equal i
        assert_eq!(zi.value, vars.from_col(i).value); // var(col(z(i))) = var(i) should equal z(i)
        assert_eq!(false, vars.is_basic(&zi)); // z(i) should NOT be basic
    }

    for i in 1..vars.n + 1 {
        let wi = vars.w(i);
        assert_eq!(i + vars.n, wi.value); // w(i) should equal i + n
        assert_eq!(i - 1, vars.to_row(&wi)); // row(w(i)) should equal i - 1 (w is 1-indexed)
        assert_eq!(wi.value, vars.from_row(i - 1).value); // var(row(w(i - 1))) = var(i - 1) should equal w(i)
        assert_eq!(true, vars.is_basic(&wi)); // w(i) should be basic
    }
}

#[test]
fn lcp_complement_works() {
    let vars = TableauVariables::new(4);

    for i in 1..vars.n + 1 {
        let comp_var = vars.z(i).complement();
        assert_eq!(vars.w(i).value, comp_var.value); // w(i) should be complement of z(i)
    }
}

#[test]
fn lcp_swap_works() {
    let mut vars = TableauVariables::new(4);

    let leave_var = vars.w(1); // first row, w(1) = 4
    assert_eq!(true, vars.is_basic(&leave_var)); // leaving var should be basic
    assert_eq!(0, vars.to_row(&leave_var)); // w(1) points to row 0

    let enter_var = vars.z(0); // first col, z(0) = 0
    assert_eq!(false, vars.is_basic(&enter_var)); // entering var should be cobasic
    assert_eq!(0, vars.to_col(&enter_var)); // z(0) points to col 0

    let (row, col) = vars.swap(&enter_var, &leave_var);

    assert_eq!(0, col); // col should be original col(w1)
    assert_eq!(0, row); // row should be original row(z0)

    assert_eq!(leave_var.value, vars.from_col(col).value); // w1 should be var(col)
    assert_eq!(enter_var.value, vars.from_row(row).value); // z0 should be var(row)
}

#[test]
fn tableau_vars_variable_assignments_work() {
    let vars = TableauVariables::new(4);

    for i in 0..vars.n + 1 {
        let zi = vars.z(i);
        assert_eq!(i, zi.value); // z(i) should equal i
        assert_eq!(i, vars.to_col(&zi)); // col(z(i)) should equal i
        assert_eq!(zi, vars.from_col(i)); // var(col(z(i))) = var(i) should equal z(i)
        assert_eq!(false, vars.is_basic(&zi)); // z(i) should NOT be basic
    }

    for i in 1..vars.n + 1 {
        let wi = vars.w(i);
        assert_eq!(i + vars.n, wi.value); // w(i) should equal i + n
        assert_eq!(i - 1, vars.to_row(&wi)); // row(w(i)) should equal i - 1 (w is 1-indexed)
        assert_eq!(wi, vars.from_row(i - 1)); // var(row(w(i - 1))) = var(i - 1) should equal w(i)
        assert_eq!(true, vars.is_basic(&wi)); // w(i) should be basic
    }
}

#[test]
fn tableau_vars_complement_works() {
    let vars = TableauVariables::new(4);

    for i in 1..vars.n + 1 {
        let comp_var = vars.z(i).complement();
        assert_eq!(vars.w(i), comp_var); // w(i) should be complement of z(i)
    }
}

#[test]
fn tableau_vars_swap_works() {
    let mut vars = TableauVariables::new(4);

    let leave_var = vars.w(1); // first row, w(1) = 4
    assert_eq!(true, vars.is_basic(&leave_var)); // leaving var should be basic
    assert_eq!(0, vars.to_row(&leave_var)); // w(1) points to row 0

    let enter_var = vars.z(0); // first col, z(0) = 0
    assert_eq!(false, vars.is_basic(&enter_var)); // entering var should be cobasic
    assert_eq!(0, vars.to_col(&enter_var)); // z(0) points to col 0

    let (row, col) = vars.swap(&enter_var, &leave_var);

    assert_eq!(0, col); // col should be original col(w1)
    assert_eq!(0, row); // row should be original row(z0)

    assert_eq!(leave_var, vars.from_col(col)); // w1 should be var(col)
    assert_eq!(enter_var, vars.from_row(row)); // z0 should be var(row)
}

// Complement involution: complement(complement(v)) == v for every
// variable except z0.
#[test]
fn complement_involution_holds() {
    let vars = TableauVariables::new(5);
    for i in 1..vars.n + 1 {
        assert_eq!(vars.z(i), vars.z(i).complement().complement());
        assert_eq!(vars.w(i), vars.w(i).complement().complement());
    }
}

#[test]
fn variable_kind_predicates_work() {
    let vars = TableauVariables::new(3);
    assert!(vars.z(0).is_z());
    assert!(vars.z(0).is_z0());
    assert!(!vars.z(0).is_w());
    assert!(vars.z(3).is_z());
    assert!(!vars.z(3).is_z0());
    assert!(vars.w(1).is_w());
    assert!(!vars.w(1).is_z());
    assert!(!vars.w(3).is_z0());
    assert_eq!(4, vars.rhs_col());
}

// The position maps stay mutually inverse after swaps, and exactly n
// variables are basic.
#[test]
fn bijection_and_basis_count_after_swaps() {
    let mut vars = TableauVariables::new(4);

    let w1 = vars.w(1);
    let z0 = vars.z(0);
    vars.swap(&z0, &w1);
    let w3 = vars.w(3);
    let z2 = vars.z(2);
    vars.swap(&z2, &w3);

    let mut basic_count = 0;
    for v in 0..2 * vars.n + 1 {
        let var = if v <= vars.n { vars.z(v) } else { vars.w(v - vars.n) };
        if vars.is_basic(&var) {
            basic_count += 1;
            let row = vars.to_row(&var);
            assert_eq!(var.value, vars.from_row(row).value); // round trip over rows
        } else {
            let col = vars.to_col(&var);
            assert_eq!(var.value, vars.from_col(col).value); // round trip over columns
        }
    }
    assert_eq!(vars.n, basic_count); // exactly n basic variables
}
