use lib_xch::failures::ErrorCases;
use lib_xch::structs::ChemicalEquation;
use lib_xch::table::{get_token, TableDesc};

#[test]
fn store_two_formulas() {
    let mut t = TableDesc::new(2);
    assert_eq!(t.store_in_table("H2O", 0, false).unwrap(), true);
    assert_eq!(t.store_in_table("H2", 1, true).unwrap(), true);
    assert_eq!(t.get_list(), vec![vec![2, -2], vec![1, 0]]);
}

#[test]
fn get_list_is_an_idempotent_read() {
    let mut t = TableDesc::new(2);
    t.store_in_table("H2O", 0, false).unwrap();
    let a = t.get_list();
    let b = t.get_list();
    assert_eq!(a, b);
}

#[test]
fn discovered_elements_never_shrink() {
    let mut t = TableDesc::new(3);
    t.store_in_table("H2O", 0, false).unwrap();
    let rows_after_first = t.get_list().len();
    assert_eq!(rows_after_first, 2);
    t.store_in_table("H2", 1, false).unwrap();
    assert_eq!(t.get_list().len(), 2);
    t.store_in_table("NaCl", 2, false).unwrap();
    assert_eq!(t.get_list().len(), 4);
}

#[test]
fn malformed_formula_changes_nothing() {
    let mut t = TableDesc::new(2);
    t.store_in_table("H2O", 0, false).unwrap();
    let before = t.get_list();
    assert!(matches!(
        t.store_in_table("(H2O", 1, false),
        Err(ErrorCases::ParserError(_))
    ));
    assert_eq!(t.get_list(), before);
}

#[test]
fn cell_overflow_is_reported_and_elements_are_kept() {
    let mut t = TableDesc::new(1);
    t.store_in_table("H2000000000", 0, false).unwrap();
    // the second addition into the same cell leaves the coefficient range
    assert!(matches!(
        t.store_in_table("H2000000000", 0, false),
        Err(ErrorCases::ParserError(_))
    ));
    // the element stays discovered and the cell keeps its stored value
    assert_eq!(t.get_list(), vec![vec![2000000000]]);
}

#[test]
fn same_cell_accumulates_across_calls() {
    let mut t = TableDesc::new(1);
    t.store_in_table("H2O", 0, false).unwrap();
    t.store_in_table("H2O", 0, false).unwrap();
    assert_eq!(t.get_list(), vec![vec![4], vec![2]]);
}

#[test]
fn update_list_vec_appends_a_zero_row() {
    let mut t = TableDesc::new(3);
    t.update_list_vec();
    assert_eq!(t.get_list(), vec![vec![0, 0, 0]]);
}

#[test]
fn get_token_flattens_the_pipeline() {
    let toks = get_token("H2O").unwrap();
    let pairs: Vec<(String, i32)> = toks
        .iter()
        .map(|t| (String::from_utf8(t.token_name.clone()).unwrap(), t.times))
        .collect();
    assert_eq!(pairs, vec![("H".to_string(), 2), ("O".to_string(), 1)]);
    assert!(matches!(
        get_token("Zz("),
        Err(ErrorCases::ParserError(_))
    ));
}

#[test]
fn chemical_equation_starts_zeroed() {
    let eq = ChemicalEquation::new();
    assert_eq!(eq.left, 0);
    assert_eq!(eq.right, 0);
    assert_eq!(eq.sum, 0);
}
