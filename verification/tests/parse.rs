use lib_xch::failures::ErrorCases;
use lib_xch::treebuilder::ASTTreeBuilder;
use std::collections::HashMap;

fn dict_of(formula: &str) -> HashMap<String, i32> {
    let builder = ASTTreeBuilder::new();
    let tree = builder.parse(formula).unwrap();
    let ad = tree.to_atomdict().unwrap();
    ad.get_dict()
        .iter()
        .map(|(k, v)| (String::from_utf8(k.clone()).unwrap(), *v))
        .collect()
}

fn expect(pairs: &[(&str, i32)]) -> HashMap<String, i32> {
    pairs.iter().map(|(k, v)| (k.to_string(), *v)).collect()
}

fn parse_err(formula: &str) -> bool {
    let builder = ASTTreeBuilder::new();
    matches!(builder.parse(formula), Err(ErrorCases::ParserError(_)))
}

#[test]
fn parse() {
    let builder = ASTTreeBuilder::new();
    assert_eq!(
        builder
            .parse("((NH4)3(PO4.12MoO3<12e->).2H2O)<32e+>") // This chemical formula is unreal
            .unwrap()
            .to_atomdict()
            .unwrap()
            .get_dict()
            .iter()
            .map(|(k, v)| (String::from_utf8(k.clone()).unwrap(), *v))
            .collect::<HashMap<String, i32>>(),
        [
            ("H".to_string(), 16),
            ("e".to_string(), -112),
            ("N".to_string(), 3),
            ("O".to_string(), 42),
            ("P".to_string(), 1),
            ("Mo".to_string(), 12)
        ]
        .iter()
        .cloned()
        .collect::<HashMap<String, i32>>()
    );
}

#[test]
fn water() {
    assert_eq!(dict_of("H2O"), expect(&[("H", 2), ("O", 1)]));
}

#[test]
fn prefix_times_suffix() {
    assert_eq!(dict_of("3(NH4)2"), expect(&[("N", 6), ("H", 24)]));
}

#[test]
fn bare_negative_charge() {
    assert_eq!(dict_of("<12e->"), expect(&[("e", -12)]));
}

#[test]
fn bare_positive_charge() {
    assert_eq!(dict_of("<32e+>"), expect(&[("e", 32)]));
}

#[test]
fn charge_without_operand_defaults_to_one() {
    assert_eq!(dict_of("<e->"), expect(&[("e", -1)]));
}

#[test]
fn dot_groups_are_additive() {
    assert_eq!(
        dict_of("H2O.NaCl"),
        expect(&[("H", 2), ("O", 1), ("Na", 1), ("Cl", 1)])
    );
}

#[test]
fn nested_multipliers_propagate() {
    assert_eq!(dict_of("2(3(4H)5)6"), expect(&[("H", 720)]));
}

#[test]
fn charge_is_scaled_by_the_molecule_multiplier() {
    assert_eq!(dict_of("(2H<3e->)4"), expect(&[("H", 8), ("e", -24)]));
}

#[test]
fn explicit_zero_count_is_retained() {
    assert_eq!(dict_of("H0"), expect(&[("H", 0)]));
}

#[test]
fn repeated_element_accumulates() {
    assert_eq!(dict_of("HOH"), expect(&[("H", 2), ("O", 1)]));
}

#[test]
fn malformed_inputs_are_parser_errors() {
    assert!(parse_err(""));
    assert!(parse_err("(H2O"));
    assert!(parse_err("H2O)"));
    assert!(parse_err("h2o"));
    assert!(parse_err("H2O..NaCl"));
    assert!(parse_err("H2O."));
    assert!(parse_err("3"));
    assert!(parse_err("()"));
    assert!(parse_err("<12e>"));
    assert!(parse_err("<12e-"));
    assert!(parse_err("H2O NaCl"));
}

#[test]
fn numeral_out_of_range_is_a_parser_error() {
    assert!(parse_err("H3000000000"));
}

#[test]
fn count_within_range_parses() {
    assert_eq!(dict_of("H2147483647"), expect(&[("H", 2147483647)]));
}

#[test]
fn reduction_overflow_is_a_parser_error() {
    // both factors parse, their product does not fit the coefficient type
    let builder = ASTTreeBuilder::new();
    let tree = builder.parse("2000000(H2000000)").unwrap();
    assert!(matches!(tree.to_atomdict(), Err(ErrorCases::ParserError(_))));
}

#[test]
fn parse_from_reads_whole_numerals() {
    let builder = ASTTreeBuilder::new();
    assert_eq!(builder.parse_from("12").unwrap(), 12);
    assert_eq!(builder.parse_from("0").unwrap(), 0);
    assert_eq!(builder.parse_from("-12").unwrap(), -12);
    assert_eq!(builder.parse_from("+7").unwrap(), 7);
    assert_eq!(builder.parse_from("2147483647").unwrap(), i32::MAX);
    assert_eq!(builder.parse_from("-2147483648").unwrap(), i32::MIN);
    for bad in ["12a", "", "99999999999", "2147483648", "-2147483649", "-", "+", "--1", "- 1"] {
        assert!(matches!(
            builder.parse_from(bad),
            Err(ErrorCases::ParserError(_))
        ));
    }
}
