use polymutate::{replace_group_in_equation, split_terms};

fn strings(v: &[&str]) -> Vec<String> {
    v.iter().map(|s| s.to_string()).collect()
}

#[test]
fn splits_before_signs() {
    assert_eq!(split_terms("x+y-z"), strings(&["x", "+y", "-z"]));
    assert_eq!(split_terms("-x+y"), strings(&["-x", "+y"]));
    assert_eq!(split_terms("a^2*b"), strings(&["a^2*b"]));
}

#[test]
fn empty_expression_has_no_terms() {
    assert!(split_terms("").is_empty());
}

#[test]
fn leading_sign_stays_with_first_term() {
    assert_eq!(split_terms("+-x"), strings(&["+", "-x"]));
    assert_eq!(split_terms("é+x"), strings(&["é", "+x"]));
}

#[test]
fn terms_join_back_to_expression() {
    for e in ["x1*x2-3*x3+7", "-a+b-c", "", "+", "x^2--y"] {
        assert_eq!(split_terms(e).concat(), e);
    }
}

#[test]
fn replaces_group_and_keeps_other_factors_in_order() {
    assert_eq!(replace_group_in_equation("x1*x2*x3", &strings(&["x1", "x3"]), "z"), "z*x2");
    assert_eq!(replace_group_in_equation("2*x1*x3", &strings(&["x1", "x3"]), "z"), "z*2");
}

#[test]
fn replaces_in_every_term_keeping_signs() {
    assert_eq!(
        replace_group_in_equation("x1*x2+x3*x1*x2", &strings(&["x1", "x2"]), "z"),
        "z+z*x3"
    );
    assert_eq!(replace_group_in_equation("-x2*x1", &strings(&["x1", "x2"]), "z"), "-z");
}

#[test]
fn terms_without_the_whole_group_stay() {
    assert_eq!(replace_group_in_equation("x1*x2+x3", &strings(&["x1", "x3"]), "z"), "x1*x2+x3");
    assert_eq!(replace_group_in_equation("x1^2*x3", &strings(&["x1", "x3"]), "z"), "x1^2*x3");
}

#[test]
fn group_listing_a_variable_twice_matches_nothing() {
    assert_eq!(replace_group_in_equation("x1*x1*x2", &strings(&["x1", "x1"]), "z"), "x1*x1*x2");
}

#[test]
fn empty_group_prepends_replacement() {
    assert_eq!(replace_group_in_equation("x*y-w", &strings(&[]), "z"), "z*x*y-z*w");
}

#[test]
fn repeated_group_factors_all_leave() {
    assert_eq!(replace_group_in_equation("x1*x2*x1", &strings(&["x1", "x2"]), "z"), "z");
}

#[test]
fn replacing_twice_is_replacing_once() {
    let group = strings(&["x1", "x3"]);
    for e in ["x1*x2*x3-x3*x1+x2", "x1*x3*x1", "-x3*x1*x1^2+x1", ""] {
        let once = replace_group_in_equation(e, &group, "z");
        assert_eq!(replace_group_in_equation(&once, &group, "z"), once);
    }
}
