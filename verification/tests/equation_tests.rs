use polymutate::{checked_mutate_variable_in_equation, is_var_char, mutate_variable_in_equation};

#[test]
fn var_chars_are_ascii_alphanumerics_and_underscore() {
    for c in ['a', 'z', 'A', 'Z', '0', '9', '_'] {
        assert!(is_var_char(c));
    }
    for c in ['+', '-', '*', '^', ' ', 'é', '.', '('] {
        assert!(!is_var_char(c));
    }
}

#[test]
fn scales_plain_occurrence_by_prime() {
    assert_eq!(mutate_variable_in_equation("x+y", "x", 2, false), "2*x+y");
}

#[test]
fn scales_power_by_prime_power() {
    assert_eq!(mutate_variable_in_equation("x^2+y", "x", 3, false), "9*x^2+y");
}

#[test]
fn negative_flips_plain_and_odd_powers_only() {
    assert_eq!(mutate_variable_in_equation("x^3-x", "x", 2, true), "-8*x^3--2*x");
    assert_eq!(mutate_variable_in_equation("x^2", "x", 2, true), "4*x^2");
}

#[test]
fn occurrences_inside_longer_names_are_left_alone() {
    assert_eq!(mutate_variable_in_equation("x1*x+xx", "x", 5, false), "x1*5*x+xx");
    assert_eq!(mutate_variable_in_equation("ax^2", "x", 5, false), "ax^2");
}

#[test]
fn exponent_is_written_without_leading_zeros() {
    assert_eq!(mutate_variable_in_equation("x^007", "x", 2, false), "128*x^7");
}

#[test]
fn caret_without_digits_is_not_an_exponent() {
    assert_eq!(mutate_variable_in_equation("x^", "x", 2, false), "2*x^");
}

#[test]
fn large_powers_are_exact() {
    assert_eq!(
        mutate_variable_in_equation("x^40", "x", 7, false),
        "6366805760909027985741435139224001*x^40"
    );
}

#[test]
fn zero_exponent_gives_scale_one() {
    assert_eq!(mutate_variable_in_equation("x^0", "x", 0, false), "1*x^0");
}

#[test]
fn largest_u32_exponent_is_accepted() {
    assert_eq!(
        checked_mutate_variable_in_equation("x^4294967295", "x", 1, false),
        Some("1*x^4294967295".to_string())
    );
}

#[test]
fn exponent_beyond_u32_is_refused() {
    assert_eq!(checked_mutate_variable_in_equation("x^4294967296", "x", 2, false), None);
}

#[test]
fn exponent_of_a_non_standalone_occurrence_is_not_read() {
    assert_eq!(
        checked_mutate_variable_in_equation("xx^99999999999", "x", 2, false),
        Some("xx^99999999999".to_string())
    );
}

#[test]
fn absent_variable_leaves_equation_unchanged() {
    assert_eq!(mutate_variable_in_equation("a*b+c^2", "x", 11, true), "a*b+c^2");
}

#[test]
fn non_ascii_text_is_kept() {
    assert_eq!(mutate_variable_in_equation("é+x-ü", "x", 3, false), "é+3*x-ü");
}
