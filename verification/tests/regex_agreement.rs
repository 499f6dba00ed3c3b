//! The variable scanner is checked against the regular expression that
//! describes an occurrence, `name(?:\^([0-9]+))?`, run by the `regex`
//! crate.

use num_bigint::BigUint;
use polymutate::{checked_mutate_variable_in_equation, is_var_char};
use regex::Regex;

fn with_regex(equation: &str, variable: &str, prime: u64, negative: bool) -> Option<String> {
    let pattern = format!(r"{}(?:\^([0-9]+))?", regex::escape(variable));
    let re = Regex::new(&pattern).unwrap();
    let mut out = String::new();
    let mut last = 0;
    for caps in re.captures_iter(equation) {
        let m = caps.get(0).unwrap();
        let (start, end) = (m.start(), m.end());
        let before_ok = equation[..start].chars().next_back().map_or(true, |c| !is_var_char(c));
        let after_ok = equation[end..].chars().next().map_or(true, |c| !is_var_char(c));
        if !before_ok || !after_ok {
            continue;
        }
        out.push_str(&equation[last..start]);
        let replacement = if let Some(exp_match) = caps.get(1) {
            let exp: u32 = exp_match.as_str().parse().ok()?;
            let scale = BigUint::from(prime).pow(exp);
            if negative && exp % 2 == 1 {
                format!("-{}*{}^{}", scale, variable, exp)
            } else {
                format!("{}*{}^{}", scale, variable, exp)
            }
        } else if negative {
            format!("-{}*{}", prime, variable)
        } else {
            format!("{}*{}", prime, variable)
        };
        out.push_str(&replacement);
        last = end;
    }
    out.push_str(&equation[last..]);
    Some(out)
}

const EQUATIONS: [&str; 16] = [
    "x^2+y",
    "x1*x+xx-x^3",
    "x^^2*x^",
    "-x^12+x^0*y^1",
    "",
    "x",
    "^2+^",
    "x^99999999999",
    "xx^99999999999+x",
    "ab*a*b^2+ba",
    "é^3+x-ü*x^2",
    "x.x^2,x",
    "z_1*z*z^05",
    "(x+1)^2*x^2",
    "a^b^3",
    "1x^2*x1^2",
];

const VARIABLES: [&str; 9] = ["x", "y", "xx", "a", "b", "z", "é", "^", ""];

#[test]
fn scanner_agrees_with_regex() {
    for eq in EQUATIONS {
        for var in VARIABLES {
            for (prime, negative) in [(2u64, false), (3, true), (13, false)] {
                assert_eq!(
                    checked_mutate_variable_in_equation(eq, var, prime, negative),
                    with_regex(eq, var, prime, negative),
                    "equation {:?}, variable {:?}",
                    eq,
                    var
                );
            }
        }
    }
}
