use polymutate::{
    extract_test_data, mutate, nth_prime_exec, JsonField, JsonObject, MutateError, MutationOutcome,
    MutationRule, Runner, TestData,
};

fn strings(v: &[&str]) -> Vec<String> {
    v.iter().map(|s| s.to_string()).collect()
}

fn array(v: &[&str]) -> JsonField {
    JsonField::Array(v.iter().map(|s| Some(s.to_string())).collect())
}

fn doc(dimension: u64, variables: &[&str], equations: &[&str]) -> JsonObject {
    JsonObject {
        fields: vec![
            ("dimension".to_string(), JsonField::Unsigned(dimension)),
            ("variables".to_string(), array(variables)),
            ("equations".to_string(), array(equations)),
        ],
    }
}

#[test]
fn primes_are_numbered_from_one() {
    assert_eq!(nth_prime_exec(1), 2);
    assert_eq!(nth_prime_exec(2), 3);
    assert_eq!(nth_prime_exec(5), 11);
    assert_eq!(nth_prime_exec(1000), 7919);
}

#[test]
fn extracts_fields_in_any_order() {
    let obj = JsonObject {
        fields: vec![
            ("equations".to_string(), array(&["x+y"])),
            ("other".to_string(), JsonField::Other),
            ("variables".to_string(), array(&["x", "y"])),
            ("dimension".to_string(), JsonField::Unsigned(2)),
        ],
    };
    let data = extract_test_data(&obj).unwrap();
    assert_eq!(data.dimension, 2);
    assert_eq!(data.variables, strings(&["x", "y"]));
    assert_eq!(data.equations, strings(&["x+y"]));
}

#[test]
fn missing_or_mistyped_dimension_is_reported_first() {
    let mut obj = doc(2, &["x"], &["x"]);
    obj.fields[0].1 = JsonField::Other;
    obj.fields[1].1 = JsonField::Other;
    assert_eq!(extract_test_data(&obj).err(), Some(MutateError::InvalidDimension));
    let obj = JsonObject { fields: vec![] };
    assert_eq!(extract_test_data(&obj).err(), Some(MutateError::InvalidDimension));
}

#[test]
fn variables_must_be_an_array_of_strings() {
    let mut obj = doc(2, &["x"], &["x"]);
    obj.fields[1].1 = JsonField::Unsigned(3);
    assert_eq!(extract_test_data(&obj).err(), Some(MutateError::InvalidVariables));
    obj.fields[1].1 = JsonField::Array(vec![Some("x".to_string()), None]);
    assert_eq!(extract_test_data(&obj).err(), Some(MutateError::NonStringVariable));
}

#[test]
fn equations_must_be_an_array_of_strings() {
    let mut obj = doc(2, &["x"], &["x"]);
    obj.fields.pop();
    assert_eq!(extract_test_data(&obj).err(), Some(MutateError::InvalidEquations));
    obj.fields.push(("equations".to_string(), JsonField::Array(vec![None])));
    assert_eq!(extract_test_data(&obj).err(), Some(MutateError::NonStringEquation));
}

#[test]
fn error_messages() {
    assert_eq!(MutateError::InvalidDimension.message(), "missing or invalid names");
    assert_eq!(MutateError::InvalidVariables.message(), "missing or invalid field");
    assert_eq!(MutateError::NonStringVariable.message(), "variables must contain only strings");
    assert_eq!(MutateError::NonStringEquation.message(), "equations must contain only strings");
    assert_eq!(MutateError::InvalidStem.message(), "file name must be valid UTF-8");
}

fn simple(obj: &JsonObject, offset: usize, negative: bool) -> Result<TestData, MutateError> {
    match mutate(&MutationRule::Simple { offset, negative }, Some(obj), Some("t")) {
        Ok(MutationOutcome::Simple(d)) => Ok(d),
        Ok(_) => panic!("unexpected outcome"),
        Err(e) => Err(e),
    }
}

#[test]
fn simple_rule_scales_each_variable_by_its_prime() {
    let obj = doc(2, &["x", "y"], &["x^2+y", "x*y"]);
    let d = simple(&obj, 0, false).unwrap();
    assert_eq!(d.dimension, 2);
    assert_eq!(d.variables, strings(&["x", "y"]));
    assert_eq!(d.equations, strings(&["4*x^2+3*y", "2*x*3*y"]));
}

#[test]
fn simple_rule_offset_moves_to_later_primes() {
    let obj = doc(2, &["x", "y"], &["x+y"]);
    let d = simple(&obj, 1, false).unwrap();
    assert_eq!(d.equations, strings(&["5*x+7*y"]));
}

#[test]
fn simple_rule_negative() {
    let obj = doc(1, &["x"], &["x^3+x^2-x"]);
    let d = simple(&obj, 0, true).unwrap();
    assert_eq!(d.equations, strings(&["-8*x^3+4*x^2--2*x"]));
}

#[test]
fn simple_rule_refuses_prime_index_overflow() {
    let obj = doc(1, &["x"], &["x"]);
    assert_eq!(simple(&obj, usize::MAX, false).err(), Some(MutateError::PrimeIndexTooLarge));
    let obj = doc(0, &[], &["x"]);
    assert_eq!(simple(&obj, usize::MAX, false).unwrap().equations, strings(&["x"]));
}

#[test]
fn simple_rule_refuses_exponent_overflow() {
    let obj = doc(1, &["x"], &["x^99999999999"]);
    assert_eq!(simple(&obj, 0, false).err(), Some(MutateError::ExponentTooLarge));
}

#[test]
fn document_that_is_not_an_object_lacks_its_dimension() {
    let r = mutate(&MutationRule::Complex { length: 2 }, None, Some("t"));
    assert_eq!(r.err(), Some(MutateError::InvalidDimension));
    let r = mutate(&MutationRule::Simple { offset: 0, negative: false }, None, Some("t"));
    assert_eq!(r.err(), Some(MutateError::InvalidDimension));
}

#[test]
fn complex_rule_replaces_groups_that_change_something() {
    let obj = doc(3, &["x1", "x2", "x3"], &["x1*x2+x3", "x2*x3"]);
    let r = mutate(&MutationRule::Complex { length: 2 }, Some(&obj), Some("case"));
    let files = match r {
        Ok(MutationOutcome::Complex(files)) => files,
        _ => panic!("unexpected outcome"),
    };
    assert_eq!(files.len(), 2);
    assert_eq!(files[0].0, "case_z_x1_x2.json");
    assert_eq!(files[0].1.equations, strings(&["z+x3", "x2*x3"]));
    assert_eq!(files[0].1.variables, strings(&["x1", "x2", "x3", "z"]));
    assert_eq!(files[0].1.dimension, 4);
    assert_eq!(files[1].0, "case_z_x2_x3.json");
    assert_eq!(files[1].1.equations, strings(&["x1*x2+x3", "z"]));
}

#[test]
fn complex_rule_does_not_add_z_twice() {
    let obj = doc(3, &["a", "b", "z"], &["a*b"]);
    let r = mutate(&MutationRule::Complex { length: 2 }, Some(&obj), Some("t"));
    let files = match r {
        Ok(MutationOutcome::Complex(files)) => files,
        _ => panic!("unexpected outcome"),
    };
    assert_eq!(files.len(), 1);
    assert_eq!(files[0].1.variables, strings(&["a", "b", "z"]));
    assert_eq!(files[0].1.dimension, 3);
    assert_eq!(files[0].1.equations, strings(&["z"]));
}

#[test]
fn complex_rule_length_out_of_range_is_reported() {
    let obj = doc(3, &["x1", "x2", "x3"], &["x1*x2"]);
    for length in [0, 1, 4] {
        let r = mutate(&MutationRule::Complex { length }, Some(&obj), Some("t"));
        match r {
            Ok(MutationOutcome::LengthOutOfRange { max, got }) => {
                assert_eq!(max, 3);
                assert_eq!(got, length);
            }
            _ => panic!("unexpected outcome"),
        }
    }
}

#[test]
fn complex_rule_needs_a_stem_only_when_writing() {
    let obj = doc(2, &["x1", "x2"], &["x1*x2"]);
    let r = mutate(&MutationRule::Complex { length: 2 }, Some(&obj), None);
    assert_eq!(r.err(), Some(MutateError::InvalidStem));
    let obj = doc(2, &["x1", "x2"], &["x1+x2"]);
    let r = mutate(&MutationRule::Complex { length: 2 }, Some(&obj), None);
    assert!(matches!(r, Ok(MutationOutcome::Complex(files)) if files.is_empty()));
}

#[test]
fn runner_script_and_bin() {
    let r = Runner::new("main.py", Some(".venv/bin/python"));
    let (program, args) = r.invocation();
    assert_eq!(program, ".venv/bin/python");
    assert_eq!(args, strings(&["main.py"]));
    let r = Runner::new("solver", None);
    assert!(matches!(r, Runner::Bin { .. }));
    let (program, args) = r.invocation();
    assert_eq!(program, "solver");
    assert!(args.is_empty());
}
