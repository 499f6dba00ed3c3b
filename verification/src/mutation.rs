//! The two mutation rules: scaling every variable by its own prime, and
//! replacing groups of variables by a fresh one; and the validation of the
//! test documents they start from.

use vstd::prelude::*;
use crate::equation::{checked_mutate_variable_in_equation, spec_mutate_variable};
use crate::primes::{nth_prime, nth_prime_exec, prime_index_bound, prime_index_bound_exec};
use crate::combinations::{
    combos, index_combinations, is_combination, lemma_combos_complete, lemma_combos_sound,
    lemma_index_combinations_sound, rows,
};
use crate::terms::{join_with, replace_group_in_equation, spec_replace_group, string_views};
use crate::text::{chars_eq, chars_of};
use crate::types::{JsonField, JsonObject, MutateError, MutationRule, TestData};
use crate::names::{json_suffix, mutated_file_name};

verus! {

/// The first field of the object named `key`.
pub open spec fn lookup(fields: Seq<(String, JsonField)>, key: Seq<char>) -> Option<JsonField>
    decreases fields.len(),
{
    if fields.len() == 0 {
        None
    } else if fields[0].0@ == key {
        Some(fields[0].1)
    } else {
        lookup(fields.drop_first(), key)
    }
}

/// The items as strings, if every item is a string.
pub open spec fn string_items(items: Seq<Option<String>>) -> Option<Seq<Seq<char>>> {
    if forall|i: int| 0 <= i < items.len() ==> items[i] is Some {
        Some(items.map_values(|x: Option<String>| match x {
            Some(s) => s@,
            None => Seq::<char>::empty(),
        }))
    } else {
        None
    }
}

/// What a test document yields: its dimension, its variables and its
/// equations, or the first reason why it has none of them (checked in the
/// order dimension, variables, equations).
pub open spec fn spec_extract(obj: JsonObject) -> Result<(u64, Seq<Seq<char>>, Seq<Seq<char>>), MutateError> {
    match lookup(obj.fields@, "dimension"@) {
        Some(JsonField::Unsigned(d)) => match lookup(obj.fields@, "variables"@) {
            Some(JsonField::Array(vs)) => match string_items(vs@) {
                None => Err(MutateError::NonStringVariable),
                Some(vars) => match lookup(obj.fields@, "equations"@) {
                    Some(JsonField::Array(es)) => match string_items(es@) {
                        None => Err(MutateError::NonStringEquation),
                        Some(eqs) => Ok((d, vars, eqs)),
                    },
                    _ => Err(MutateError::InvalidEquations),
                },
            },
            _ => Err(MutateError::InvalidVariables),
        },
        _ => Err(MutateError::InvalidDimension),
    }
}

fn find_field<'a>(fields: &'a Vec<(String, JsonField)>, key: &str) -> (r: Option<&'a JsonField>)
    ensures
        match r {
            None => lookup(fields@, key@) is None,
            Some(f) => lookup(fields@, key@) == Some(*f),
        },
{
    let k = chars_of(key);
    let mut i: usize = 0;
    assert(fields@.subrange(0, fields.len() as int) == fields@);
    while i < fields.len()
        invariant
            i <= fields.len(),
            k@ == key@,
            lookup(fields@, key@) == lookup(fields@.subrange(i as int, fields.len() as int), key@),
        decreases fields.len() - i,
    {
        let ghost rest = fields@.subrange(i as int, fields.len() as int);
        assert(rest.drop_first() == fields@.subrange(i + 1, fields.len() as int));
        assert(rest[0] == fields@[i as int]);
        let name = chars_of(fields[i].0.as_str());
        if chars_eq(&name, &k) {
            return Some(&fields[i].1);
        }
        i = i + 1;
    }
    None
}

fn collect_strings(items: &Vec<Option<String>>) -> (r: Option<Vec<String>>)
    ensures
        match r {
            None => string_items(items@) is None,
            Some(v) => string_items(items@) == Some(string_views(v@)),
        },
{
    let mut out: Vec<String> = Vec::new();
    let mut i: usize = 0;
    while i < items.len()
        invariant
            i <= items.len(),
            out@.len() == i,
            forall|j: int| 0 <= j < i ==> items@[j] is Some,
            forall|j: int| 0 <= j < i ==> (#[trigger] items@[j] matches Some(s) && s@ == out@[j]@),
        decreases items.len() - i,
    {
        match &items[i] {
            None => {
                return None;
            },
            Some(s) => {
                out.push(s.clone());
            },
        }
        i = i + 1;
    }
    let ghost mapped = items@.map_values(|x: Option<String>| match x {
        Some(s) => s@,
        None => Seq::<char>::empty(),
    });
    assert(mapped =~= string_views(out@));
    Some(out)
}

/// Reads the dimension, the variables and the equations of a test
/// document, in that order, and reports the first that is missing or has
/// the wrong type.
pub fn extract_test_data(obj: &JsonObject) -> (r: Result<TestData, MutateError>)
    ensures
        match (r, spec_extract(*obj)) {
            (Ok(data), Ok((d, vars, eqs))) => data.dimension == d && string_views(data.variables@) == vars
                && string_views(data.equations@) == eqs,
            (Err(e), Err(e2)) => e == e2,
            _ => false,
        },
{
    let dimension = match find_field(&obj.fields, "dimension") {
        Some(JsonField::Unsigned(d)) => *d,
        _ => {
            return Err(MutateError::InvalidDimension);
        },
    };
    let variables = match find_field(&obj.fields, "variables") {
        Some(JsonField::Array(items)) => match collect_strings(items) {
            Some(v) => v,
            None => {
                return Err(MutateError::NonStringVariable);
            },
        },
        _ => {
            return Err(MutateError::InvalidVariables);
        },
    };
    let equations = match find_field(&obj.fields, "equations") {
        Some(JsonField::Array(items)) => match collect_strings(items) {
            Some(v) => v,
            None => {
                return Err(MutateError::NonStringEquation);
            },
        },
        _ => {
            return Err(MutateError::InvalidEquations);
        },
    };
    Ok(TestData { dimension, variables, equations })
}


/// Every equation with `var` scaled by `prime`; `None` where some
/// equation has an exponent of `var` that does not fit in a `u32`.
pub open spec fn scale_all(eqs: Seq<Seq<char>>, var: Seq<char>, prime: u64, negative: bool) -> Option<Seq<Seq<char>>>
    decreases eqs.len(),
{
    if eqs.len() == 0 {
        Some(seq![])
    } else {
        match scale_all(eqs.drop_last(), var, prime, negative) {
            None => None,
            Some(done) => match spec_mutate_variable(eqs.last(), var, prime, negative) {
                None => None,
                Some(e) => Some(done.push(e)),
            },
        }
    }
}

/// The equations after the first `k` variables have been scaled in turn;
/// the variable at index `i` is scaled by the prime numbered
/// `i + len * offset + 1`, where `len` is the number of variables.
pub open spec fn scale_first(eqs: Seq<Seq<char>>, vars: Seq<Seq<char>>, k: nat, offset: nat, negative: bool) -> Option<Seq<Seq<char>>>
    decreases k,
{
    if k == 0 {
        Some(eqs)
    } else {
        match scale_first(eqs, vars, (k - 1) as nat, offset, negative) {
            None => None,
            Some(e) => scale_all(
                e,
                vars[k - 1],
                nth_prime((k - 1 + vars.len() * offset + 1) as nat) as u64,
                negative,
            ),
        }
    }
}

/// The equations after the simple rule with the given offset: every
/// variable in turn scaled by its own prime; `None` where an exponent that
/// would be rewritten does not fit in a `u32`.
pub open spec fn spec_mutate_simple(vars: Seq<Seq<char>>, eqs: Seq<Seq<char>>, offset: nat, negative: bool) -> Option<Seq<Seq<char>>> {
    scale_first(eqs, vars, vars.len(), offset, negative)
}

/// The simple rule: each variable, in order, is scaled in every equation by
/// its own prime, the one numbered `index + len * offset + 1`; the
/// dimension and the variables stay. `None` where an exponent that would be
/// rewritten does not fit in a `u32`.
pub fn checked_mutate_simple(data: TestData, offset: usize, negative: bool) -> (r: Option<TestData>)
    requires
        data.variables.len() * (offset + 1) <= prime_index_bound(),
        data.variables.len() * (offset + 1) <= usize::MAX,
    ensures
        match r {
            None => spec_mutate_simple(string_views(data.variables@), string_views(data.equations@), offset as nat, negative) is None,
            Some(out) => {
                &&& spec_mutate_simple(string_views(data.variables@), string_views(data.equations@), offset as nat, negative)
                    == Some(string_views(out.equations@))
                &&& out.dimension == data.dimension
                &&& string_views(out.variables@) == string_views(data.variables@)
            },
        },
{
    let TestData { dimension, variables, equations } = data;
    let ghost vars = string_views(variables@);
    let ghost eqs0 = string_views(equations@);
    let n = variables.len();
    assert(vars == string_views(data.variables@));
    assert(eqs0 == string_views(data.equations@));
    proof {
        assert(n * offset <= n * (offset + 1)) by (nonlinear_arith);
    }
    let base = n * offset;
    let mut eqs = equations;
    let mut var_i: usize = 0;
    while var_i < n
        invariant
            n == variables.len(),
            base == n * offset,
            n * (offset + 1) <= prime_index_bound(),
            n * (offset + 1) <= usize::MAX,
            var_i <= n,
            vars == string_views(variables@),
            vars == string_views(data.variables@),
            eqs0 == string_views(data.equations@),
            scale_first(eqs0, vars, var_i as nat, offset as nat, negative) == Some(string_views(eqs@)),
        decreases n - var_i,
    {
        proof {
            assert(var_i + base + 1 <= n * (offset + 1)) by (nonlinear_arith)
                requires
                    var_i < n,
                    base == n * offset,
            ;
        }
        let prime = nth_prime_exec(var_i + base + 1);
        let ghost before = string_views(eqs@);
        let mut j: usize = 0;
        while j < eqs.len()
            invariant
                j <= eqs.len(),
                eqs.len() == before.len(),
                var_i < variables.len(),
                n == variables.len(),
                vars == string_views(variables@),
                vars == string_views(data.variables@),
                eqs0 == string_views(data.equations@),
                base == n * offset,
                prime as nat == nth_prime((var_i + base + 1) as nat),
                scale_first(eqs0, vars, var_i as nat, offset as nat, negative) == Some(before),
                forall|k: int| j <= k < eqs.len() ==> eqs@[k]@ == before[k],
                scale_all(before.take(j as int), variables@[var_i as int]@, prime, negative)
                    == Some(string_views(eqs@).take(j as int)),
            decreases eqs.len() - j,
        {
            assert(before.take(j + 1).drop_last() == before.take(j as int));
            assert(before.take(j + 1).last() == eqs@[j as int]@);
            match checked_mutate_variable_in_equation(eqs[j].as_str(), variables[var_i].as_str(), prime, negative) {
                None => {
                    proof {
                        lemma_scale_all_fails(before, variables@[var_i as int]@, prime, negative, j + 1);
                        assert(vars[var_i as int] == variables@[var_i as int]@);
                        lemma_scale_first_fails(eqs0, vars, (var_i + 1) as nat, n as nat, offset as nat, negative);
                    }
                    return None;
                },
                Some(m) => {
                    let ghost prev = string_views(eqs@);
                    eqs.set(j, m);
                    assert(string_views(eqs@).take(j + 1) =~= prev.take(j as int).push(m@));
                },
            }
            j = j + 1;
        }
        assert(before.take(eqs.len() as int) == before);
        assert(string_views(eqs@).take(eqs.len() as int) == string_views(eqs@));
        assert(vars[var_i as int] == variables@[var_i as int]@);
        var_i = var_i + 1;
    }
    Some(TestData { dimension, variables, equations: eqs })
}

proof fn lemma_scale_all_fails(eqs: Seq<Seq<char>>, var: Seq<char>, prime: u64, negative: bool, j: int)
    requires
        0 < j <= eqs.len(),
        scale_all(eqs.take(j), var, prime, negative) is None,
    ensures
        scale_all(eqs, var, prime, negative) is None,
    decreases eqs.len() - j,
{
    if j < eqs.len() {
        assert(eqs.take(j + 1).drop_last() == eqs.take(j));
        lemma_scale_all_fails(eqs, var, prime, negative, j + 1);
    } else {
        assert(eqs.take(j) == eqs);
    }
}

proof fn lemma_scale_first_fails(eqs: Seq<Seq<char>>, vars: Seq<Seq<char>>, k: nat, n: nat, offset: nat, negative: bool)
    requires
        k <= n,
        scale_first(eqs, vars, k, offset, negative) is None,
    ensures
        scale_first(eqs, vars, n, offset, negative) is None,
    decreases n - k,
{
    if k < n {
        lemma_scale_first_fails(eqs, vars, k + 1, n, offset, negative);
    }
}

/// The simple rule, where no exponent that it rewrites overflows a `u32`:
/// each variable, in order, is scaled in every equation by its own prime,
/// the one numbered `index + len * offset + 1`; the dimension and the
/// variables stay.
pub fn mutate_simple(data: TestData, offset: usize, negative: bool) -> (out: TestData)
    requires
        data.variables.len() * (offset + 1) <= prime_index_bound(),
        data.variables.len() * (offset + 1) <= usize::MAX,
        spec_mutate_simple(string_views(data.variables@), string_views(data.equations@), offset as nat, negative) is Some,
    ensures
        spec_mutate_simple(string_views(data.variables@), string_views(data.equations@), offset as nat, negative)
            == Some(string_views(out.equations@)),
        out.dimension == data.dimension,
        string_views(out.variables@) == string_views(data.variables@),
{
    checked_mutate_simple(data, offset, negative).unwrap()
}


/// The name of the variable that replaces a group.
pub open spec fn group_variable() -> Seq<char> {
    seq!['z']
}

/// The variables at the given indexes.
pub open spec fn group_of(vars: Seq<Seq<char>>, idx: Seq<usize>) -> Seq<Seq<char>> {
    idx.map_values(|i: usize| vars[i as int])
}

/// Every equation with the group replaced by the group variable.
pub open spec fn replaced_all(eqs: Seq<Seq<char>>, group: Seq<Seq<char>>) -> Seq<Seq<char>> {
    eqs.map_values(|e: Seq<char>| spec_replace_group(e, group, group_variable()))
}

/// The variables with the group variable added, unless it is there already.
pub open spec fn with_group_variable(vars: Seq<Seq<char>>) -> Seq<Seq<char>> {
    if vars.contains(group_variable()) {
        vars
    } else {
        vars.push(group_variable())
    }
}

/// For each index list in turn whose group changes some equation: the
/// group, the new variables and the new equations.
pub open spec fn complex_from(vars: Seq<Seq<char>>, eqs: Seq<Seq<char>>, cs: Seq<Seq<usize>>) -> Seq<(Seq<Seq<char>>, Seq<Seq<char>>, Seq<Seq<char>>)>
    decreases cs.len(),
{
    if cs.len() == 0 {
        seq![]
    } else {
        let done = complex_from(vars, eqs, cs.drop_last());
        let g = group_of(vars, cs.last());
        let m = replaced_all(eqs, g);
        if m == eqs {
            done
        } else {
            done.push((g, with_group_variable(vars), m))
        }
    }
}

/// The complex rule with groups of `length` variables: `None` unless
/// `2 <= length <= vars.len()`; else, for every group in the order of
/// `index_combinations`, the mutation it makes, when it changes an
/// equation.
pub open spec fn spec_complex_mutations(vars: Seq<Seq<char>>, eqs: Seq<Seq<char>>, length: int) -> Option<Seq<(Seq<Seq<char>>, Seq<Seq<char>>, Seq<Seq<char>>)>> {
    if length <= 1 || length > vars.len() {
        None
    } else {
        Some(complex_from(vars, eqs, combos(0, vars.len() as int, length)))
    }
}

/// One test made by the complex rule: the group it replaced, and the test.
pub struct GroupMutation {
    pub group: Vec<String>,
    pub data: TestData,
}

/// The group, the variables and the equations of a group mutation.
pub open spec fn mutation_view(m: GroupMutation) -> (Seq<Seq<char>>, Seq<Seq<char>>, Seq<Seq<char>>) {
    (string_views(m.group@), string_views(m.data.variables@), string_views(m.data.equations@))
}

fn strings_eq(a: &Vec<String>, b: &Vec<String>) -> (r: bool)
    ensures
        r == (string_views(a@) == string_views(b@)),
{
    if a.len() != b.len() {
        return false;
    }
    let mut i: usize = 0;
    while i < a.len()
        invariant
            a.len() == b.len(),
            i <= a.len(),
            forall|j: int| 0 <= j < i ==> a@[j]@ == b@[j]@,
        decreases a.len() - i,
    {
        if a[i] != b[i] {
            assert(string_views(a@)[i as int] != string_views(b@)[i as int]);
            return false;
        }
        i = i + 1;
    }
    assert(string_views(a@) =~= string_views(b@));
    true
}

fn clone_strings(v: &Vec<String>) -> (r: Vec<String>)
    ensures
        string_views(r@) == string_views(v@),
{
    let mut r: Vec<String> = Vec::new();
    let mut i: usize = 0;
    while i < v.len()
        invariant
            i <= v.len(),
            string_views(r@) == string_views(v@).take(i as int),
        decreases v.len() - i,
    {
        let ghost prev = r@;
        r.push(v[i].clone());
        assert(string_views(r@) =~= string_views(prev).push(v@[i as int]@));
        assert(string_views(v@).take(i + 1) =~= string_views(v@).take(i as int).push(v@[i as int]@));
        i = i + 1;
    }
    assert(string_views(v@).take(v.len() as int) =~= string_views(v@));
    r
}

fn contains_string(v: &Vec<String>, x: &String) -> (r: bool)
    ensures
        r == string_views(v@).contains(x@),
{
    let mut i: usize = 0;
    while i < v.len()
        invariant
            i <= v.len(),
            forall|j: int| 0 <= j < i ==> v@[j]@ != x@,
        decreases v.len() - i,
    {
        if v[i] == *x {
            assert(string_views(v@)[i as int] == x@);
            return true;
        }
        i = i + 1;
    }
    false
}

/// The mutation that one group makes: `None` where it changes no equation.
fn mutate_group(variables: &Vec<String>, equations: &Vec<String>, indexes: &Vec<usize>) -> (r: Option<GroupMutation>)
    requires
        forall|i: int| 0 <= i < indexes.len() ==> indexes@[i] < variables.len(),
    ensures
        ({
            let g = group_of(string_views(variables@), indexes@);
            let m = replaced_all(string_views(equations@), g);
            match r {
                None => m == string_views(equations@),
                Some(gm) => m != string_views(equations@) && mutation_view(gm) == (
                    g,
                    with_group_variable(string_views(variables@)),
                    m,
                ) && gm.data.dimension == gm.data.variables.len(),
            }
        }),
{
    let ghost vars = string_views(variables@);
    let mut group: Vec<String> = Vec::new();
    let mut i: usize = 0;
    while i < indexes.len()
        invariant
            i <= indexes.len(),
            vars == string_views(variables@),
            forall|k: int| 0 <= k < indexes.len() ==> indexes@[k] < variables.len(),
            string_views(group@) == group_of(vars, indexes@).take(i as int),
        decreases indexes.len() - i,
    {
        let ghost prev = group@;
        group.push(variables[indexes[i]].clone());
        assert(string_views(group@) =~= string_views(prev).push(vars[indexes@[i as int] as int]));
        assert(group_of(vars, indexes@).take(i + 1) =~= group_of(vars, indexes@).take(i as int).push(
            vars[indexes@[i as int] as int],
        ));
        i = i + 1;
    }
    assert(group_of(vars, indexes@).take(indexes.len() as int) =~= group_of(vars, indexes@));
    let replacement = "z";
    proof {
        reveal_strlit("z");
    }
    assert(replacement@ == group_variable());
    let ghost g = group_of(vars, indexes@);
    let ghost eqs = string_views(equations@);
    let mut mutated: Vec<String> = Vec::new();
    let mut j: usize = 0;
    while j < equations.len()
        invariant
            j <= equations.len(),
            eqs == string_views(equations@),
            string_views(group@) == g,
            replacement@ == group_variable(),
            string_views(mutated@) == replaced_all(eqs, g).take(j as int),
        decreases equations.len() - j,
    {
        let e = replace_group_in_equation(equations[j].as_str(), group.as_slice(), replacement);
        let ghost prev = mutated@;
        mutated.push(e);
        assert(string_views(mutated@) =~= string_views(prev).push(e@));
        assert(replaced_all(eqs, g).take(j + 1) =~= replaced_all(eqs, g).take(j as int).push(
            spec_replace_group(eqs[j as int], g, group_variable()),
        ));
        j = j + 1;
    }
    assert(replaced_all(eqs, g).take(equations.len() as int) =~= replaced_all(eqs, g));
    if strings_eq(&mutated, equations) {
        return None;
    }
    let mut new_variables = clone_strings(variables);
    let z = replacement.to_owned();
    if !contains_string(&new_variables, &z) {
        let ghost prev = new_variables@;
        new_variables.push(z);
        assert(string_views(new_variables@) =~= string_views(prev).push(group_variable()));
    }
    let dimension = new_variables.len() as u64;
    Some(GroupMutation { group, data: TestData { dimension, variables: new_variables, equations: mutated } })
}

/// The complex rule: every group of `length` variables, in the order of
/// `index_combinations`, replaced by the variable `z` in every equation;
/// groups that change no equation are skipped. Each test gets `z` among
/// its variables (once) and the number of its variables as dimension.
/// `None` unless `2 <= length <= variables.len()`.
pub fn complex_mutations(data: &TestData, length: usize) -> (r: Option<Vec<GroupMutation>>)
    ensures
        match r {
            None => spec_complex_mutations(string_views(data.variables@), string_views(data.equations@), length as int) is None,
            Some(ms) => {
                &&& spec_complex_mutations(string_views(data.variables@), string_views(data.equations@), length as int)
                    == Some(ms@.map_values(|m: GroupMutation| mutation_view(m)))
                &&& forall|i: int| 0 <= i < ms.len() ==> (#[trigger] ms@[i]).data.dimension == ms@[i].data.variables.len()
            },
        },
{
    let n = data.variables.len();
    if length <= 1 || length > n {
        return None;
    }
    let ghost vars = string_views(data.variables@);
    let ghost eqs = string_views(data.equations@);
    let combinations = index_combinations(n, length);
    proof {
        lemma_index_combinations_sound(n, length);
    }
    let ghost cs = rows(combinations@);
    let mut out: Vec<GroupMutation> = Vec::new();
    let mut i: usize = 0;
    while i < combinations.len()
        invariant
            i <= combinations.len(),
            n == data.variables.len(),
            2 <= length <= n,
            vars == string_views(data.variables@),
            eqs == string_views(data.equations@),
            cs == rows(combinations@),
            cs == combos(0, n as int, length as int),
            forall|k: int| 0 <= k < cs.len() ==> is_combination(#[trigger] cs[k], n as int, length as int),
            out@.map_values(|m: GroupMutation| mutation_view(m)) == complex_from(vars, eqs, cs.take(i as int)),
            forall|k: int| 0 <= k < out.len() ==> (#[trigger] out@[k]).data.dimension == out@[k].data.variables.len(),
        decreases combinations.len() - i,
    {
        assert(cs.take(i + 1).drop_last() == cs.take(i as int));
        assert(cs.take(i + 1).last() == combinations@[i as int]@);
        assert(is_combination(cs[i as int], n as int, length as int));
        let ghost prev = out@;
        match mutate_group(&data.variables, &data.equations, &combinations[i]) {
            None => {},
            Some(gm) => {
                out.push(gm);
                assert(out@.map_values(|m: GroupMutation| mutation_view(m)) =~= prev.map_values(
                    |m: GroupMutation| mutation_view(m),
                ).push(mutation_view(gm)));
            },
        }
        i = i + 1;
    }
    assert(cs.take(combinations.len() as int) == cs);
    Some(out)
}


proof fn lemma_scale_all_len(eqs: Seq<Seq<char>>, var: Seq<char>, prime: u64, negative: bool)
    ensures
        scale_all(eqs, var, prime, negative) matches Some(r) ==> r.len() == eqs.len(),
    decreases eqs.len(),
{
    if eqs.len() > 0 {
        lemma_scale_all_len(eqs.drop_last(), var, prime, negative);
    }
}

proof fn lemma_scale_first_len(eqs: Seq<Seq<char>>, vars: Seq<Seq<char>>, k: nat, offset: nat, negative: bool)
    ensures
        scale_first(eqs, vars, k, offset, negative) matches Some(r) ==> r.len() == eqs.len(),
    decreases k,
{
    if k > 0 {
        lemma_scale_first_len(eqs, vars, (k - 1) as nat, offset, negative);
        if let Some(e) = scale_first(eqs, vars, (k - 1) as nat, offset, negative) {
            lemma_scale_all_len(
                e,
                vars[k - 1],
                nth_prime((k - 1 + vars.len() * offset + 1) as nat) as u64,
                negative,
            );
        }
    }
}

/// The simple rule keeps the number of equations.
pub proof fn lemma_simple_keeps_equation_count(vars: Seq<Seq<char>>, eqs: Seq<Seq<char>>, offset: nat, negative: bool)
    ensures
        spec_mutate_simple(vars, eqs, offset, negative) matches Some(r) ==> r.len() == eqs.len(),
{
    lemma_scale_first_len(eqs, vars, vars.len(), offset, negative);
}

/// Every test that the complex rule makes has as many equations as the
/// original, differs from it in at least one equation, and has the group
/// variable among its variables, after the original ones.
pub proof fn lemma_complex_outputs(vars: Seq<Seq<char>>, eqs: Seq<Seq<char>>, cs: Seq<Seq<usize>>)
    ensures
        forall|k: int| 0 <= k < complex_from(vars, eqs, cs).len() ==> {
            let out = #[trigger] complex_from(vars, eqs, cs)[k];
            &&& out.2.len() == eqs.len()
            &&& out.2 != eqs
            &&& out.1.contains(group_variable())
            &&& out.1.take(vars.len() as int) == vars
        },
    decreases cs.len(),
{
    if cs.len() > 0 {
        lemma_complex_outputs(vars, eqs, cs.drop_last());
        let g = group_of(vars, cs.last());
        let nv = with_group_variable(vars);
        let m = replaced_all(eqs, g);
        let done = complex_from(vars, eqs, cs.drop_last());
        assert(nv.take(vars.len() as int) =~= vars);
        if !vars.contains(group_variable()) {
            assert(nv[vars.len() as int] == group_variable());
        }
        assert(nv.contains(group_variable()));
        assert(m.len() == eqs.len());
        let all = complex_from(vars, eqs, cs);
        assert forall|k: int| 0 <= k < all.len() implies {
            let out = #[trigger] all[k];
            &&& out.2.len() == eqs.len()
            &&& out.2 != eqs
            &&& out.1.contains(group_variable())
            &&& out.1.take(vars.len() as int) == vars
        } by {
            if k < done.len() {
                assert(all[k] == done[k]);
            } else {
                assert(m != eqs);
                assert(all == done.push((g, nv, m)));
                assert(all[k] == (g, nv, m));
            }
        }
    }
}


/// What mutating one test document comes to.
pub enum MutationOutcome {
    /// The simple rule's test, to be written under the document's own file
    /// name.
    Simple(TestData),
    /// The complex rule's group length is outside `2..=max`: this is
    /// reported, and nothing is written.
    LengthOutOfRange { max: usize, got: usize },
    /// The complex rule's tests, each with its file name.
    Complex(Vec<(String, TestData)>),
}

/// The simple rule needs primes up to the one numbered `len * (offset + 1)`,
/// which must be admitted on this target.
pub open spec fn prime_index_fits(len: nat, offset: nat) -> bool {
    len * (offset + 1) <= prime_index_bound() && len * (offset + 1) <= usize::MAX
}

/// Mutates one test document by a rule: the decisions of the mutation,
/// from the parsed document to the tests to write. `doc` is `None` where
/// the document's top level is not an object, which then lacks every field
/// and is refused as missing its dimension; `stem` is the document's
/// file name without its extension, `None` where it is not valid UTF-8.
pub fn mutate(rule: &MutationRule, doc: Option<&JsonObject>, stem: Option<&str>) -> (r: Result<MutationOutcome, MutateError>)
    ensures
        match doc {
            None => r == Err::<MutationOutcome, MutateError>(MutateError::InvalidDimension),
            Some(obj) => match spec_extract(*obj) {
                Err(e) => r == Err::<MutationOutcome, MutateError>(e),
                Ok((d, vars, eqs)) => match rule {
                    MutationRule::Simple { offset, negative } => if !prime_index_fits(vars.len(), *offset as nat) {
                        r == Err::<MutationOutcome, MutateError>(MutateError::PrimeIndexTooLarge)
                    } else {
                        match spec_mutate_simple(vars, eqs, *offset as nat, *negative) {
                            None => r == Err::<MutationOutcome, MutateError>(MutateError::ExponentTooLarge),
                            Some(new_eqs) => r matches Ok(MutationOutcome::Simple(data)) && data.dimension == d
                                && string_views(data.variables@) == vars && string_views(data.equations@)
                                == new_eqs,
                        }
                    },
                    MutationRule::Complex { length } => match spec_complex_mutations(vars, eqs, *length as int) {
                        None => r matches Ok(MutationOutcome::LengthOutOfRange { max, got }) && max == vars.len()
                            && got == *length,
                        Some(outs) => if outs.len() > 0 && stem is None {
                            r == Err::<MutationOutcome, MutateError>(MutateError::InvalidStem)
                        } else {
                            r matches Ok(MutationOutcome::Complex(files)) && files.len() == outs.len() && forall|i: int|
                                0 <= i < files.len() ==> {
                                    &&& (#[trigger] files@[i]).0@ == stem.unwrap()@ + seq!['_'] + group_variable()
                                        + seq!['_'] + join_with(outs[i].0, '_') + json_suffix()
                                    &&& string_views(files@[i].1.variables@) == outs[i].1
                                    &&& string_views(files@[i].1.equations@) == outs[i].2
                                    &&& files@[i].1.dimension == files@[i].1.variables.len()
                                }
                        }
                    },
                },
            },
        },
{
    let obj = match doc {
        None => {
            return Err(MutateError::InvalidDimension);
        },
        Some(o) => o,
    };
    let data = match extract_test_data(obj) {
        Err(e) => {
            return Err(e);
        },
        Ok(d) => d,
    };
    match rule {
        MutationRule::Simple { offset, negative } => {
            let n = data.variables.len();
            let fits = if n == 0 {
                proof {
                    assert(n * (*offset + 1) == 0) by (nonlinear_arith)
                        requires
                            n == 0,
                    ;
                }
                true
            } else {
                match offset.checked_add(1) {
                    None => {
                        proof {
                            assert(n * (*offset + 1) >= *offset + 1) by (nonlinear_arith)
                                requires
                                    n > 0,
                            ;
                        }
                        false
                    },
                    Some(o1) => match n.checked_mul(o1) {
                        None => false,
                        Some(total) => (total as u64) <= prime_index_bound_exec(),
                    },
                }
            };
            if !fits {
                return Err(MutateError::PrimeIndexTooLarge);
            }
            match checked_mutate_simple(data, *offset, *negative) {
                None => Err(MutateError::ExponentTooLarge),
                Some(out) => Ok(MutationOutcome::Simple(out)),
            }
        },
        MutationRule::Complex { length } => {
            match complex_mutations(&data, *length) {
                None => Ok(MutationOutcome::LengthOutOfRange { max: data.variables.len(), got: *length }),
                Some(ms) => {
                    if ms.len() == 0 {
                        return Ok(MutationOutcome::Complex(Vec::new()));
                    }
                    let stem = match stem {
                        None => {
                            return Err(MutateError::InvalidStem);
                        },
                        Some(s) => s,
                    };
                    let replacement = "z";
                    proof {
                        reveal_strlit("z");
                    }
                    let ghost outs = ms@.map_values(|m: GroupMutation| mutation_view(m));
                    let mut files: Vec<(String, TestData)> = Vec::new();
                    let mut ms = ms;
                    let ghost ms0 = ms@;
                    // the tests are moved out of `ms` from the back; `files` is
                    // filled in reverse and turned round at the end
                    while ms.len() > 0
                        invariant
                            ms@ == ms0.take(ms.len() as int),
                            ms0.len() == outs.len(),
                            outs == ms0.map_values(|m: GroupMutation| mutation_view(m)),
                            forall|k: int| 0 <= k < ms0.len() ==> (#[trigger] ms0[k]).data.dimension == ms0[k].data.variables.len(),
                            replacement@ == group_variable(),
                            files.len() + ms.len() == ms0.len(),
                            forall|k: int| 0 <= k < files.len() ==> {
                                let j = ms0.len() - 1 - k;
                                &&& (#[trigger] files@[k]).0@ == stem@ + seq!['_'] + group_variable() + seq!['_']
                                    + join_with(outs[j].0, '_') + json_suffix()
                                &&& string_views(files@[k].1.variables@) == outs[j].1
                                &&& string_views(files@[k].1.equations@) == outs[j].2
                                &&& files@[k].1.dimension == files@[k].1.variables.len()
                            },
                        decreases ms.len(),
                    {
                        let gm = ms.pop().unwrap();
                        let ghost j = ms.len() as int;
                        assert(ms0[j] == gm);
                        let name = mutated_file_name(stem, replacement, gm.group.as_slice());
                        files.push((name, gm.data));
                    }
                    let mut ordered: Vec<(String, TestData)> = Vec::new();
                    while files.len() > 0
                        invariant
                            ordered.len() + files.len() == ms0.len(),
                            outs == ms0.map_values(|m: GroupMutation| mutation_view(m)),
                            forall|k: int| 0 <= k < files.len() ==> {
                                let j = ms0.len() - 1 - k;
                                &&& (#[trigger] files@[k]).0@ == stem@ + seq!['_'] + group_variable() + seq!['_']
                                    + join_with(outs[j].0, '_') + json_suffix()
                                &&& string_views(files@[k].1.variables@) == outs[j].1
                                &&& string_views(files@[k].1.equations@) == outs[j].2
                                &&& files@[k].1.dimension == files@[k].1.variables.len()
                            },
                            forall|k: int| 0 <= k < ordered.len() ==> {
                                &&& (#[trigger] ordered@[k]).0@ == stem@ + seq!['_'] + group_variable() + seq!['_']
                                    + join_with(outs[k].0, '_') + json_suffix()
                                &&& string_views(ordered@[k].1.variables@) == outs[k].1
                                &&& string_views(ordered@[k].1.equations@) == outs[k].2
                                &&& ordered@[k].1.dimension == ordered@[k].1.variables.len()
                            },
                        decreases files.len(),
                    {
                        let f = files.pop().unwrap();
                        ordered.push(f);
                    }
                    Ok(MutationOutcome::Complex(ordered))
                },
            }
        },
    }
}


proof fn lemma_scale_all_each(eqs: Seq<Seq<char>>, var: Seq<char>, prime: u64, negative: bool)
    ensures
        scale_all(eqs, var, prime, negative) matches Some(r) ==> {
            &&& r.len() == eqs.len()
            &&& forall|j: int| 0 <= j < eqs.len() ==> spec_mutate_variable(eqs[j], var, prime, negative)
                == Some(#[trigger] r[j])
        },
        scale_all(eqs, var, prime, negative) is None ==> exists|j: int|
            0 <= j < eqs.len() && (#[trigger] spec_mutate_variable(eqs[j], var, prime, negative)) is None,
    decreases eqs.len(),
{
    if eqs.len() > 0 {
        let front = eqs.drop_last();
        lemma_scale_all_each(front, var, prime, negative);
        match scale_all(front, var, prime, negative) {
            None => {
                let j = choose|j: int| 0 <= j < front.len() && (#[trigger] spec_mutate_variable(front[j], var, prime, negative)) is None;
                assert(front[j] == eqs[j]);
            },
            Some(done) => {
                if let Some(r) = scale_all(eqs, var, prime, negative) {
                    assert forall|j: int| 0 <= j < eqs.len() implies spec_mutate_variable(eqs[j], var, prime, negative)
                        == Some(#[trigger] r[j]) by {
                        if j < front.len() {
                            assert(front[j] == eqs[j]);
                            assert(r[j] == done[j]);
                        }
                    }
                } else {
                    assert(spec_mutate_variable(eqs[eqs.len() - 1], var, prime, negative) is None);
                }
            },
        }
    }
}

/// The simple rule, step by step. Before any variable is scaled the
/// equations are the original ones; the step for the variable at index `i`
/// takes every equation in turn and scales `vars[i]` in it, with the prime
/// numbered `i + len * offset + 1` and with the rule's own `negative` flag,
/// the same for every variable; after the last step the equations are what
/// the rule gives. The rule fails exactly where some step fails on some
/// equation.
pub proof fn lemma_simple_rule_steps(vars: Seq<Seq<char>>, eqs: Seq<Seq<char>>, offset: nat, negative: bool, i: nat)
    requires
        i < vars.len(),
    ensures
        scale_first(eqs, vars, 0, offset, negative) == Some(eqs),
        scale_first(eqs, vars, vars.len(), offset, negative) == spec_mutate_simple(vars, eqs, offset, negative),
        scale_first(eqs, vars, i + 1, offset, negative) matches Some(after) ==> {
            &&& scale_first(eqs, vars, i, offset, negative) matches Some(before)
            &&& after.len() == before.len()
            &&& forall|j: int| 0 <= j < before.len() ==> spec_mutate_variable(
                before[j],
                vars[i as int],
                nth_prime(i + vars.len() * offset + 1) as u64,
                negative,
            ) == Some(#[trigger] after[j])
        },
        scale_first(eqs, vars, i, offset, negative) matches Some(before) ==> (scale_first(
            eqs,
            vars,
            i + 1,
            offset,
            negative,
        ) is None <==> exists|j: int|
            0 <= j < before.len() && (#[trigger] spec_mutate_variable(
                before[j],
                vars[i as int],
                nth_prime(i + vars.len() * offset + 1) as u64,
                negative,
            )) is None),
{
    let p = nth_prime(i + vars.len() * offset + 1) as u64;
    if let Some(before) = scale_first(eqs, vars, i, offset, negative) {
        assert(scale_first(eqs, vars, i + 1, offset, negative) == scale_all(before, vars[i as int], p, negative));
        lemma_scale_all_each(before, vars[i as int], p, negative);
        if exists|j: int| 0 <= j < before.len() && (#[trigger] spec_mutate_variable(before[j], vars[i as int], p, negative)) is None {
            let j = choose|j: int| 0 <= j < before.len() && (#[trigger] spec_mutate_variable(before[j], vars[i as int], p, negative)) is None;
            if let Some(r) = scale_all(before, vars[i as int], p, negative) {
                assert(spec_mutate_variable(before[j], vars[i as int], p, negative) == Some(r[j]));
            }
        }
    }
}


/// `out` is what the group `c` of `vars` makes: the group's variables in the
/// order of `c`, the variables with `z` added unless present, and every
/// equation with the group replaced by `z`; and it changes an equation.
pub open spec fn made_by_group(vars: Seq<Seq<char>>, eqs: Seq<Seq<char>>, c: Seq<usize>, out: (Seq<Seq<char>>, Seq<Seq<char>>, Seq<Seq<char>>)) -> bool {
    &&& out.0.len() == c.len()
    &&& forall|i: int| 0 <= i < c.len() ==> #[trigger] out.0[i] == vars[c[i] as int]
    &&& out.1 == if vars.contains(seq!['z']) { vars } else { vars.push(seq!['z']) }
    &&& out.2.len() == eqs.len()
    &&& forall|j: int| 0 <= j < eqs.len() ==> #[trigger] out.2[j] == spec_replace_group(eqs[j], out.0, seq!['z'])
    &&& out.2 != eqs
}

/// Replacing the group of the variables at the indexes `c` by `z` changes
/// some equation.
pub open spec fn group_changes(vars: Seq<Seq<char>>, eqs: Seq<Seq<char>>, c: Seq<usize>) -> bool {
    let g = Seq::new(c.len(), |i: int| vars[c[i] as int]);
    eqs.map_values(|e: Seq<char>| spec_replace_group(e, g, seq!['z'])) != eqs
}

proof fn lemma_group_of_made(vars: Seq<Seq<char>>, eqs: Seq<Seq<char>>, c: Seq<usize>)
    requires
        replaced_all(eqs, group_of(vars, c)) != eqs,
    ensures
        made_by_group(vars, eqs, c, (group_of(vars, c), with_group_variable(vars), replaced_all(eqs, group_of(vars, c)))),
{
}

proof fn lemma_complex_from_complete(vars: Seq<Seq<char>>, eqs: Seq<Seq<char>>, cs: Seq<Seq<usize>>, t: int)
    requires
        0 <= t < cs.len(),
        replaced_all(eqs, group_of(vars, cs[t])) != eqs,
    ensures
        complex_from(vars, eqs, cs).contains(
            (group_of(vars, cs[t]), with_group_variable(vars), replaced_all(eqs, group_of(vars, cs[t]))),
        ),
    decreases cs.len(),
{
    let done = complex_from(vars, eqs, cs.drop_last());
    let all = complex_from(vars, eqs, cs);
    if t < cs.len() - 1 {
        assert(cs.drop_last()[t] == cs[t]);
        lemma_complex_from_complete(vars, eqs, cs.drop_last(), t);
        let x = choose|x: int| 0 <= x < done.len() && done[x] == (group_of(vars, cs[t]), with_group_variable(vars), replaced_all(eqs, group_of(vars, cs[t])));
        assert(all[x] == done[x]);
    } else {
        assert(all[all.len() - 1] == (group_of(vars, cs[t]), with_group_variable(vars), replaced_all(eqs, group_of(vars, cs[t]))));
    }
}

proof fn lemma_complex_from_sound(vars: Seq<Seq<char>>, eqs: Seq<Seq<char>>, cs: Seq<Seq<usize>>)
    ensures
        forall|k: int| 0 <= k < complex_from(vars, eqs, cs).len() ==> exists|t: int|
            0 <= t < cs.len() && made_by_group(vars, eqs, cs[t], #[trigger] complex_from(vars, eqs, cs)[k]),
    decreases cs.len(),
{
    if cs.len() > 0 {
        lemma_complex_from_sound(vars, eqs, cs.drop_last());
        let done = complex_from(vars, eqs, cs.drop_last());
        let all = complex_from(vars, eqs, cs);
        assert forall|k: int| 0 <= k < all.len() implies exists|t: int|
            0 <= t < cs.len() && made_by_group(vars, eqs, cs[t], #[trigger] all[k]) by {
            if k < done.len() {
                assert(all[k] == done[k]);
                let t = choose|t: int| 0 <= t < cs.drop_last().len() && made_by_group(vars, eqs, cs.drop_last()[t], #[trigger] done[k]);
                assert(cs.drop_last()[t] == cs[t]);
            } else {
                let c = cs[cs.len() - 1];
                lemma_group_of_made(vars, eqs, c);
                assert(made_by_group(vars, eqs, cs[cs.len() - 1], all[k]));
            }
        }
    }
}

/// `outs` holds a test for every combination `c` of `length` variable
/// indexes whose group changes some equation, and nothing else: each of its
/// tests is made by such a combination.
pub open spec fn made_by_every_combination(vars: Seq<Seq<char>>, eqs: Seq<Seq<char>>, length: int, outs: Seq<(Seq<Seq<char>>, Seq<Seq<char>>, Seq<Seq<char>>)>) -> bool {
    &&& forall|c: Seq<usize>|
        #![trigger group_changes(vars, eqs, c)]
        is_combination(c, vars.len() as int, length) && group_changes(vars, eqs, c) ==> exists|k: int|
            0 <= k < outs.len() && #[trigger] made_by_group(vars, eqs, c, outs[k])
    &&& forall|k: int| 0 <= k < outs.len() ==> made_by_some_combination(vars, eqs, length, #[trigger] outs[k])
}

/// `out` is made by some combination of `length` variable indexes.
pub open spec fn made_by_some_combination(vars: Seq<Seq<char>>, eqs: Seq<Seq<char>>, length: int, out: (Seq<Seq<char>>, Seq<Seq<char>>, Seq<Seq<char>>)) -> bool {
    exists|c: Seq<usize>| is_combination(c, vars.len() as int, length) && #[trigger] made_by_group(vars, eqs, c, out)
}

/// The groups that the complex rule tries are all the `length`-combinations
/// of the variables. For `2 <= length <= vars.len()`: every combination `c`
/// of `length` variable indexes whose group changes some equation makes a
/// test (its group, the variables with `z`, every equation with the group
/// replaced by `z`); and every test made comes from such a combination.
pub proof fn lemma_complex_tries_every_combination(vars: Seq<Seq<char>>, eqs: Seq<Seq<char>>, length: usize)
    requires
        2 <= length <= vars.len(),
        vars.len() <= usize::MAX,
    ensures
        spec_complex_mutations(vars, eqs, length as int) is Some,
        made_by_every_combination(vars, eqs, length as int, spec_complex_mutations(vars, eqs, length as int)->0),
{
    let n = vars.len() as int;
    let cs = combos(0, n, length as int);
    let outs = complex_from(vars, eqs, cs);
    assert(spec_complex_mutations(vars, eqs, length as int) == Some(outs));
    assert forall|c: Seq<usize>|
        #![trigger group_changes(vars, eqs, c)]
        is_combination(c, vars.len() as int, length as int) && group_changes(vars, eqs, c) implies exists|k: int|
            0 <= k < outs.len() && #[trigger] made_by_group(vars, eqs, c, outs[k]) by {
        assert(group_of(vars, c) =~= Seq::new(c.len(), |i: int| vars[c[i] as int]));
        assert(replaced_all(eqs, group_of(vars, c)) =~= eqs.map_values(
            |e: Seq<char>| spec_replace_group(e, Seq::new(c.len(), |i: int| vars[c[i] as int]), seq!['z']),
        ));
        lemma_combos_complete(0, n, length as int, c);
        let t = choose|t: int| 0 <= t < cs.len() && cs[t] == c;
        lemma_complex_from_complete(vars, eqs, cs, t);
        let k = choose|k: int|
            0 <= k < outs.len() && outs[k] == (group_of(vars, c), with_group_variable(vars), replaced_all(
                eqs,
                group_of(vars, c),
            ));
        lemma_group_of_made(vars, eqs, c);
    }
    lemma_complex_from_sound(vars, eqs, cs);
    lemma_combos_sound(0, n, length as int);
    assert forall|k: int| 0 <= k < outs.len() implies made_by_some_combination(vars, eqs, length as int, #[trigger] outs[k]) by {
        let t = choose|t: int| 0 <= t < cs.len() && made_by_group(vars, eqs, cs[t], #[trigger] outs[k]);
        assert(is_combination(cs[t], n, length as int));
        assert(made_by_group(vars, eqs, cs[t], outs[k]));
    }
    assert(made_by_every_combination(vars, eqs, length as int, outs));
}

} // verus!
