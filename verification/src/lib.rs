//! Mutation of polynomial-system test cases: the rewriting of equations,
//! the enumeration of variable groups, the validation of test documents and
//! the decisions that turn one test into the tests that a solver is run on.

pub mod text;
pub mod equation;
pub mod combinations;
pub mod terms;
pub mod primes;
pub mod types;
pub mod mutation;
pub mod names;

pub use combinations::index_combinations;
pub use equation::{checked_mutate_variable_in_equation, mutate_variable_in_equation};
pub use mutation::{
    checked_mutate_simple, complex_mutations, extract_test_data, mutate, mutate_simple, GroupMutation,
    MutationOutcome,
};
pub use names::{is_json_file_name, mutated_file_name};
pub use primes::nth_prime_exec;
pub use terms::{replace_group_in_equation, split_terms};
pub use text::is_var_char;
pub use types::{JsonField, JsonObject, MutateError, MutationRule, Runner, TestData};
