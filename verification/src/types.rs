//! The data the mutation rules and the runner work on.

use vstd::prelude::*;
use crate::terms::string_views;

verus! {

/// Mutation rule that is required by `mutate` func.
/// Possible values:
/// - `Simple`: every variable scaled by a prime of its own, the primes
///   starting `offset` rounds of variables further on; `negative` negates
///   the plain and the odd-power occurrences
/// - `Complex`: every group of `length` variables that occurs together in a
///   monomial replaced by a fresh variable
pub enum MutationRule {
    Simple { offset: usize, negative: bool },
    Complex { length: usize },
}

/// Represents a program runner.
///
/// A runner can either execute a script through an interpreter or execute a
/// binary directly. In both cases, the program receives a JSON file path as an
/// argument and is expected to write JSON output to `stdout`.
pub enum Runner {
    Script { interpreter: String, program: String },
    Bin { program: String },
}

impl Runner {
    /// Create new `Runner`:
    /// - provide program path and interpreter path to make `Runner::Script`
    /// - provide program path and `None` to make `Runner::Bin`
    pub fn new(program: &str, interpreter: Option<&str>) -> (r: Runner)
        ensures
            match interpreter {
                Some(i) => r matches Runner::Script { interpreter: ri, program: rp } && ri@ == i@
                    && rp@ == program@,
                None => r matches Runner::Bin { program: rp } && rp@ == program@,
            },
    {
        match interpreter {
            Some(val) => Runner::Script { interpreter: val.to_owned(), program: program.to_owned() },
            None => Runner::Bin { program: program.to_owned() },
        }
    }

    /// The program to start and the arguments that precede the JSON
    /// input's path, which is passed last: a script goes to its
    /// interpreter, with the script first; a binary gets the input alone.
    pub fn invocation(&self) -> (r: (String, Vec<String>))
        ensures
            match self {
                Runner::Script { interpreter, program } => r.0@ == interpreter@ && string_views(r.1@)
                    == seq![program@],
                Runner::Bin { program } => r.0@ == program@ && string_views(r.1@) == Seq::<Seq<char>>::empty(),
            },
    {
        let mut args: Vec<String> = Vec::new();
        match self {
            Runner::Script { interpreter, program } => {
                args.push(program.clone());
                assert(string_views(args@) =~= seq![program@]);
                (interpreter.clone(), args)
            },
            Runner::Bin { program } => {
                assert(string_views(args@) =~= Seq::<Seq<char>>::empty());
                (program.clone(), args)
            },
        }
    }
}

/// Data of a polynomial-system test.
pub struct TestData {
    pub dimension: u64,
    pub variables: Vec<String>,
    pub equations: Vec<String>,
}

/// A top-level field of a test document, as far as the mutation reads it:
/// a number that is a `u64`, an array (each item kept when it is a
/// string), or anything else.
pub enum JsonField {
    Unsigned(u64),
    Array(Vec<Option<String>>),
    Other,
}

/// A test document whose top level is a JSON object: its fields in order.
pub struct JsonObject {
    pub fields: Vec<(String, JsonField)>,
}

/// Why a test document cannot be mutated.
#[derive(Debug, PartialEq, Eq, Structural)]
pub enum MutateError {
    /// `dimension` is missing or not an unsigned integer (a document whose
    /// top level is not an object has no `dimension`).
    InvalidDimension,
    /// `variables` is missing or not an array.
    InvalidVariables,
    /// `variables` holds something other than a string.
    NonStringVariable,
    /// `equations` is missing or not an array.
    InvalidEquations,
    /// `equations` holds something other than a string.
    NonStringEquation,
    /// The test's file name is not valid UTF-8, so no name can be made for
    /// the tests the complex rule derives from it.
    InvalidStem,
    /// The simple rule would need a prime whose index overflows or is not
    /// admitted on this target (more variables times offset than `primal`
    /// can number): the mutation aborts.
    PrimeIndexTooLarge,
    /// The simple rule would rewrite an exponent that does not fit in a
    /// `u32`: the mutation aborts.
    ExponentTooLarge,
}

impl MutateError {
    /// The message that reports this error.
    pub fn message(&self) -> (r: &'static str)
        ensures
            r@ == match self {
                MutateError::InvalidDimension => "missing or invalid names"@,
                MutateError::InvalidVariables => "missing or invalid field"@,
                MutateError::NonStringVariable => "variables must contain only strings"@,
                MutateError::InvalidEquations => "missing or invalid field"@,
                MutateError::NonStringEquation => "equations must contain only strings"@,
                MutateError::InvalidStem => "file name must be valid UTF-8"@,
                MutateError::PrimeIndexTooLarge => "prime index overflows"@,
                MutateError::ExponentTooLarge => "exponent does not fit in a u32"@,
            },
    {
        match self {
            MutateError::InvalidDimension => "missing or invalid names",
            MutateError::InvalidVariables => "missing or invalid field",
            MutateError::NonStringVariable => "variables must contain only strings",
            MutateError::InvalidEquations => "missing or invalid field",
            MutateError::NonStringEquation => "equations must contain only strings",
            MutateError::InvalidStem => "file name must be valid UTF-8",
            MutateError::PrimeIndexTooLarge => "prime index overflows",
            MutateError::ExponentTooLarge => "exponent does not fit in a u32",
        }
    }
}

} // verus!
