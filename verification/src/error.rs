use vstd::prelude::*;

verus! {

/// Every failure the library can report. All of these are fatal to the run
/// that raised them: no stage attempts recovery or partial results.
#[derive(Clone, Copy, Debug, PartialEq, Eq, Structural)]
pub enum Error {
    /// A decimal numeral in the input does not fit in `u32`.
    NumberOverflow,
    /// A `)` token appeared with no form open.
    UnexpectedKet,
    /// The input ended while at least one form was still open.
    UnclosedForm,
    /// The token stream did not reduce to a program at the top level.
    NotAProgram,
    /// A keyword token carried a string that is not one of the keywords.
    BadKeyword,
    /// An identifier was looked up but bound in no scope.
    UnknownIdent,
    /// A name was bound twice in the same scope.
    DuplicateBinding,
    /// An argument of `+` did not evaluate to a number literal.
    NotANumber,
    /// The sum computed by `+` does not fit in `u32`.
    SumOverflow,
    /// A `let` form had a binding name with no value expression.
    LetOddArgs,
    /// A `let` form had no body.
    LetNoBody,
    /// A function form had no body.
    FnNoBody,
    /// A function was applied to the wrong number of arguments.
    FnArity,
    /// An identifier was required (a binding name or formal parameter)
    /// but another node was found.
    ExpectedIdent,
    /// A node that is not evaluable was reached (a bare keyword, or a
    /// program node below the top level).
    UnexpectedNode,
    /// Evaluation exceeded the reduction budget; the program most likely
    /// does not terminate.
    OutOfFuel,
    /// A macro was invoked with a number of arguments different from its
    /// number of parameters.
    MacroArity,
    /// A macro definition form was too short to hold a name and a body.
    MalformedMacro,
    /// The `macro` keyword appeared outside the head of a form.
    BareMacro,
}

} // verus!
