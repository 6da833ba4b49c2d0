//! Why a check ends without an answer.
use vstd::prelude::*;

verus! {

/// What a rejected term or declaration got wrong.
#[derive(Clone, Copy, PartialEq, Eq, Structural, Debug)]
pub enum Reason {
    /// Something applied is not a function.
    NotAFunction,
    /// Something projected from is not a structure.
    NotAStructure,
    /// Something used as a type has no sort.
    NotASort,
    /// A constant is not declared.
    UnknownConst,
    /// A constant is given the wrong number of levels.
    LevelCount,
    /// A level parameter is not in scope.
    LevelParam,
    /// An argument does not have the type it is passed at.
    ArgMismatch,
    /// A `let` value or a definition does not have its declared type.
    ValueMismatch,
    /// A variable is not bound.
    LooseVar,
    /// A declaration repeats a level parameter.
    DuplicateParam,
    /// A declared type has free variables.
    FreeVar,
    /// A projection out of a proposition is not itself a proof.
    PropProjection,
    /// A literal is used without its extension.
    Literal,
    /// The type of a theorem is not a proposition.
    NotAProp,
    /// Two terms asserted equal are not.
    NotEqual,
    /// A value of this form has no readable type or expression.
    BadValue,
    /// Native reduction is asked for.
    Native,
    /// A declaration with this name already stands, or none does.
    BadName,
}

/// Why a check ends without an answer.
#[derive(Clone, Copy, PartialEq, Eq, Structural, Debug)]
pub enum TcError {
    /// A store holds as many nodes as its ids can name.
    Full,
    /// The check went deeper than the recursion limit.
    Depth,
    /// The term or declaration is rejected.
    Reject(Reason),
}

} // verus!
