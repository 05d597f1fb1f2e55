//! What every kind of framework has in common.
use vstd::prelude::*;

verus! {

/// Why a text could not be read.
#[derive(Debug, Clone, PartialEq, Eq)]
pub enum ParserError {
    /// A token stands where the grammar has no place for it. Its characters
    /// are those from `start` up to `end` of the input; `text` is what they
    /// are.
    UnexpectedToken { start: usize, end: usize, text: String },
    /// The input ends in the middle of a statement.
    UnexpectedEndOfInput,
    /// A statement marks an argument as optional that no statement declares.
    OptionalArgumentNotFound { arg_id: String },
    /// A statement marks an attack as optional that no statement declares.
    OptionalAttackNotFound { from: String, to: String },
    /// Two statements declare an argument of the same name.
    DuplicateArgument { arg_id: String },
    /// Two statements declare an attack between the same two arguments.
    DuplicateAttack { from: String, to: String },
}

/// A [`ParserError`] as a plain value.
pub enum Failure {
    UnexpectedToken { start: int, end: int, text: Seq<char> },
    UnexpectedEndOfInput,
    OptionalArgumentNotFound { arg_id: Seq<char> },
    OptionalAttackNotFound { from: Seq<char>, to: Seq<char> },
    DuplicateArgument { arg_id: Seq<char> },
    DuplicateAttack { from: Seq<char>, to: Seq<char> },
}

impl View for ParserError {
    type V = Failure;

    open spec fn view(&self) -> Failure {
        match self {
            ParserError::UnexpectedToken { start, end, text } => Failure::UnexpectedToken {
                start: *start as int,
                end: *end as int,
                text: text@,
            },
            ParserError::UnexpectedEndOfInput => Failure::UnexpectedEndOfInput,
            ParserError::OptionalArgumentNotFound { arg_id } => Failure::OptionalArgumentNotFound {
                arg_id: arg_id@,
            },
            ParserError::OptionalAttackNotFound { from, to } => Failure::OptionalAttackNotFound {
                from: from@,
                to: to@,
            },
            ParserError::DuplicateArgument { arg_id } => Failure::DuplicateArgument {
                arg_id: arg_id@,
            },
            ParserError::DuplicateAttack { from, to } => Failure::DuplicateAttack {
                from: from@,
                to: to@,
            },
        }
    }
}

/// A generic extension.
pub trait GenericExtension {
    /// Argument type used by the extension.
    type Arg;

    /// Whether the extension holds the argument.
    spec fn holds(&self, arg: &Self::Arg) -> bool;

    /// The extension as a text: the names of its arguments in order,
    /// between square brackets, with commas between them.
    spec fn text(&self) -> Seq<char>;

    /// Check whether the given argument is contained in this extension.
    fn contains(&self, arg: &Self::Arg) -> (found: bool)
        ensures
            found == self.holds(arg),
    ;

    /// Format the extension.
    fn format(&self) -> (text: String)
        ensures
            text@ == self.text(),
    ;
}

/// Check the given argument for credulous acceptance: whether one of the
/// extensions holds it. The extensions are looked at in order, up to the
/// first that holds the argument.
pub fn is_credulous_accepted<E: GenericExtension>(extensions: &Vec<E>, arg: &E::Arg) -> (accepted:
    bool)
    ensures
        accepted == exists|i: int|
            0 <= i < extensions@.len() && (#[trigger] extensions@[i]).holds(arg),
{
    let mut i: usize = 0;
    while i < extensions.len()
        invariant
            i <= extensions.len(),
            forall|j: int| 0 <= j < i ==> !(#[trigger] extensions@[j]).holds(arg),
        decreases extensions.len() - i,
    {
        if extensions[i].contains(arg) {
            return true;
        }
        i += 1;
    }
    false
}

/// Check the given argument for skeptical acceptance: whether every one of
/// the extensions holds it. The extensions are looked at in order, up to
/// the first that does not hold the argument.
pub fn is_skeptical_accepted<E: GenericExtension>(extensions: &Vec<E>, arg: &E::Arg) -> (accepted:
    bool)
    ensures
        accepted == forall|i: int|
            0 <= i < extensions@.len() ==> (#[trigger] extensions@[i]).holds(arg),
{
    let mut i: usize = 0;
    while i < extensions.len()
        invariant
            i <= extensions.len(),
            forall|j: int| 0 <= j < i ==> (#[trigger] extensions@[j]).holds(arg),
        decreases extensions.len() - i,
    {
        if !extensions[i].contains(arg) {
            return false;
        }
        i += 1;
    }
    true
}

} // verus!
