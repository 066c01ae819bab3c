//! The error model: script-visible runtime errors and internal fatals.
//!
//! A `JsError` is one of: a wrapped host I/O failure, a lex error with a
//! message, a parse error with a message, or a runtime error carrying a
//! heap value (an `Error`-family object).  Internal fatals are a separate
//! enum: they abort the operation that hit them and are never catchable
//! by script.

use vstd::prelude::*;
use crate::value::JsValue;

verus! {

/// The script-visible error kinds of the `TypeError` family.
#[derive(Copy, Clone, PartialEq, Eq, Structural, Debug)]
pub enum TypeErrorKind {
    NotAFunction,
    MissingArgument,
    InvalidType,
    CannotPut,
    CannotWrite,
    CannotDelete,
    NotExtensible,
    NotAConstructor,
    InvalidOnUndefined,
    InvalidOnNull,
    InRhsNotObject,
    ArgumentsPropertyAccess,
    FunctionPropertyAccess,
    ToStringFailed,
    NotCallable,
    PropertyHasGetterOnly,
    NotDate,
    NotCoercible,
    InvalidArgumentsArray,
    AccessorNotCallable,
    WritableInvalidOnAccessor,
    CannotHasInstance,
}

impl TypeErrorKind {
    /// The diagnostic text attached to an error of this kind.
    pub fn message(&self) -> &'static str {
        match *self {
            TypeErrorKind::NotAFunction => "Value is not a function",
            TypeErrorKind::MissingArgument => "Missing argument",
            TypeErrorKind::InvalidType => "Unexpected type",
            TypeErrorKind::CannotPut => "Cannot set property",
            TypeErrorKind::CannotWrite => "Property is not writable",
            TypeErrorKind::CannotDelete => "Property cannot be deleted",
            TypeErrorKind::NotExtensible => "Object is not extensible",
            TypeErrorKind::NotAConstructor => "Not a constructor",
            TypeErrorKind::InvalidOnUndefined => "Invalid operation on undefined",
            TypeErrorKind::InvalidOnNull => "Invalid operation on null",
            TypeErrorKind::InRhsNotObject => "Target of in must be an object",
            TypeErrorKind::ArgumentsPropertyAccess => "Cannot access caller or callee of arguments",
            TypeErrorKind::FunctionPropertyAccess => "Cannot access caller or arguments of function",
            TypeErrorKind::ToStringFailed => "Cannot call toString",
            TypeErrorKind::NotCallable => "Target must be callable",
            TypeErrorKind::PropertyHasGetterOnly => "Cannot set property because it only has a getter",
            TypeErrorKind::NotDate => "Object is not a Date",
            TypeErrorKind::NotCoercible => "Value is null or undefined",
            TypeErrorKind::InvalidArgumentsArray => "Arguments argument is not of a valid type",
            TypeErrorKind::AccessorNotCallable => "Accessor is not callable",
            TypeErrorKind::WritableInvalidOnAccessor => "Writable invalid for accessors",
            TypeErrorKind::CannotHasInstance => "Instance of parameter must be an object",
        }
    }
}

/// Which `Error` subclass a runtime error was constructed as.
///
/// `Thrown` is a value raised by script itself (`throw x`): it carries no
/// class of its own; the value decides.
#[derive(Copy, Clone, PartialEq, Eq, Structural, Debug)]
pub enum ErrorKind {
    Type(TypeErrorKind),
    Range,
    Reference,
    Syntax,
    Thrown,
}

/// A script-visible error.
#[derive(Clone, Debug)]
pub enum JsError {
    /// A host I/O failure, wrapped as its message text.
    Io(String),
    /// A lex error with its message.
    Lex(String),
    /// A parse error with its message.
    Parse(String),
    /// A runtime error: the heap value that `catch` receives, and the
    /// kind it was constructed from.
    Runtime(ErrorKind, JsValue),
}

/// Outcome type for every fallible script-visible operation.
pub type JsResult<T> = Result<T, JsError>;

/// An internal fatal: aborts the operation, never catchable by script.
#[derive(Copy, Clone, PartialEq, Eq, Structural, Debug)]
pub enum FatalError {
    /// A non-top local scope was dropped.
    ScopeOrderViolation,
    /// A `Local` was requested with no scope on the stack.
    NoActiveScope,
    /// A released root slot was read.
    InvalidRoot,
    /// Allocation still failed after one collection.
    AllocationFailed,
    /// The heap configuration was rejected by the constructor.
    InvalidOpts,
    /// The walker's claimed layout did not match an actual field.
    WalkerMismatch,
    /// The arguments slot was addressed on a scope without one.
    BadScopeSlot,
}

} // verus!
