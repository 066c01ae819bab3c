//! The uniform tagged value.
//!
//! A value is a two-word record: a discriminant and a payload.  Numbers
//! carry the 64 bits of an IEEE-754 double; pointer-valued discriminants
//! carry the id of a heap cell of the matching arena.

use vstd::prelude::*;
use crate::name::Name;

verus! {

/// The discriminant of a tagged value.
#[derive(Copy, Clone, PartialEq, Eq, Structural, Debug)]
pub enum JsType {
    Undefined,
    Null,
    Number,
    Boolean,
    String,
    Object,
    Iterator,
    Scope,
}

impl JsType {
    /// The discriminants whose payload is a reference the collector must
    /// trace.
    pub open spec fn spec_is_ptr(&self) -> bool {
        match *self {
            JsType::String | JsType::Object | JsType::Iterator | JsType::Scope => true,
            _ => false,
        }
    }

    /// True of the discriminants whose payload points into the heap.
    pub fn is_ptr(&self) -> (r: bool)
        ensures
            r == self.spec_is_ptr(),
    {
        match *self {
            JsType::String | JsType::Object | JsType::Iterator | JsType::Scope => true,
            _ => false,
        }
    }

    /// Every type but `Object` is primitive.
    pub fn is_primitive(&self) -> (r: bool)
        ensures
            r == (*self != JsType::Object),
    {
        match *self {
            JsType::Object => false,
            _ => true,
        }
    }
}

/// A tagged value.  `Number` holds the bits of an IEEE-754 double; the
/// pointer-valued variants hold the id of a cell in the environment's
/// arena for that type.
#[derive(Copy, Clone, PartialEq, Eq, Structural, Debug)]
pub enum JsValue {
    Undefined,
    Null,
    Number(u64),
    Boolean(bool),
    String(u32),
    Object(u32),
    Iterator(u32),
    Scope(u32),
}

impl JsValue {
    /// The discriminant of this value.
    pub open spec fn spec_ty(&self) -> JsType {
        match *self {
            JsValue::Undefined => JsType::Undefined,
            JsValue::Null => JsType::Null,
            JsValue::Number(_) => JsType::Number,
            JsValue::Boolean(_) => JsType::Boolean,
            JsValue::String(_) => JsType::String,
            JsValue::Object(_) => JsType::Object,
            JsValue::Iterator(_) => JsType::Iterator,
            JsValue::Scope(_) => JsType::Scope,
        }
    }

    /// Yields the discriminant.
    #[verifier::when_used_as_spec(spec_ty)]
    pub fn ty(&self) -> (r: JsType)
        ensures
            r == self.spec_ty(),
    {
        match *self {
            JsValue::Undefined => JsType::Undefined,
            JsValue::Null => JsType::Null,
            JsValue::Number(_) => JsType::Number,
            JsValue::Boolean(_) => JsType::Boolean,
            JsValue::String(_) => JsType::String,
            JsValue::Object(_) => JsType::Object,
            JsValue::Iterator(_) => JsType::Iterator,
            JsValue::Scope(_) => JsType::Scope,
        }
    }

    pub fn new_undefined() -> (r: JsValue)
        ensures
            r == JsValue::Undefined,
    {
        JsValue::Undefined
    }

    pub fn new_null() -> (r: JsValue)
        ensures
            r == JsValue::Null,
    {
        JsValue::Null
    }

    /// A number value from the bits of an IEEE-754 double.
    pub fn new_number(bits: u64) -> (r: JsValue)
        ensures
            r == JsValue::Number(bits),
    {
        JsValue::Number(bits)
    }

    pub fn new_bool(value: bool) -> (r: JsValue)
        ensures
            r == JsValue::Boolean(value),
    {
        JsValue::Boolean(value)
    }

    pub fn is_undefined(&self) -> (r: bool)
        ensures
            r == (*self == JsValue::Undefined),
    {
        match *self {
            JsValue::Undefined => true,
            _ => false,
        }
    }

    pub fn is_null(&self) -> (r: bool)
        ensures
            r == (*self == JsValue::Null),
    {
        match *self {
            JsValue::Null => true,
            _ => false,
        }
    }

    /// The double bits behind a number value.
    pub fn unwrap_number(&self) -> (r: u64)
        requires
            self.spec_ty() == JsType::Number,
        ensures
            *self == JsValue::Number(r),
    {
        match *self {
            JsValue::Number(bits) => bits,
            _ => 0,  // unreachable under the precondition
        }
    }

    pub fn unwrap_bool(&self) -> (r: bool)
        requires
            self.spec_ty() == JsType::Boolean,
        ensures
            *self == JsValue::Boolean(r),
    {
        match *self {
            JsValue::Boolean(b) => b,
            _ => false,  // unreachable under the precondition
        }
    }

    pub fn unwrap_object(&self) -> (r: u32)
        requires
            self.spec_ty() == JsType::Object,
        ensures
            *self == JsValue::Object(r),
    {
        match *self {
            JsValue::Object(id) => id,
            _ => 0,  // unreachable under the precondition
        }
    }

    pub fn unwrap_string(&self) -> (r: u32)
        requires
            self.spec_ty() == JsType::String,
        ensures
            *self == JsValue::String(r),
    {
        match *self {
            JsValue::String(id) => id,
            _ => 0,  // unreachable under the precondition
        }
    }

    pub fn unwrap_scope(&self) -> (r: u32)
        requires
            self.spec_ty() == JsType::Scope,
        ensures
            *self == JsValue::Scope(r),
    {
        match *self {
            JsValue::Scope(id) => id,
            _ => 0,  // unreachable under the precondition
        }
    }

    /// The payload of a pointer-valued discriminant: the arena cell id.
    pub fn get_ptr(&self) -> (r: u32)
        requires
            self.spec_ty().spec_is_ptr(),
        ensures
            *self == JsValue::String(r) || *self == JsValue::Object(r)
                || *self == JsValue::Iterator(r) || *self == JsValue::Scope(r),
    {
        match *self {
            JsValue::String(id) => id,
            JsValue::Object(id) => id,
            JsValue::Iterator(id) => id,
            JsValue::Scope(id) => id,
            _ => 0,  // unreachable under the precondition
        }
    }
}

/// What makes a function object callable: an IR function, a native
/// callback (name, arity, callback id, constructible flag), or a bound
/// function record.
#[derive(Copy, Clone, Debug)]
pub enum JsFunction {
    Ir(u32),
    Native(Option<Name>, u32, u32, bool),
    Bound,
}

impl JsFunction {
    /// What `==` on `JsFunction` means.  Two native records never compare
    /// equal: a callback identity is not observable.
    pub open spec fn eq_spec_def(&self, other: &JsFunction) -> bool {
        match *self {
            JsFunction::Ir(f) => match *other {
                JsFunction::Ir(g) => f == g,
                _ => false,
            },
            JsFunction::Native(_, _, _, _) => false,
            JsFunction::Bound => match *other {
                JsFunction::Bound => true,
                _ => false,
            },
        }
    }
}

impl PartialEq for JsFunction {
    fn eq(&self, other: &JsFunction) -> (r: bool) {
        match *self {
            JsFunction::Ir(f) => match *other {
                JsFunction::Ir(g) => f == g,
                _ => false,
            },
            JsFunction::Native(_, _, _, _) => false,
            JsFunction::Bound => match *other {
                JsFunction::Bound => true,
                _ => false,
            },
        }
    }
}

impl vstd::std_specs::cmp::PartialEqSpecImpl for JsFunction {
    open spec fn obeys_eq_spec() -> bool {
        true
    }

    open spec fn eq_spec(&self, other: &JsFunction) -> bool {
        self.eq_spec_def(other)
    }
}

} // verus!
