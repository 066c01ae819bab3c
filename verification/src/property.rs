//! The ECMAScript property semantics that sit between the interpreter
//! and the raw store: the decision cores of `[[CanPut]]`, `[[Put]]`,
//! `[[DefaultValue]]` and `ToPropertyDescriptor`.
//!
//! Script calls (getters, setters, `toString`, `valueOf`, property
//! fetches on descriptor objects) run through the interpreter; the
//! functions here take those calls' results as plain arguments and
//! decide, so every rule is verified for every outcome the calls can
//! have.

use vstd::prelude::*;
use crate::descriptor::JsDescriptor;
use crate::errors::TypeErrorKind;
use crate::value::{JsType, JsValue};

verus! {

/// Whether a value found in a descriptor slot may serve as a getter or
/// setter: undefined is allowed, anything else must be callable.  The
/// caller reports callability, since it needs the object graph.
pub open spec fn spec_accessor_ok(slot: Option<(JsValue, bool)>) -> bool {
    match slot {
        None => true,
        Some((v, callable)) => v == JsValue::Undefined || callable,
    }
}

/// `ToPropertyDescriptor`, with the six property fetches done by the
/// caller: each argument is present exactly when the property was.
/// Boolean-valued attributes arrive already converted by `ToBoolean`;
/// getter and setter arrive with their callability.
///
/// Rejections, in the order the algorithm checks them: a non-object
/// argument, a getter or setter that is neither undefined nor callable,
/// and `writable` beside an accessor field.
pub fn assemble_property_descriptor(
    obj_is_object: bool,
    enumerable: Option<JsValue>,
    configurable: Option<JsValue>,
    value: Option<JsValue>,
    writable: Option<JsValue>,
    getter: Option<(JsValue, bool)>,
    setter: Option<(JsValue, bool)>,
) -> (r: Result<JsDescriptor, TypeErrorKind>)
    ensures
        !obj_is_object ==> r == Err::<JsDescriptor, TypeErrorKind>(TypeErrorKind::InvalidType),
        obj_is_object && !spec_accessor_ok(getter)
            ==> r == Err::<JsDescriptor, TypeErrorKind>(TypeErrorKind::AccessorNotCallable),
        obj_is_object && spec_accessor_ok(getter) && !spec_accessor_ok(setter)
            ==> r == Err::<JsDescriptor, TypeErrorKind>(TypeErrorKind::AccessorNotCallable),
        obj_is_object && spec_accessor_ok(getter) && spec_accessor_ok(setter)
            && (getter is Some || setter is Some) && writable is Some
            ==> r == Err::<JsDescriptor, TypeErrorKind>(TypeErrorKind::WritableInvalidOnAccessor),
        obj_is_object && spec_accessor_ok(getter) && spec_accessor_ok(setter)
            && !((getter is Some || setter is Some) && writable is Some)
            ==> r == Ok::<JsDescriptor, TypeErrorKind>(JsDescriptor {
                value: value,
                get: match getter { Some((g, _)) => Some(g), None => None },
                set: match setter { Some((s, _)) => Some(s), None => None },
                writable: match writable {
                    Some(w) => Some(spec_to_boolean_shallow(w)),
                    None => None,
                },
                enumerable: match enumerable {
                    Some(e) => Some(spec_to_boolean_shallow(e)),
                    None => None,
                },
                configurable: match configurable {
                    Some(c) => Some(spec_to_boolean_shallow(c)),
                    None => None,
                },
            }),
{
    if !obj_is_object {
        return Err(TypeErrorKind::InvalidType);
    }
    let getter_value = match getter {
        Some((g, callable)) => {
            if !g.is_undefined() && !callable {
                return Err(TypeErrorKind::AccessorNotCallable);
            }
            Some(g)
        },
        None => None,
    };
    let setter_value = match setter {
        Some((s, callable)) => {
            if !s.is_undefined() && !callable {
                return Err(TypeErrorKind::AccessorNotCallable);
            }
            Some(s)
        },
        None => None,
    };
    if (getter_value.is_some() || setter_value.is_some()) && writable.is_some() {
        return Err(TypeErrorKind::WritableInvalidOnAccessor);
    }
    Ok(JsDescriptor {
        value: value,
        get: getter_value,
        set: setter_value,
        writable: match writable {
            Some(w) => Some(to_boolean_shallow(w)),
            None => None,
        },
        enumerable: match enumerable {
            Some(e) => Some(to_boolean_shallow(e)),
            None => None,
        },
        configurable: match configurable {
            Some(c) => Some(to_boolean_shallow(c)),
            None => None,
        },
    })
}

/// `ToBoolean` on a tagged value, pointer payloads taken as true (a
/// heap string's emptiness is the caller's to supply; attribute slots
/// of descriptor objects carry booleans in practice).
pub open spec fn spec_to_boolean_shallow(v: JsValue) -> bool {
    match v {
        JsValue::Undefined => false,
        JsValue::Null => false,
        JsValue::Boolean(b) => b,
        JsValue::Number(bits) => !(crate::number::spec_is_nan(bits)
            || crate::number::spec_is_zero(bits)),
        JsValue::String(_) => true,
        JsValue::Object(_) => true,
        JsValue::Iterator(_) => true,
        JsValue::Scope(_) => true,
    }
}

/// `ToBoolean`, except that a heap string's length is not consulted.
pub fn to_boolean_shallow(v: JsValue) -> (r: bool)
    ensures
        r == spec_to_boolean_shallow(v),
{
    match v {
        JsValue::Undefined => false,
        JsValue::Null => false,
        JsValue::Boolean(b) => b,
        JsValue::Number(bits) => !(crate::number::is_nan(bits) || crate::number::is_zero(bits)),
        _ => true,
    }
}

/// The `[[CanPut]]` verdict over the own descriptor, the inherited
/// descriptor (the prototype chain's answer), and extensibility.
pub open spec fn spec_can_put(
    own: Option<JsDescriptor>,
    inherited: Option<JsDescriptor>,
    extensible: bool,
) -> bool {
    match own {
        Some(d) => {
            if d.spec_is_accessor() {
                d.set is Some && d.set->0 != JsValue::Undefined
            } else {
                d.writable.unwrap_or(false)
            }
        },
        None => match inherited {
            Some(d) => {
                if d.spec_is_accessor() {
                    d.set is Some && d.set->0 != JsValue::Undefined
                } else {
                    extensible && d.writable.unwrap_or(false)
                }
            },
            None => extensible,
        },
    }
}

/// `[[CanPut]]`: an own accessor answers by its setter, an own data
/// property by its writability; otherwise an inherited accessor answers
/// by its setter, an inherited data property by writability gated on
/// extensibility; with nothing found, extensibility decides.
pub fn can_put_decision(
    own: Option<JsDescriptor>,
    inherited: Option<JsDescriptor>,
    extensible: bool,
) -> (r: bool)
    ensures
        r == spec_can_put(own, inherited, extensible),
{
    match own {
        Some(d) => {
            if d.is_accessor() {
                match d.set {
                    Some(s) => !s.is_undefined(),
                    None => false,
                }
            } else {
                d.is_writable()
            }
        },
        None => match inherited {
            Some(d) => {
                if d.is_accessor() {
                    match d.set {
                        Some(s) => !s.is_undefined(),
                        None => false,
                    }
                } else {
                    if !extensible {
                        false
                    } else {
                        d.is_writable()
                    }
                }
            },
            None => extensible,
        },
    }
}

/// What a `[[Put]]` must do next.
#[derive(Copy, Clone, PartialEq, Eq, Structural, Debug)]
pub enum PutStep {
    /// Raise `CannotPut`: the write is rejected and `throw` was set.
    Refuse,
    /// Drop the write silently: rejected without `throw`.
    Ignore,
    /// Redefine the own data property with the new value only.
    WriteOwnValue,
    /// Invoke this setter with the original receiver as `this`.
    InvokeSetter(JsValue),
    /// Define a fresh own data property with default attributes.
    DefineOwn,
}

/// The `[[Put]]` decision of ECMA-262 §8.12.5 over the resolved facts:
/// the own descriptor, the full (own-or-inherited) descriptor, the
/// `[[CanPut]]` verdict, and whether the receiver is an array being
/// written at an index name — the documented deviation that lets an
/// own-index write bypass the `can_put` check.
pub open spec fn spec_put_step(
    own: Option<JsDescriptor>,
    full: Option<JsDescriptor>,
    can_put: bool,
    array_index_bypass: bool,
    throw: bool,
) -> PutStep {
    if !array_index_bypass && !can_put {
        if throw {
            PutStep::Refuse
        } else {
            PutStep::Ignore
        }
    } else if own is Some && own->0.spec_is_data() {
        PutStep::WriteOwnValue
    } else if full is Some && full->0.spec_is_accessor() {
        PutStep::InvokeSetter(full->0.set.unwrap_or(JsValue::Undefined))
    } else {
        PutStep::DefineOwn
    }
}

/// Decides a `[[Put]]`, the array index-name bypass included.
pub fn put_decision(
    own: Option<JsDescriptor>,
    full: Option<JsDescriptor>,
    can_put: bool,
    array_index_bypass: bool,
    throw: bool,
) -> (r: PutStep)
    ensures
        r == spec_put_step(own, full, can_put, array_index_bypass, throw),
{
    if !array_index_bypass && !can_put {
        return if throw {
            PutStep::Refuse
        } else {
            PutStep::Ignore
        };
    }
    match own {
        Some(d) => {
            if d.is_data() {
                return PutStep::WriteOwnValue;
            }
        },
        None => {},
    }
    match full {
        Some(d) => {
            if d.is_accessor() {
                return PutStep::InvokeSetter(d.set());
            }
        },
        None => {},
    }
    PutStep::DefineOwn
}

/// The resolved hint of `[[DefaultValue]]`: with no hint, a `Date`
/// instance prefers `String`, everything else `Number`.
pub fn default_value_hint(hint_is_string: Option<bool>, is_date_instance: bool)
    -> (r: bool)
    ensures
        r == match hint_is_string {
            Some(b) => b,
            None => is_date_instance,
        },
{
    match hint_is_string {
        Some(b) => b,
        None => is_date_instance,
    }
}

/// With the string hint `toString` is tried before `valueOf`; with the
/// number hint the order is reversed.
pub fn default_value_tries_tostring_first(hint_is_string: bool) -> (r: bool)
    ensures
        r == hint_is_string,
{
    hint_is_string
}

/// One step of `[[DefaultValue]]`: the caller reports whether the
/// fetched method was callable and, if it was, what its invocation
/// returned.  A callable method returning a primitive settles the
/// value; otherwise the first phase moves on to the second method, and
/// the second phase fails with `InvalidType`.
pub fn default_value_step(
    second_phase: bool,
    method_callable: bool,
    call_result: JsValue,
) -> (r: Result<Option<JsValue>, TypeErrorKind>)
    ensures
        method_callable && call_result.spec_ty() != JsType::Object
            ==> r == Ok::<Option<JsValue>, TypeErrorKind>(Some(call_result)),
        !(method_callable && call_result.spec_ty() != JsType::Object) && !second_phase
            ==> r == Ok::<Option<JsValue>, TypeErrorKind>(None),
        !(method_callable && call_result.spec_ty() != JsType::Object) && second_phase
            ==> r == Err::<Option<JsValue>, TypeErrorKind>(TypeErrorKind::InvalidType),
{
    if method_callable && call_result.ty().is_primitive() {
        Ok(Some(call_result))
    } else if !second_phase {
        Ok(None)
    } else {
        Err(TypeErrorKind::InvalidType)
    }
}

} // verus!
