//! Property descriptors with ECMAScript attribute semantics.
//!
//! A descriptor is a partial record: each of the six recognized fields
//! may be present or absent.  A data descriptor mentions `value` or
//! `writable`; an accessor descriptor mentions `get` or `set`; a generic
//! descriptor mentions neither.

use vstd::prelude::*;
use crate::value::{JsValue, JsType};
use crate::number::spec_same_value_number;

verus! {

/// SameValue over two tagged values: NaN equals NaN, the two zeros
/// differ, everything else compares by discriminant and payload.
pub open spec fn spec_same_value(x: JsValue, y: JsValue) -> bool {
    match x {
        JsValue::Number(a) => match y {
            JsValue::Number(b) => spec_same_value_number(a, b),
            _ => false,
        },
        _ => x == y,
    }
}

/// The SameValue algorithm on tagged values.
pub fn same_value(x: JsValue, y: JsValue) -> (r: bool)
    ensures
        r == spec_same_value(x, y),
{
    match x {
        JsValue::Number(a) => match y {
            JsValue::Number(b) => crate::number::same_value_number(a, b),
            _ => false,
        },
        _ => x == y,
    }
}

/// A property descriptor: the six recognized fields, each optional.
#[derive(Copy, Clone, PartialEq, Eq, Structural, Debug)]
pub struct JsDescriptor {
    pub value: Option<JsValue>,
    pub get: Option<JsValue>,
    pub set: Option<JsValue>,
    pub writable: Option<bool>,
    pub enumerable: Option<bool>,
    pub configurable: Option<bool>,
}

impl JsDescriptor {
    /// The descriptor with every field absent.
    pub fn default() -> (r: JsDescriptor)
        ensures
            r == (JsDescriptor {
                value: None, get: None, set: None,
                writable: None, enumerable: None, configurable: None,
            }),
    {
        JsDescriptor {
            value: None,
            get: None,
            set: None,
            writable: None,
            enumerable: None,
            configurable: None,
        }
    }

    /// A full data descriptor.
    pub fn new_value(value: JsValue, writable: bool, enumerable: bool, configurable: bool)
        -> (r: JsDescriptor)
        ensures
            r == (JsDescriptor {
                value: Some(value), get: None, set: None,
                writable: Some(writable),
                enumerable: Some(enumerable),
                configurable: Some(configurable),
            }),
    {
        JsDescriptor {
            value: Some(value),
            get: None,
            set: None,
            writable: Some(writable),
            enumerable: Some(enumerable),
            configurable: Some(configurable),
        }
    }

    /// A data descriptor with all three attributes set.
    pub fn new_simple_value(value: JsValue) -> (r: JsDescriptor)
        ensures
            r == JsDescriptor::spec_new_value(value, true, true, true),
    {
        Self::new_value(value, true, true, true)
    }

    /// The record `new_value` builds, for use in contracts.
    pub open spec fn spec_new_value(
        value: JsValue, writable: bool, enumerable: bool, configurable: bool,
    ) -> JsDescriptor {
        JsDescriptor {
            value: Some(value), get: None, set: None,
            writable: Some(writable),
            enumerable: Some(enumerable),
            configurable: Some(configurable),
        }
    }

    /// A full accessor descriptor.
    pub fn new_accessor(get: Option<JsValue>, set: Option<JsValue>, enumerable: bool, configurable: bool)
        -> (r: JsDescriptor)
        ensures
            r == (JsDescriptor {
                value: None, get: get, set: set,
                writable: None,
                enumerable: Some(enumerable),
                configurable: Some(configurable),
            }),
    {
        JsDescriptor {
            value: None,
            get: get,
            set: set,
            writable: None,
            enumerable: Some(enumerable),
            configurable: Some(configurable),
        }
    }

    /// An accessor descriptor with both attributes set.
    pub fn new_simple_accessor(get: Option<JsValue>, set: Option<JsValue>) -> (r: JsDescriptor)
        ensures
            r == (JsDescriptor {
                value: None, get: get, set: set,
                writable: None,
                enumerable: Some(true),
                configurable: Some(true),
            }),
    {
        Self::new_accessor(get, set, true, true)
    }

    /// Field-wise equality, comparing present values by SameValue.
    pub open spec fn spec_is_same(&self, other: &JsDescriptor) -> bool {
        &&& spec_same_opt(self.value, other.value)
        &&& spec_same_opt(self.get, other.get)
        &&& spec_same_opt(self.set, other.set)
        &&& self.writable == other.writable
        &&& self.enumerable == other.enumerable
        &&& self.configurable == other.configurable
    }

    pub fn is_same(&self, other: &JsDescriptor) -> (r: bool)
        ensures
            r == self.spec_is_same(other),
    {
        same_opt(&self.value, &other.value)
            && same_opt(&self.get, &other.get)
            && same_opt(&self.set, &other.set)
            && self.writable == other.writable
            && self.enumerable == other.enumerable
            && self.configurable == other.configurable
    }

    /// IsAccessorDescriptor.
    pub open spec fn spec_is_accessor(&self) -> bool {
        self.get is Some || self.set is Some
    }

    pub fn is_accessor(&self) -> (r: bool)
        ensures
            r == self.spec_is_accessor(),
    {
        self.get.is_some() || self.set.is_some()
    }

    /// IsDataDescriptor.
    pub open spec fn spec_is_data(&self) -> bool {
        self.writable is Some || self.value is Some
    }

    pub fn is_data(&self) -> (r: bool)
        ensures
            r == self.spec_is_data(),
    {
        self.writable.is_some() || self.value.is_some()
    }

    /// IsGenericDescriptor.
    pub fn is_generic(&self) -> (r: bool)
        ensures
            r == (!self.spec_is_accessor() && !self.spec_is_data()),
    {
        !(self.is_accessor() || self.is_data())
    }

    /// The present `value`, or undefined.
    pub fn value(&self) -> (r: JsValue)
        ensures
            r == self.value.unwrap_or(JsValue::Undefined),
    {
        match self.value {
            Some(v) => v,
            None => JsValue::Undefined,
        }
    }

    /// The present getter, or undefined.
    pub fn get(&self) -> (r: JsValue)
        ensures
            r == self.get.unwrap_or(JsValue::Undefined),
    {
        match self.get {
            Some(v) => v,
            None => JsValue::Undefined,
        }
    }

    /// The present setter, or undefined.
    pub fn set(&self) -> (r: JsValue)
        ensures
            r == self.set.unwrap_or(JsValue::Undefined),
    {
        match self.set {
            Some(v) => v,
            None => JsValue::Undefined,
        }
    }

    pub fn is_writable(&self) -> (r: bool)
        ensures
            r == self.writable.unwrap_or(false),
    {
        match self.writable {
            Some(b) => b,
            None => false,
        }
    }

    pub fn is_enumerable(&self) -> (r: bool)
        ensures
            r == self.enumerable.unwrap_or(false),
    {
        match self.enumerable {
            Some(b) => b,
            None => false,
        }
    }

    pub fn is_configurable(&self) -> (r: bool)
        ensures
            r == self.configurable.unwrap_or(false),
    {
        match self.configurable {
            Some(b) => b,
            None => false,
        }
    }

    pub fn is_empty(&self) -> (r: bool)
        ensures
            r == (self.value is None && self.get is None && self.set is None
                && self.writable is None && self.enumerable is None
                && self.configurable is None),
    {
        self.value.is_none() && self.get.is_none() && self.set.is_none()
            && self.writable.is_none() && self.enumerable.is_none()
            && self.configurable.is_none()
    }

    /// The record `merge` builds: fields of `self`, with absent ones
    /// filled from `other`.
    pub open spec fn spec_merge(&self, other: JsDescriptor) -> JsDescriptor {
        JsDescriptor {
            value: if self.value is Some { self.value } else { other.value },
            get: if self.get is Some { self.get } else { other.get },
            set: if self.set is Some { self.set } else { other.set },
            writable: if self.writable is Some { self.writable } else { other.writable },
            enumerable: if self.enumerable is Some { self.enumerable } else { other.enumerable },
            configurable: if self.configurable is Some { self.configurable } else { other.configurable },
        }
    }

    /// Fills the absent fields of `self` from `other`.
    pub fn merge(&self, other: JsDescriptor) -> (r: JsDescriptor)
        ensures
            r == self.spec_merge(other),
    {
        JsDescriptor {
            value: if self.value.is_some() { self.value } else { other.value },
            get: if self.get.is_some() { self.get } else { other.get },
            set: if self.set.is_some() { self.set } else { other.set },
            writable: if self.writable.is_some() { self.writable } else { other.writable },
            enumerable: if self.enumerable.is_some() { self.enumerable } else { other.enumerable },
            configurable: if self.configurable.is_some() { self.configurable } else { other.configurable },
        }
    }
}

/// SameValue lifted to optional values: both absent, or both present and
/// the same.
pub open spec fn spec_same_opt(x: Option<JsValue>, y: Option<JsValue>) -> bool {
    match x {
        None => y is None,
        Some(a) => match y {
            None => false,
            Some(b) => spec_same_value(a, b),
        },
    }
}

fn same_opt(x: &Option<JsValue>, y: &Option<JsValue>) -> (r: bool)
    ensures
        r == spec_same_opt(*x, *y),
{
    match x {
        None => y.is_none(),
        Some(a) => match y {
            None => false,
            Some(b) => same_value(*a, *b),
        },
    }
}

} // verus!
