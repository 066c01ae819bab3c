//! Scope-chain objects: the interpreter's lexical environments.
//!
//! A scope is a fixed-length array of tagged values.  Slot 0 holds the
//! parent-scope reference.  A *thin* scope of `n` variables has `n + 1`
//! slots.  A *thick* scope has 2 slots, or 3 when it carries an
//! arguments object: slot 1 is the scope object, slot 2 the arguments.

use vstd::prelude::*;
use crate::value::{JsValue, JsType};
use crate::errors::FatalError;

verus! {

/// A lexical environment: slot 0 parent, then the variable slots (thin)
/// or the scope object and optional arguments object (thick).
pub struct JsScope {
    items: Vec<JsValue>,
    thick: bool,
}

impl JsScope {
    /// The raw slots.
    pub closed spec fn view(&self) -> Seq<JsValue> {
        self.items@
    }

    /// Whether this is a thick scope (scope object, maybe arguments).
    pub closed spec fn spec_thick(&self) -> bool {
        self.thick
    }

    /// Every scope has the parent slot; a thick scope has 2 or 3 slots.
    pub open spec fn wf(&self) -> bool {
        self.view().len() >= 1
    }

    /// A thin scope of `size` variable slots, all undefined.
    pub fn new_local_thin(size: usize, parent: Option<JsValue>) -> (r: JsScope)
        requires
            size < usize::MAX,
            parent is Some ==> parent->0.spec_ty() == JsType::Scope,
        ensures
            r.view().len() == size + 1,
            !r.spec_thick(),
            r.view()[0] == parent.unwrap_or(JsValue::Undefined),
            forall|i: int| 1 <= i < r.view().len() ==> r.view()[i] == JsValue::Undefined,
    {
        let mut items: Vec<JsValue> = Vec::new();
        match parent {
            Some(p) => items.push(p),
            None => items.push(JsValue::Undefined),
        }
        let mut i: usize = 0;
        while i < size
            invariant
                items@.len() == i + 1,
                i <= size,
                items@[0] == parent.unwrap_or(JsValue::Undefined),
                forall|j: int| 1 <= j < items@.len() ==> items@[j] == JsValue::Undefined,
            decreases size - i,
        {
            items.push(JsValue::Undefined);
            i += 1;
        }
        JsScope { items: items, thick: false }
    }

    /// A thick scope: parent, scope object, and an arguments slot when
    /// asked for.
    pub fn new_local_thick(scope_object: JsValue, parent: Option<JsValue>, arguments: bool)
        -> (r: JsScope)
        requires
            scope_object.spec_ty() == JsType::Object,
            parent is Some ==> parent->0.spec_ty() == JsType::Scope,
        ensures
            r.view().len() == if arguments { 3int } else { 2int },
            r.spec_thick(),
            r.view()[0] == parent.unwrap_or(JsValue::Undefined),
            r.view()[1] == scope_object,
            arguments ==> r.view()[2] == JsValue::Undefined,
    {
        let mut items: Vec<JsValue> = Vec::new();
        match parent {
            Some(p) => items.push(p),
            None => items.push(JsValue::Undefined),
        }
        items.push(scope_object);
        if arguments {
            items.push(JsValue::Undefined);
        }
        JsScope { items: items, thick: true }
    }

    /// The parent scope, if one was linked.
    pub fn parent(&self) -> (r: Option<JsValue>)
        requires
            self.wf(),
        ensures
            self.view()[0] == JsValue::Undefined ==> r is None,
            self.view()[0] != JsValue::Undefined ==> r == Some(self.view()[0]),
    {
        let p = self.items[0];
        if p.is_undefined() {
            None
        } else {
            Some(p)
        }
    }

    /// The scope object of a thick scope.
    pub fn scope_object(&self) -> (r: JsValue)
        requires
            self.view().len() >= 2,
        ensures
            r == self.view()[1],
    {
        self.items[1]
    }

    /// The arguments object, if this scope has the slot: only a thick
    /// scope built with one carries it.
    pub fn arguments(&self) -> (r: Option<JsValue>)
        requires
            self.view().len() >= 2,
        ensures
            !self.spec_thick() || self.view().len() == 2 ==> r is None,
            self.spec_thick() && self.view().len() > 2 ==> r == Some(self.view()[2]),
    {
        if !self.thick || self.items.len() == 2 {
            None
        } else {
            Some(self.items[2])
        }
    }

    /// Stores the arguments object.  A thin scope has no such slot,
    /// whatever its length, and neither has a thick scope built without
    /// one: both fail with `BadScopeSlot`.
    pub fn set_arguments(&mut self, arguments: JsValue) -> (r: Result<(), FatalError>)
        requires
            old(self).view().len() >= 2,
        ensures
            !old(self).spec_thick() || old(self).view().len() == 2
                ==> r == Result::<(), FatalError>::Err(FatalError::BadScopeSlot)
                    && *final(self) == *old(self),
            old(self).spec_thick() && old(self).view().len() > 2
                ==> r is Ok
                    && final(self).view() == old(self).view().update(2, arguments)
                    && final(self).spec_thick() == old(self).spec_thick(),
    {
        if !self.thick || self.items.len() == 2 {
            Err(FatalError::BadScopeSlot)
        } else {
            self.items.set(2, arguments);
            Ok(())
        }
    }

    /// How many addressable slots follow the parent slot.
    pub fn len(&self) -> (r: usize)
        requires
            self.wf(),
        ensures
            r == self.view().len() - 1,
    {
        self.items.len() - 1
    }

    /// The `index`-th slot past the parent slot.
    pub fn get(&self, index: usize) -> (r: JsValue)
        requires
            index + 1 < self.view().len(),
        ensures
            r == self.view()[index + 1int],
    {
        let n = self.items.len();
        assert(index + 1 < n);
        self.items[index + 1]
    }

    /// Writes the `index`-th slot past the parent slot.
    pub fn set(&mut self, index: usize, value: JsValue)
        requires
            index + 1 < old(self).view().len(),
        ensures
            final(self).view() == old(self).view().update(index + 1, value),
    {
        let n = self.items.len();
        assert(index + 1 < n);
        self.items.set(index + 1, value);
    }

    /// Reads a raw slot.
    pub fn raw_get(&self, index: usize) -> (r: JsValue)
        requires
            index < self.view().len(),
        ensures
            r == self.view()[index as int],
    {
        self.items[index]
    }

    /// Writes a raw slot.
    pub fn raw_set(&mut self, index: usize, value: JsValue)
        requires
            index < old(self).view().len(),
        ensures
            final(self).view() == old(self).view().update(index as int, value),
    {
        self.items.set(index, value);
    }
}

} // verus!
