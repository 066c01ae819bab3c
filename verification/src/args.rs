//! The argument frame handed to called functions, and the call mode.

use vstd::prelude::*;
use crate::value::JsValue;

verus! {

/// Packs the construct and strict flags of a call into one byte.
#[derive(Copy, Clone, PartialEq, Eq, Structural, Debug)]
pub struct JsFnMode(u8);

impl JsFnMode {
    /// The flag byte: bit 0 construct, bit 1 strict.
    pub fn new(construct: bool, strict: bool) -> (r: JsFnMode)
        ensures
            r.spec_construct() == construct,
            r.spec_strict() == strict,
    {
        let cbit: u8 = if construct { 1 } else { 0 };
        let sbit: u8 = if strict { 2 } else { 0 };
        let bits: u8 = cbit | sbit;
        assert(((bits & 1 != 0) == (cbit == 1)) && ((bits & 2 != 0) == (sbit == 2)))
            by (bit_vector)
            requires
                bits == cbit | sbit,
                cbit == 1 || cbit == 0,
                sbit == 2 || sbit == 0,
        ;
        JsFnMode(bits)
    }

    pub closed spec fn spec_construct(&self) -> bool {
        self.0 & 1 != 0
    }

    pub closed spec fn spec_strict(&self) -> bool {
        self.0 & 2 != 0
    }

    /// Whether the call is a `new` construction.
    pub fn construct(&self) -> (r: bool)
        ensures
            r == self.spec_construct(),
    {
        (self.0 & 1) != 0
    }

    /// Whether the call runs in strict mode.
    pub fn strict(&self) -> (r: bool)
        ensures
            r == self.spec_strict(),
    {
        (self.0 & 2) != 0
    }
}

/// The frame of a call: the receiver (which doubles as the result slot),
/// the callee, and the arguments.
pub struct JsArgs {
    this: JsValue,
    function: JsValue,
    args: Vec<JsValue>,
}

impl JsArgs {
    pub closed spec fn spec_this(&self) -> JsValue {
        self.this
    }

    pub closed spec fn spec_function(&self) -> JsValue {
        self.function
    }

    pub closed spec fn spec_args(&self) -> Seq<JsValue> {
        self.args@
    }

    /// A frame for calling `function` on `this` with `args`.
    pub fn new(function: JsValue, this: JsValue, args: Vec<JsValue>) -> (r: JsArgs)
        ensures
            r.spec_function() == function,
            r.spec_this() == this,
            r.spec_args() == args@,
    {
        JsArgs {
            this: this,
            function: function,
            args: args,
        }
    }

    /// How many arguments the caller passed.
    pub fn argc(&self) -> (r: usize)
        ensures
            r == self.spec_args().len(),
    {
        self.args.len()
    }

    /// The `index`-th argument, or undefined past the end.
    pub fn arg(&self, index: usize) -> (r: JsValue)
        ensures
            index < self.spec_args().len() ==> r == self.spec_args()[index as int],
            index >= self.spec_args().len() ==> r == JsValue::Undefined,
    {
        if index < self.args.len() {
            self.args[index]
        } else {
            JsValue::Undefined
        }
    }

    /// The `index`-th argument, or `def` past the end.
    pub fn arg_or(&self, index: usize, def: JsValue) -> (r: JsValue)
        ensures
            index < self.spec_args().len() ==> r == self.spec_args()[index as int],
            index >= self.spec_args().len() ==> r == def,
    {
        if index < self.args.len() {
            self.args[index]
        } else {
            def
        }
    }

    /// All arguments, in order.
    pub fn args(&self) -> (r: Vec<JsValue>)
        ensures
            r@ == self.spec_args(),
    {
        let mut out: Vec<JsValue> = Vec::new();
        let mut i: usize = 0;
        while i < self.args.len()
            invariant
                i <= self.args.len(),
                out@ == self.args@.subrange(0, i as int),
            decreases self.args.len() - i,
        {
            out.push(self.args[i]);
            i += 1;
        }
        proof {
            assert(out@ =~= self.args@);
        }
        out
    }

    /// The receiver.
    pub fn this(&self) -> (r: JsValue)
        ensures
            r == self.spec_this(),
    {
        self.this
    }

    /// Replaces the receiver slot.
    pub fn set_this(&mut self, value: JsValue)
        ensures
            final(self).spec_this() == value,
            final(self).spec_function() == old(self).spec_function(),
            final(self).spec_args() == old(self).spec_args(),
    {
        self.this = value;
    }

    /// The receiver slot without further interpretation.
    pub fn raw_this(&self) -> (r: JsValue)
        ensures
            r == self.spec_this(),
    {
        self.this
    }

    /// The result travels in the receiver slot.
    pub fn result(&self) -> (r: JsValue)
        ensures
            r == self.spec_this(),
    {
        self.this
    }

    /// Stores the call's result in the receiver slot.
    pub fn set_result(&mut self, value: JsValue)
        ensures
            final(self).spec_this() == value,
            final(self).spec_function() == old(self).spec_function(),
            final(self).spec_args() == old(self).spec_args(),
    {
        self.set_this(value)
    }

    /// The result slot without further interpretation.
    pub fn raw_result(&self) -> (r: JsValue)
        ensures
            r == self.spec_this(),
    {
        self.raw_this()
    }

    /// The callee.
    pub fn function(&self) -> (r: JsValue)
        ensures
            r == self.spec_function(),
    {
        self.function
    }
}

} // verus!
