//! The open-addressed property store.
//!
//! A `Hash` is a prime-sized array of descriptor slots using closed
//! hashing.  Every entry lives in the chain of its *home* bucket (the
//! name reduced modulo the capacity): either directly in the home slot,
//! or in an overflow slot linked from the home chain by the `next`
//! fields.  An entry occupying a foreign home slot (an interloper) is
//! evicted when the rightful family arrives.
//!
//! Well-formedness (`wf`) carries the facts every operation preserves:
//! names are unique, every chain starts at its home slot and covers
//! exactly the entries of that home, the population counter counts the
//! valid slots, and the load never passes 70% of the capacity.

use vstd::prelude::*;
use crate::name::Name;
use crate::value::JsValue;
use crate::descriptor::JsDescriptor;

verus! {

/// `valid` bit: the slot holds a live entry.
pub const FLAG_VALID: u32 = 0b00001;
/// `writable` attribute bit.
pub const FLAG_WRITABLE: u32 = 0b00010;
/// `enumerable` attribute bit.
pub const FLAG_ENUMERABLE: u32 = 0b00100;
/// `configurable` attribute bit.
pub const FLAG_CONFIGURABLE: u32 = 0b01000;
/// `accessor` bit: the two value words are getter and setter.
pub const FLAG_ACCESSOR: u32 = 0b10000;

/// One slot of the store: the interned name, five attribute bits, the
/// chain link to the next entry of the same bucket, and the two value
/// words (value + unused for data entries, getter + setter for
/// accessors).
#[derive(Copy, Clone, Debug)]
pub struct Entry {
    name: Name,
    flags: u32,
    next: i32,
    value1: JsValue,
    value2: JsValue,
}

impl Entry {
    pub closed spec fn spec_valid(&self) -> bool {
        self.flags & FLAG_VALID != 0
    }

    pub closed spec fn spec_writable(&self) -> bool {
        self.flags & FLAG_WRITABLE != 0
    }

    pub closed spec fn spec_enumerable(&self) -> bool {
        self.flags & FLAG_ENUMERABLE != 0
    }

    pub closed spec fn spec_configurable(&self) -> bool {
        self.flags & FLAG_CONFIGURABLE != 0
    }

    pub closed spec fn spec_accessor(&self) -> bool {
        self.flags & FLAG_ACCESSOR != 0
    }

    pub closed spec fn spec_name(&self) -> Name {
        self.name
    }

    pub closed spec fn spec_next(&self) -> int {
        self.next as int
    }

    /// The descriptor this slot stores.
    pub closed spec fn spec_as_property(&self) -> JsDescriptor {
        if self.spec_accessor() {
            JsDescriptor {
                value: None,
                get: Some(self.value1),
                set: Some(self.value2),
                writable: None,
                enumerable: Some(self.spec_enumerable()),
                configurable: Some(self.spec_configurable()),
            }
        } else {
            JsDescriptor {
                value: Some(self.value1),
                get: None,
                set: None,
                writable: Some(self.spec_writable()),
                enumerable: Some(self.spec_enumerable()),
                configurable: Some(self.spec_configurable()),
            }
        }
    }

    pub fn is_valid(&self) -> (r: bool)
        ensures
            r == self.spec_valid(),
    {
        (self.flags & FLAG_VALID) != 0
    }

    /// The stored descriptor, with every field of its family present.
    pub fn as_property(&self) -> (r: JsDescriptor)
        ensures
            r == self.spec_as_property(),
    {
        if (self.flags & FLAG_ACCESSOR) != 0 {
            JsDescriptor {
                value: None,
                get: Some(self.value1),
                set: Some(self.value2),
                writable: None,
                enumerable: Some((self.flags & FLAG_ENUMERABLE) != 0),
                configurable: Some((self.flags & FLAG_CONFIGURABLE) != 0),
            }
        } else {
            JsDescriptor {
                value: Some(self.value1),
                get: None,
                set: None,
                writable: Some((self.flags & FLAG_WRITABLE) != 0),
                enumerable: Some((self.flags & FLAG_ENUMERABLE) != 0),
                configurable: Some((self.flags & FLAG_CONFIGURABLE) != 0),
            }
        }
    }

    /// The descriptor a store of `descriptor` yields back: absent
    /// attributes default to `true`, the value words default to
    /// undefined, and only the fields of the stored family are present.
    pub open spec fn spec_complete(descriptor: JsDescriptor) -> JsDescriptor {
        if descriptor.spec_is_accessor() {
            JsDescriptor {
                value: None,
                get: Some(descriptor.get.unwrap_or(JsValue::Undefined)),
                set: Some(descriptor.set.unwrap_or(JsValue::Undefined)),
                writable: None,
                enumerable: Some(descriptor.enumerable.unwrap_or(true)),
                configurable: Some(descriptor.configurable.unwrap_or(true)),
            }
        } else {
            JsDescriptor {
                value: Some(descriptor.value.unwrap_or(JsValue::Undefined)),
                get: None,
                set: None,
                writable: Some(descriptor.writable.unwrap_or(true)),
                enumerable: Some(descriptor.enumerable.unwrap_or(true)),
                configurable: Some(descriptor.configurable.unwrap_or(true)),
            }
        }
    }

    /// Packs a descriptor into a slot.
    pub fn from_descriptor(descriptor: &JsDescriptor, name: Name, next: i32) -> (r: Entry)
        ensures
            r.spec_name() == name,
            r.spec_next() == next,
            r.spec_valid(),
            r.spec_as_property() == Entry::spec_complete(*descriptor),
    {
        let accessor = descriptor.is_accessor();
        let wbit: u32 = if descriptor.writable.unwrap_or(true) { FLAG_WRITABLE } else { 0 };
        let cbit: u32 = if descriptor.configurable.unwrap_or(true) { FLAG_CONFIGURABLE } else { 0 };
        let ebit: u32 = if descriptor.enumerable.unwrap_or(true) { FLAG_ENUMERABLE } else { 0 };
        let abit: u32 = if accessor { FLAG_ACCESSOR } else { 0 };
        let flags: u32 = FLAG_VALID | wbit | cbit | ebit | abit;
        assert((flags & FLAG_VALID != 0)
            && ((flags & FLAG_WRITABLE != 0) == (wbit == FLAG_WRITABLE))
            && ((flags & FLAG_ENUMERABLE != 0) == (ebit == FLAG_ENUMERABLE))
            && ((flags & FLAG_CONFIGURABLE != 0) == (cbit == FLAG_CONFIGURABLE))
            && ((flags & FLAG_ACCESSOR != 0) == (abit == FLAG_ACCESSOR))) by (bit_vector)
            requires
                flags == FLAG_VALID | wbit | cbit | ebit | abit,
                wbit == FLAG_WRITABLE || wbit == 0,
                ebit == FLAG_ENUMERABLE || ebit == 0,
                cbit == FLAG_CONFIGURABLE || cbit == 0,
                abit == FLAG_ACCESSOR || abit == 0,
        ;
        let value1: JsValue;
        let value2: JsValue;
        if accessor {
            value1 = match descriptor.get {
                Some(get) => get,
                None => JsValue::Undefined,
            };
            value2 = match descriptor.set {
                Some(set) => set,
                None => JsValue::Undefined,
            };
        } else {
            value1 = match descriptor.value {
                Some(value) => value,
                None => JsValue::Undefined,
            };
            value2 = JsValue::Undefined;
        }
        Entry {
            name: name,
            flags: flags,
            next: next,
            value1: value1,
            value2: value2,
        }
    }
}


/// A multiple of an even number is even.
proof fn lemma_even_divisor_of_odd(n: int, d: int)
    requires
        d % 2 == 0,
        d > 0,
        n % d == 0,
    ensures
        n % 2 == 0,
{
    vstd::arithmetic::div_mod::lemma_fundamental_div_mod(n, d);
    vstd::arithmetic::div_mod::lemma_fundamental_div_mod(d, 2);
    let q = n / d;
    let e = d / 2;
    assert(n == d * q);
    assert(d == 2 * e);
    assert(d * q == (q * e) * 2) by (nonlinear_arith)
        requires
            d == 2 * e,
    ;
    vstd::arithmetic::div_mod::lemma_mod_multiples_basic(q * e, 2);
    assert((q * e) * 2 == 2 * (q * e)) by (nonlinear_arith);
}

/// A divisor at least as large as the square-root bound pairs with a
/// cofactor below it.
proof fn lemma_large_divisor_has_small_cofactor(n: int, d: int, bound: int)
    requires
        n >= 2,
        bound >= 2,
        bound * bound > n,
        bound <= d < n,
        n % d == 0,
    ensures
        2 <= n / d < bound,
        n % (n / d) == 0,
{
    vstd::arithmetic::div_mod::lemma_fundamental_div_mod(n, d);
    let q = n / d;
    assert(n == d * q);
    assert(q >= 1) by (nonlinear_arith)
        requires
            n == d * q,
            n >= 2,
            d < n,
            d >= 2,
    ;
    assert(q != 1) by {
        if q == 1 {
            assert(n == d * 1);
        }
    }
    assert(q < bound) by (nonlinear_arith)
        requires
            n == d * q,
            bound * bound > n,
            d >= bound,
            q >= 2,
            bound >= 2,
    ;
    assert(n % q == 0) by {
        vstd::arithmetic::div_mod::lemma_mod_multiples_basic(d, q);
        assert(d * q == n);
    }
}

/// The slot visited `u` steps past `tail`, wrapping at `cap`.
pub open spec fn wrap_slot(tail: int, u: int, cap: int) -> int {
    if tail + 1 + u >= cap { tail + 1 + u - cap } else { tail + 1 + u }
}

/// An invalid slot for fresh tables.
fn empty_entry() -> (r: Entry)
    ensures
        !r.spec_valid(),
{
    let r = Entry {
        name: Name(0),
        flags: 0,
        next: -1,
        value1: JsValue::Undefined,
        value2: JsValue::Undefined,
    };
    assert(0u32 & FLAG_VALID == 0) by (bit_vector);
    r
}

/// The number of valid slots in a prefix of the slot array.
pub open spec fn num_valid(s: Seq<Entry>) -> nat
    decreases s.len(),
{
    if s.len() == 0 {
        0
    } else {
        num_valid(s.drop_last()) + if s.last().spec_valid() { 1nat } else { 0nat }
    }
}

/// Flipping one slot changes `num_valid` by exactly that slot's change.
proof fn lemma_num_valid_update(s1: Seq<Entry>, s2: Seq<Entry>, i: int)
    requires
        s1.len() == s2.len(),
        0 <= i < s1.len(),
        forall|j: int| 0 <= j < s1.len() && j != i ==> s1[j] == s2[j],
    ensures
        num_valid(s2) == num_valid(s1)
            - (if s1[i].spec_valid() { 1int } else { 0int })
            + (if s2[i].spec_valid() { 1int } else { 0int }),
    decreases s1.len(),
{
    if i == s1.len() - 1 {
        assert(s1.drop_last() =~= s2.drop_last());
    } else {
        lemma_num_valid_update(s1.drop_last(), s2.drop_last(), i);
    }
}

/// `num_valid` of a fully invalid array is zero.
proof fn lemma_num_valid_empty(s: Seq<Entry>)
    requires
        forall|j: int| 0 <= j < s.len() ==> !(#[trigger] s[j]).spec_valid(),
    ensures
        num_valid(s) == 0,
    decreases s.len(),
{
    if s.len() > 0 {
        lemma_num_valid_empty(s.drop_last());
    }
}

/// The open-addressed property store.
pub struct Hash {
    entries: Vec<Entry>,
    count: u32,
}

impl Hash {
    /// Capacity: the size of the slot array.
    pub closed spec fn cap(&self) -> int {
        self.entries@.len() as int
    }

    /// The population counter.
    pub closed spec fn spec_len(&self) -> nat {
        self.count as nat
    }

    /// The slot array.
    pub closed spec fn slots(&self) -> Seq<Entry> {
        self.entries@
    }

    /// Slot `i` holds a live entry.
    pub closed spec fn val(&self, i: int) -> bool {
        0 <= i < self.cap() && self.entries@[i].spec_valid()
    }

    /// The raw name in slot `i`.
    pub closed spec fn nm(&self, i: int) -> u64 {
        self.entries@[i].name.0
    }

    /// The home bucket of a name: the name truncated to 32 bits, modulo
    /// the capacity.
    pub closed spec fn home_of(&self, n: u64) -> int {
        ((n as u32) as int) % self.cap()
    }

    /// Slot `h` is a chain head: valid and living in its own home.
    pub closed spec fn is_head(&self, h: int) -> bool {
        self.val(h) && self.home_of(self.nm(h)) == h
    }

    /// Some live slot holds this name.
    pub closed spec fn has_name(&self, n: u64) -> bool {
        exists|i: int| #[trigger] self.val(i) && self.nm(i) == n
    }

    /// The slot holding this name (meaningful when `has_name`).
    pub closed spec fn slot_of(&self, n: u64) -> int {
        choose|i: int| #[trigger] self.val(i) && self.nm(i) == n
    }

    /// The descriptor stored under this name.
    pub closed spec fn stored(&self, n: u64) -> JsDescriptor {
        self.entries@[self.slot_of(n)].spec_as_property()
    }

    /// The store as a map from raw names to their stored descriptors.
    pub closed spec fn contents(&self) -> Map<u64, JsDescriptor> {
        Map::new(|n: u64| self.has_name(n), |n: u64| self.stored(n))
    }

    /// The chain starting at slot `i`, following `next` links, cut off
    /// by `fuel`.
    pub closed spec fn chain_from(&self, i: int, fuel: nat) -> Seq<int>
        decreases fuel,
    {
        if fuel == 0 {
            Seq::empty()
        } else if !self.val(i) {
            Seq::empty()
        } else if self.entries@[i].next < 0 {
            seq![i]
        } else {
            seq![i] + self.chain_from(self.entries@[i].next as int, (fuel - 1) as nat)
        }
    }

    /// The chain of bucket `h` at the canonical fuel.
    pub closed spec fn chain(&self, h: int) -> Seq<int> {
        self.chain_from(h, (self.cap() + 1) as nat)
    }

    /// The conditions a head's chain satisfies: every member is a live
    /// entry of this bucket, members are distinct, and the chain is
    /// closed (its tail carries no link).
    pub closed spec fn chain_ok(&self, h: int) -> bool {
        &&& forall|k: int| 0 <= k < self.chain(h).len()
            ==> self.val(#[trigger] self.chain(h)[k])
                && self.home_of(self.nm(self.chain(h)[k])) == h
        &&& forall|k: int, l: int| 0 <= k < l < self.chain(h).len()
            ==> self.chain(h)[k] != self.chain(h)[l]
        &&& self.chain(h).len() > 0
            ==> self.entries@[self.chain(h)[self.chain(h).len() - 1]].next < 0
    }

    /// Well-formedness of the whole store.
    pub closed spec fn wf(&self) -> bool {
        &&& 3 <= self.cap() <= 0x7FFF_FFFF
        &&& self.count as nat == num_valid(self.entries@)
        &&& 10 * (self.count as int) <= 7 * self.cap()
        // names are unique
        &&& forall|i: int, j: int|
            self.val(i) && self.val(j) && self.nm(i) == self.nm(j) ==> i == j
        // every chain is well-shaped
        &&& forall|h: int| #[trigger] self.is_head(h) ==> self.chain_ok(h)
        // every live entry hangs off its home's chain
        &&& forall|i: int| #[trigger] self.val(i)
            ==> self.chain(self.home_of(self.nm(i))).contains(i)
        // every live entry's home bucket holds a head of that bucket
        &&& forall|i: int| #[trigger] self.val(i)
            ==> self.is_head(self.home_of(self.nm(i)))
    }

    /// Structural facts every chain enjoys by construction.
    proof fn lemma_chain_from_props(&self, i: int, fuel: nat)
        ensures
            ({
                let c = self.chain_from(i, fuel);
                &&& (c.len() > 0 <==> fuel > 0 && self.val(i))
                &&& c.len() > 0 ==> c[0] == i
                &&& forall|k: int| 0 <= k < c.len() ==> self.val(#[trigger] c[k])
                &&& forall|k: int| 0 <= k < c.len() - 1
                    ==> self.entries@[#[trigger] c[k]].next == c[k + 1]
                    && self.entries@[c[k]].next >= 0
                &&& c.len() < fuel && c.len() > 0
                    ==> self.entries@[c[c.len() - 1]].next < 0
                        || !self.val(self.entries@[c[c.len() - 1]].next as int)
                &&& c.len() <= fuel
            }),
        decreases fuel,
    {
        if fuel > 0 && self.val(i) {
            let nxt = self.entries@[i].next;
            if nxt >= 0 {
                self.lemma_chain_from_props(nxt as int, (fuel - 1) as nat);
            }
        }
    }

    /// A chain whose members are untouched between two states is the
    /// same chain in both.
    proof fn lemma_chain_frame(s1: &Hash, s2: &Hash, i: int, fuel: nat)
        requires
            s1.cap() == s2.cap(),
            ({
                let c = s1.chain_from(i, fuel);
                &&& forall|k: int| 0 <= k < c.len()
                    ==> s2.entries@[#[trigger] c[k]] == s1.entries@[c[k]]
                &&& c.len() > 0 ==> s1.entries@[c[c.len() - 1]].next < 0
                &&& !s1.val(i) ==> (0 <= i < s1.cap() ==> s2.entries@[i] == s1.entries@[i])
            }),
        ensures
            s2.chain_from(i, fuel) == s1.chain_from(i, fuel),
        decreases fuel,
    {
        if fuel == 0 {
        } else if !s1.val(i) {
            assert(s2.chain_from(i, fuel) =~= Seq::<int>::empty());
        } else {
            let c = s1.chain_from(i, fuel);
            assert(c[0] == i);
            assert(s2.entries@[i] == s1.entries@[i]);
            let nxt = s1.entries@[i].next;
            if nxt < 0 {
                assert(s2.chain_from(i, fuel) =~= seq![i]);
            } else {
                let tail1 = s1.chain_from(nxt as int, (fuel - 1) as nat);
                assert(c =~= seq![i] + tail1);
                assert forall|k: int| 0 <= k < tail1.len()
                    implies s2.entries@[#[trigger] tail1[k]] == s1.entries@[tail1[k]] by {
                    assert(c[k + 1] == tail1[k]);
                }
                s1.lemma_chain_from_props(nxt as int, (fuel - 1) as nat);
                if tail1.len() == 0 {
                    // then c == [i] with a forward link, contradicting closedness
                    assert(c[c.len() - 1] == i);
                    assert(false);
                } else {
                    assert(c[c.len() - 1] == tail1[tail1.len() - 1]);
                    Self::lemma_chain_frame(s1, s2, nxt as int, (fuel - 1) as nat);
                }
                assert(s2.chain_from(i, fuel) =~= seq![i] + s2.chain_from(nxt as int, (fuel - 1) as nat));
            }
        }
    }

    /// A closed chain is insensitive to extra fuel.
    proof fn lemma_chain_fuel(&self, i: int, f1: nat, f2: nat)
        requires
            f1 <= f2,
            ({
                let c = self.chain_from(i, f1);
                c.len() < f1 && (c.len() > 0 ==> self.entries@[c[c.len() - 1]].next < 0)
            }),
        ensures
            self.chain_from(i, f2) == self.chain_from(i, f1),
        decreases f2,
    {
        if f1 == 0 {
            assert(false);
        } else if !self.val(i) {
            assert(self.chain_from(i, f2) =~= Seq::<int>::empty());
        } else {
            let nxt = self.entries@[i].next;
            if nxt < 0 {
                assert(self.chain_from(i, f2) =~= seq![i]);
            } else {
                let c = self.chain_from(i, f1);
                let tail = self.chain_from(nxt as int, (f1 - 1) as nat);
                assert(c =~= seq![i] + tail);
                self.lemma_chain_from_props(nxt as int, (f1 - 1) as nat);
                if tail.len() == 0 {
                    assert(c[c.len() - 1] == i);
                    assert(false);
                } else {
                    assert(c[c.len() - 1] == tail[tail.len() - 1]);
                    assert(tail[tail.len() - 1] == c[c.len() - 1]);
                    self.lemma_chain_fuel(nxt as int, (f1 - 1) as nat, (f2 - 1) as nat);
                    assert(self.chain_from(i, f2) =~= seq![i] + self.chain_from(nxt as int, (f2 - 1) as nat));
                }
            }
        }
    }

    /// Walking a well-formed chain from its `k`-th member yields the
    /// suffix.
    proof fn lemma_chain_suffix(&self, i: int, fuel: nat, k: int)
        requires
            0 <= k < self.chain_from(i, fuel).len(),
        ensures
            self.chain_from(self.chain_from(i, fuel)[k], (fuel - k) as nat)
                == self.chain_from(i, fuel).subrange(k, self.chain_from(i, fuel).len() as int),
        decreases k,
    {
        let c = self.chain_from(i, fuel);
        if k == 0 {
            assert(c.subrange(0, c.len() as int) =~= c);
        } else {
            // c = [i] + tail
            let nxt = self.entries@[i].next;
            let tail = self.chain_from(nxt as int, (fuel - 1) as nat);
            assert(c =~= seq![i] + tail);
            self.lemma_chain_suffix(nxt as int, (fuel - 1) as nat, k - 1);
            assert(c[k] == tail[k - 1]);
            assert(tail.subrange(k - 1, tail.len() as int) =~= c.subrange(k, c.len() as int));
        }
    }

    /// The number of live entries.
    pub fn len(&self) -> (r: usize)
        ensures
            r == self.spec_len(),
    {
        self.count as usize
    }

    /// The size of the slot array.
    fn capacity(&self) -> (r: usize)
        ensures
            r == self.cap(),
    {
        self.entries.len()
    }

    /// The home bucket of a name.
    fn hash(&self, name: Name) -> (r: u32)
        requires
            3 <= self.cap() <= 0x7FFF_FFFF,
        ensures
            r == self.home_of(name.0),
    {
        let cap32: u32 = self.entries.len() as u32;
        let truncated: u32 = name.0 as u32;
        let r = truncated % cap32;
        assert(r == ((name.0 as u32) as int) % (cap32 as int)) by (nonlinear_arith)
            requires
                cap32 > 0,
                r == truncated % cap32,
                truncated == name.0 as u32,
        ;
        r
    }

    /// The most entries the current capacity may carry: 70%.
    pub fn max_load_factor(&self) -> (r: u32)
        requires
            3 <= self.cap() <= 0x7FFF_FFFF,
        ensures
            r == self.cap() * 7 / 10,
    {
        let cap64: u64 = self.entries.len() as u64;
        ((cap64 * 7) / 10) as u32
    }

    /// For a name whose home slot is live, the chain starting at that
    /// slot is walkable and covers every holder of the name.
    proof fn lemma_walk_chain(&self, h: int, n: u64)
        requires
            self.wf(),
            self.val(h),
            h == self.home_of(n),
        ensures
            ({
                let c = self.chain(h);
                &&& 0 < c.len() <= self.cap()
                &&& c[0] == h
                &&& forall|l: int| 0 <= l < c.len() ==> self.val(#[trigger] c[l])
                &&& forall|l: int| 0 <= l < c.len() - 1
                    ==> self.entries@[#[trigger] c[l]].next == c[l + 1]
                        && self.entries@[c[l]].next >= 0
                &&& self.entries@[c[c.len() - 1]].next < 0
                &&& self.has_name(n) ==> exists|l: int|
                    0 <= l < c.len() && self.nm(#[trigger] c[l]) == n
            }),
    {
        let fuel = (self.cap() + 1) as nat;
        let h0 = self.home_of(self.nm(h));
        assert(self.is_head(h0));
        assert(self.chain_ok(h0));
        let c0 = self.chain(h0);
        assert(c0.contains(h));
        let p = choose|p: int| 0 <= p < c0.len() && c0[p] == h;
        self.lemma_chain_from_props(h0, fuel);
        Self::lemma_distinct_bounded(c0, self.cap());
        self.lemma_chain_suffix(h0, fuel, p);
        let csuf = c0.subrange(p, c0.len() as int);
        assert(self.chain_from(h, (fuel - p) as nat) == csuf);
        assert(csuf[csuf.len() - 1] == c0[c0.len() - 1]);
        self.lemma_chain_fuel(h, (fuel - p) as nat, fuel);
        assert(self.chain(h) == csuf);
        let c = self.chain(h);
        assert(c[0] == c0[p]);
        if self.has_name(n) {
            let i = self.slot_of(n);
            assert(self.val(i) && self.nm(i) == n);
            assert(self.chain(self.home_of(n)).contains(i));
            if h0 == h {
                assert(c0 == self.chain(h));
            } else {
                // members of this chain belong to bucket h0, never h
                let l = choose|l: int| 0 <= l < c.len() && c[l] == i;
                assert(c0[p + l] == c[l]);
                assert(self.home_of(self.nm(i)) == h0);
                assert(false);
            }
        }
    }

    /// A sequence of distinct values drawn from `0..cap` is no longer
    /// than `cap`.
    proof fn lemma_distinct_bounded(c: Seq<int>, cap: int)
        requires
            forall|k: int, l: int| 0 <= k < l < c.len() ==> c[k] != c[l],
            forall|k: int| 0 <= k < c.len() ==> 0 <= #[trigger] c[k] < cap,
            0 <= cap,
        ensures
            c.len() <= cap,
    {
        broadcast use vstd::set::group_set_axioms;

        assert(c.no_duplicates());
        c.unique_seq_to_set();
        let s = c.to_set();
        vstd::set_lib::lemma_int_range(0, cap);
        assert(s.subset_of(vstd::set_lib::set_int_range(0, cap)));
        vstd::seq_lib::seq_to_set_is_finite(c);
        vstd::set_lib::lemma_len_subset(s, vstd::set_lib::set_int_range(0, cap));
    }

    /// Finds the slot holding `name`, walking the home chain.
    #[verifier::rlimit(100)]
    fn find_entry(&self, name: Name) -> (r: Option<usize>)
        requires
            self.wf(),
        ensures
            match r {
                Some(i) => self.val(i as int) && self.nm(i as int) == name.0,
                None => !self.has_name(name.0),
            },
    {
        let h = self.hash(name) as usize;
        if !self.entries[h].is_valid() {
            proof {
                if self.has_name(name.0) {
                    let i = self.slot_of(name.0);
                    assert(self.val(i) && self.nm(i) == name.0);
                    assert(self.chain(self.home_of(name.0)).contains(i));
                    self.lemma_chain_from_props(h as int, (self.cap() + 1) as nat);
                }
            }
            return None;
        }
        let ghost c = self.chain(h as int);
        proof {
            self.lemma_walk_chain(h as int, name.0);
        }
        let ghost slots = self.entries@;
        let ghost present = self.has_name(name.0);
        let mut offset: usize = h;
        let ghost mut k: int = 0;
        loop
            invariant
                slots == self.entries@,
                present == self.has_name(name.0),
                0 <= k < c.len(),
                c.len() <= slots.len(),
                offset == c[k],
                forall|l: int| 0 <= l < c.len()
                    ==> 0 <= #[trigger] c[l] < slots.len() && slots[c[l]].spec_valid(),
                forall|l: int| 0 <= l < c.len() - 1
                    ==> slots[#[trigger] c[l]].next == c[l + 1] && slots[c[l]].next >= 0,
                slots[c[c.len() - 1]].next < 0,
                present ==> exists|l: int|
                    0 <= l < c.len() && slots[#[trigger] c[l]].name.0 == name.0,
                forall|l: int| 0 <= l < k ==> slots[#[trigger] c[l]].name.0 != name.0,
            decreases c.len() - k,
        {
            if self.entries[offset].name == name {
                proof {
                    assert(self.val(c[k]) && self.nm(c[k]) == name.0);
                }
                return Some(offset);
            }
            let next = self.entries[offset].next;
            if next < 0 {
                proof {
                    assert(k == c.len() - 1);
                    if present {
                        let l = choose|l: int|
                            0 <= l < c.len() && slots[#[trigger] c[l]].name.0 == name.0;
                        assert(slots[c[l]].name.0 == name.0);
                        if l < k {
                            assert(slots[c[l]].name.0 != name.0);
                        } else {
                            assert(l == k);
                            assert(self.entries@[offset as int].name != name);
                            assert(slots[c[k]].name.0 != name.0);
                        }
                        assert(false);
                    }
                    assert(!self.has_name(name.0));
                }
                return None;
            }
            proof {
                assert(k < c.len() - 1);
                k = k + 1;
            }
            offset = next as usize;
        }
    }

    /// Establishes the bridge between the map view and the per-name
    /// specs, for callers that mix the two.
    pub proof fn lemma_contents_lookup(&self, n: u64)
        ensures
            self.contents().contains_key(n) == self.has_name(n),
            self.has_name(n) ==> self.contents()[n] == self.stored(n),
    {
    }

    /// The load factor stays at or below 70% whenever the store is
    /// well-formed, in particular after every insert.
    pub proof fn lemma_load_factor(&self)
        requires
            self.wf(),
        ensures
            10 * self.spec_len() <= 7 * self.cap(),
    {
    }

    /// No entry is orphaned: every live entry is a member of the chain
    /// that starts at its home bucket.
    pub proof fn lemma_no_orphans(&self)
        requires
            self.wf(),
        ensures
            forall|i: int| #[trigger] self.val(i)
                ==> self.chain(self.home_of(self.nm(i))).contains(i),
    {
    }

    /// Builds a chain bottom-up: if the slots of `r` are live and linked
    /// in order, and the last one ends the chain, then walking from the
    /// first yields exactly `r`.
    proof fn lemma_chain_build(&self, r: Seq<int>, fuel: nat)
        requires
            r.len() > 0,
            r.len() <= fuel,
            forall|t: int| 0 <= t < r.len() ==> self.val(#[trigger] r[t]),
            forall|t: int| 0 <= t < r.len() - 1
                ==> self.entries@[#[trigger] r[t]].next == r[t + 1]
                    && self.entries@[r[t]].next >= 0,
            self.entries@[r[r.len() - 1]].next < 0,
        ensures
            self.chain_from(r[0], fuel) == r,
        decreases r.len(),
    {
        if r.len() == 1 {
            assert(self.chain_from(r[0], fuel) =~= seq![r[0]]);
        } else {
            let tail = r.subrange(1, r.len() as int);
            assert(tail[tail.len() - 1] == r[r.len() - 1]);
            self.lemma_chain_build(tail, (fuel - 1) as nat);
            assert(self.entries@[r[0]].next == r[1] && r[1] == tail[0]);
            assert(self.chain_from(r[0], fuel) =~= seq![r[0]] + self.chain_from(r[1], (fuel - 1) as nat));
            assert(seq![r[0]] + tail =~= r);
        }
    }

    /// After a mutation that touches only slots of one bucket's own
    /// chain (or previously free slots), every other bucket keeps its
    /// chain, and the global chain conditions hold again with `r2` as
    /// the touched bucket's new chain.
    proof fn lemma_local_update(s1: &Hash, s2: &Hash, h: int, r2: Seq<int>, touched: Set<int>)
        requires
            s1.wf(),
            s2.cap() == s1.cap(),
            0 <= h < s1.cap(),
            // what was touched: members of bucket h's own chain, or free slots
            forall|x: int| #[trigger] touched.contains(x)
                ==> (s1.is_head(h) && s1.chain(h).contains(x))
                    || (0 <= x < s1.cap() && !s1.val(x)),
            // any touched slot that stays live belongs to bucket `h`
            forall|x: int| #[trigger] touched.contains(x) && s2.val(x)
                ==> s2.home_of(s2.nm(x)) == h,
            forall|j: int| 0 <= j < s1.cap() && !touched.contains(j)
                ==> s2.entries@[j] == s1.entries@[j],
            // the new chain of bucket `h`
            s2.chain(h) == r2,
            r2.len() > 0 ==> r2[0] == h,
            forall|t: int| 0 <= t < r2.len()
                ==> s2.val(#[trigger] r2[t]) && s2.home_of(s2.nm(r2[t])) == h,
            forall|t: int, u: int| 0 <= t < u < r2.len() ==> r2[t] != r2[u],
            r2.len() > 0 ==> s2.entries@[r2[r2.len() - 1]].next < 0,
            // every live entry of bucket `h` is on the new chain
            forall|i: int| s2.val(i) && s2.home_of(s2.nm(i)) == h ==> r2.contains(i),
            s2.entries@.len() == s1.entries@.len(),
        ensures
            forall|h2: int| #[trigger] s2.is_head(h2) ==> s2.chain_ok(h2),
            forall|i: int| #[trigger] s2.val(i)
                ==> s2.chain(s2.home_of(s2.nm(i))).contains(i),
            forall|i: int| #[trigger] s2.val(i)
                ==> s2.is_head(s2.home_of(s2.nm(i))),
            forall|h2: int| s1.is_head(h2) && h2 != h
                ==> s2.chain(h2) == s1.chain(h2),
    {
        let fuel = (s1.cap() + 1) as nat;
        // a touched slot that was live in s1 belongs to bucket h's chain
        assert forall|x: int| #[trigger] touched.contains(x) && s1.val(x)
            implies s1.is_head(h) && s1.chain(h).contains(x)
                && s1.home_of(s1.nm(x)) == h by {
            assert(s1.chain_ok(h));
            let tx = choose|tx: int| 0 <= tx < s1.chain(h).len() && s1.chain(h)[tx] == x;
            assert(s1.home_of(s1.nm(s1.chain(h)[tx])) == h);
        }
        // frame every other bucket's chain
        assert forall|h2: int| s1.is_head(h2) && h2 != h
            implies s2.chain(h2) == s1.chain(h2) by {
            assert(s1.chain_ok(h2));
            let c2 = s1.chain(h2);
            s1.lemma_chain_from_props(h2, fuel);
            assert forall|l: int| 0 <= l < c2.len()
                implies s2.entries@[#[trigger] c2[l]] == s1.entries@[c2[l]] by {
                assert(s1.val(c2[l]) && s1.home_of(s1.nm(c2[l])) == h2);
                if touched.contains(c2[l]) {
                    assert(s1.home_of(s1.nm(c2[l])) == h);
                    assert(false);
                }
            }
            assert(!touched.contains(h2)) by {
                if touched.contains(h2) {
                    assert(s1.home_of(s1.nm(h2)) == h);
                }
            }
            Self::lemma_chain_frame(s1, s2, h2, fuel);
        }
        // chain conditions for every head of the new state
        assert forall|h2: int| #[trigger] s2.is_head(h2) implies s2.chain_ok(h2) by {
            if h2 == h {
                assert(s2.chain(h2) == r2);
            } else {
                assert(!touched.contains(h2)) by {
                    if touched.contains(h2) {
                        assert(s2.val(h2));
                        assert(s2.home_of(s2.nm(h2)) == h);
                    }
                }
                assert(s2.entries@[h2] == s1.entries@[h2]);
                assert(s1.is_head(h2));
                assert(s1.chain_ok(h2));
                let c2 = s1.chain(h2);
                assert(s2.chain(h2) == c2);
                assert forall|l: int| 0 <= l < c2.len()
                    implies s2.val(#[trigger] c2[l])
                        && s2.home_of(s2.nm(c2[l])) == h2
                        && s2.entries@[c2[l]] == s1.entries@[c2[l]] by {
                    assert(s1.val(c2[l]) && s1.home_of(s1.nm(c2[l])) == h2);
                    assert(!touched.contains(c2[l])) by {
                        if touched.contains(c2[l]) {
                            assert(s1.home_of(s1.nm(c2[l])) == h);
                        }
                    }
                    assert(s2.entries@[c2[l]] == s1.entries@[c2[l]]);
                }
                assert(s2.chain_ok(h2)) by {
                    let cs = s2.chain(h2);
                    assert(cs == c2);
                    assert(cs.len() > 0 ==> s2.entries@[cs[cs.len() - 1]].next
                        == s1.entries@[c2[c2.len() - 1]].next);
                }
            }
        }
        // membership and head existence for every live entry
        assert forall|i: int| #[trigger] s2.val(i)
            implies s2.chain(s2.home_of(s2.nm(i))).contains(i)
                && s2.is_head(s2.home_of(s2.nm(i))) by {
            let hm = s2.home_of(s2.nm(i));
            if hm == h {
                assert(r2.contains(i));
                let t = choose|t: int| 0 <= t < r2.len() && r2[t] == i;
                assert(s2.val(r2[0]) && s2.home_of(s2.nm(r2[0])) == h);
                assert(s2.is_head(h));
            } else {
                assert(!touched.contains(i)) by {
                    if touched.contains(i) {
                        assert(s2.home_of(s2.nm(i)) == h);
                    }
                }
                assert(s2.entries@[i] == s1.entries@[i]);
                assert(s1.val(i));
                assert(s1.nm(i) == s2.nm(i));
                assert(s1.is_head(hm));
                assert(s2.chain(hm) == s1.chain(hm));
                assert(s1.chain(hm).contains(i));
                assert(!touched.contains(hm)) by {
                    if touched.contains(hm) {
                        assert(s1.home_of(s1.nm(hm)) == h);
                        assert(s1.is_head(hm));
                        assert(s1.home_of(s1.nm(hm)) == hm);
                    }
                }
                assert(s2.entries@[hm] == s1.entries@[hm]);
                assert(s2.is_head(hm));
            }
        }
    }

    /// Removes the entry under `name`, splicing its chain.
    ///
    /// Deletion follows the chain from the home bucket: a mid-chain
    /// entry is spliced out; a head with a successor is replaced by it;
    /// a lone head is simply invalidated.
    pub fn remove(&mut self, name: Name) -> (r: bool)
        requires
            old(self).wf(),
        ensures
            (*final(self)).wf(),
            r == old(self).has_name(name.0),
            final(self).contents() == old(self).contents().remove(name.0),
            final(self).cap() == old(self).cap(),
            final(self).spec_len() == old(self).spec_len() - (if r { 1int } else { 0int }),
            // a holder away from its home leaves its exact slot free
            r && old(self).slot_of(name.0) != old(self).home_of(name.0)
                ==> !final(self).val(old(self).slot_of(name.0)),
    {
        let h = self.hash(name) as usize;
        if !self.entries[h].is_valid() {
            proof {
                if self.has_name(name.0) {
                    let i = self.slot_of(name.0);
                    assert(self.val(i) && self.nm(i) == name.0);
                    assert(self.chain(self.home_of(name.0)).contains(i));
                    self.lemma_chain_from_props(h as int, (self.cap() + 1) as nat);
                }
                assert(self.contents() =~= self.contents().remove(name.0));
            }
            return false;
        }
        let ghost c = self.chain(h as int);
        proof {
            self.lemma_walk_chain(h as int, name.0);
        }
        let ghost slots = self.entries@;
        let ghost present = self.has_name(name.0);
        let mut index: usize = h;
        let mut last: i32 = -1;
        let ghost mut k: int = 0;
        loop
            invariant
                self == old(self),
                self.wf(),
                slots == self.entries@,
                present == self.has_name(name.0),
                c == self.chain(h as int),
                h < slots.len(),
                h as int == self.home_of(name.0),
                self.val(h as int),
                0 <= k < c.len(),
                index == c[k],
                k == 0 ==> last == -1,
                k > 0 ==> last == c[k - 1] && 0 <= last < slots.len() as i32,
                forall|l: int| 0 <= l < c.len()
                    ==> 0 <= #[trigger] c[l] < slots.len() && slots[c[l]].spec_valid(),
                forall|l: int| 0 <= l < c.len() - 1
                    ==> slots[#[trigger] c[l]].next == c[l + 1] && slots[c[l]].next >= 0,
                slots[c[c.len() - 1]].next < 0,
                present ==> exists|l: int|
                    0 <= l < c.len() && slots[#[trigger] c[l]].name.0 == name.0,
                forall|l: int| 0 <= l < k ==> slots[#[trigger] c[l]].name.0 != name.0,
            decreases c.len() - k,
        {
            if self.entries[index].name == name {
                proof {
                    assert(self.val(c[k]) && self.nm(c[k]) == name.0);
                    let i = self.slot_of(name.0);
                    assert(self.val(i) && self.nm(i) == name.0);
                    assert(i == c[k]);
                }
                self.remove_found(name, index, last, Ghost(c), Ghost(k), Ghost(h as int));
                return true;
            }
            let next = self.entries[index].next;
            if next < 0 {
                proof {
                    assert(k == c.len() - 1);
                    if present {
                        let l = choose|l: int|
                            0 <= l < c.len() && slots[#[trigger] c[l]].name.0 == name.0;
                        if l < k {
                            assert(slots[c[l]].name.0 != name.0);
                        } else {
                            assert(l == k);
                            assert(self.entries@[index as int].name != name);
                        }
                        assert(false);
                    }
                    assert(self.contents() =~= self.contents().remove(name.0));
                }
                return false;
            }
            proof {
                assert(k < c.len() - 1);
                k = k + 1;
            }
            last = index as i32;
            index = next as usize;
        }
    }

    /// Name-level rebuild of the map view after a removal.
    proof fn lemma_contents_shift(s1: &Hash, s2: &Hash, removed: u64)
        requires
            forall|n: u64| #[trigger] s2.has_name(n) == (s1.has_name(n) && n != removed),
            forall|n: u64| #[trigger] s2.has_name(n) ==> s2.stored(n) == s1.stored(n),
        ensures
            s2.contents() == s1.contents().remove(removed),
    {
        assert(s2.contents() =~= s1.contents().remove(removed));
    }

    /// Flag-cleared entries are dead.
    proof fn lemma_invalid_flags(e: Entry)
        requires
            e.flags == 0,
        ensures
            !e.spec_valid(),
    {
        assert(0u32 & FLAG_VALID == 0) by (bit_vector);
    }

    /// A live slot makes the population positive.
    proof fn lemma_num_valid_pos(s: Seq<Entry>, i: int)
        requires
            0 <= i < s.len(),
            s[i].spec_valid(),
        ensures
            num_valid(s) >= 1,
        decreases s.len(),
    {
        if i < s.len() - 1 {
            Self::lemma_num_valid_pos(s.drop_last(), i);
        }
    }

    /// Unlinks the already-located holder of `name`.
    #[verifier::rlimit(100)]
    fn remove_found(&mut self, name: Name, index: usize, last: i32,
            Ghost(c): Ghost<Seq<int>>, Ghost(k): Ghost<int>, Ghost(h): Ghost<int>)
        requires
            old(self).wf(),
            0 <= h < old(self).cap(),
            h == old(self).home_of(name.0),
            old(self).val(h),
            c == old(self).chain(h),
            0 <= k < c.len(),
            index as int == c[k],
            old(self).nm(c[k]) == name.0,
            k == 0 ==> last == -1,
            k > 0 ==> last as int == c[k - 1] && 0 <= last as int && (last as int) < old(self).cap(),
        ensures
            (*final(self)).wf(),
            final(self).cap() == old(self).cap(),
            final(self).spec_len() == old(self).spec_len() - 1,
            final(self).contents() == old(self).contents().remove(name.0),
            index as int != h ==> !final(self).val(index as int),
            index as int != h ==> (forall|j: int|
                0 <= j < old(self).cap() && j != index as int
                    ==> final(self).val(j) == old(self).val(j)
                        && (final(self).val(j)
                            ==> final(self).entries@[j].spec_name() == old(self).entries@[j].spec_name()
                                && final(self).entries@[j].spec_as_property()
                                    == old(self).entries@[j].spec_as_property())),
    {
        let ghost s1 = *self;
        let ghost fuel = (s1.cap() + 1) as nat;
        let ghost d = c[k];
        proof {
            self.lemma_chain_from_props(h, fuel);
            assert(self.val(d));
            assert(self.is_head(self.home_of(self.nm(d))));
            assert(self.chain_ok(h));
            Self::lemma_distinct_bounded(c, self.cap());
        }
        let nxt = self.entries[index].next;
        if last >= 0 {
            let ghost p = c[k - 1];
            let mut prev_entry = self.entries[last as usize];
            prev_entry.next = nxt;
            self.entries.set(last as usize, prev_entry);
            let ghost smid = self.entries@;
            let mut dead = self.entries[index];
            dead.flags = 0;
            self.entries.set(index, dead);
            proof {
                Self::lemma_num_valid_pos(s1.entries@, d);
            }
            self.count = self.count - 1;
            proof {
                let s2 = *self;
                Self::lemma_invalid_flags(s2.entries@[d]);
                assert(!s2.val(d));
                let r2 = c.subrange(0, k) + c.subrange(k + 1, c.len() as int);
                // the chain facts of the spliced chain
                assert(r2.len() == c.len() - 1);
                assert(forall|t: int| 0 <= t < k ==> r2[t] == c[t]);
                assert(forall|t: int| k <= t < r2.len() ==> r2[t] == c[t + 1]);
                assert forall|t: int| 0 <= t < r2.len()
                    implies s2.val(#[trigger] r2[t]) && s2.home_of(s2.nm(r2[t])) == h by {
                    assert(s1.val(r2[t]) && s1.home_of(s1.nm(r2[t])) == h);
                    assert(r2[t] != d);
                    if r2[t] == p {
                        assert(s2.entries@[p].spec_valid() == s1.entries@[p].spec_valid());
                        assert(s2.nm(p) == s1.nm(p));
                    } else {
                        assert(s2.entries@[r2[t]] == s1.entries@[r2[t]]);
                    }
                }
                assert forall|t: int| 0 <= t < r2.len() - 1
                    implies s2.entries@[#[trigger] r2[t]].next == r2[t + 1]
                        && s2.entries@[r2[t]].next >= 0 by {
                    if t == k - 1 {
                        assert(r2[t] == p);
                        assert(s2.entries@[p].next == nxt);
                        assert(nxt == s1.entries@[d].next);
                        assert(s1.entries@[c[k]].next == c[k + 1]);
                        assert(r2[t + 1] == c[k + 1]);
                    } else if t < k - 1 {
                        assert(r2[t] == c[t] && r2[t] != p && r2[t] != d);
                        assert(s2.entries@[r2[t]] == s1.entries@[r2[t]]);
                        assert(s1.entries@[c[t]].next == c[t + 1]);
                    } else {
                        assert(r2[t] == c[t + 1] && r2[t] != p && r2[t] != d);
                        assert(s2.entries@[r2[t]] == s1.entries@[r2[t]]);
                        assert(s1.entries@[c[t + 1]].next == c[t + 2]);
                        assert(r2[t + 1] == c[t + 2]);
                    }
                }
                assert(r2.len() > 0 ==> s2.entries@[r2[r2.len() - 1]].next < 0) by {
                    if r2.len() > 0 {
                        if k == c.len() - 1 {
                            assert(r2[r2.len() - 1] == p);
                            assert(s2.entries@[p].next == nxt);
                            assert(nxt == s1.entries@[c[k]].next);
                        } else {
                            assert(r2[r2.len() - 1] == c[c.len() - 1]);
                            assert(c[c.len() - 1] != p && c[c.len() - 1] != d);
                            assert(s2.entries@[c[c.len() - 1]] == s1.entries@[c[c.len() - 1]]);
                        }
                    }
                }
                assert(r2.len() > 0 && r2[0] == h);
                if r2.len() > 0 {
                    s2.lemma_chain_build(r2, fuel);
                }
                assert(s2.chain(h) == r2);
                assert forall|i: int| s2.val(i) && s2.home_of(s2.nm(i)) == h
                    implies r2.contains(i) by {
                    assert(i != d);
                    if i == p {
                        assert(r2[k - 1] == p);
                    } else {
                        assert(s2.entries@[i] == s1.entries@[i]);
                        assert(s1.val(i) && s1.home_of(s1.nm(i)) == h);
                        assert(s1.chain(h).contains(i));
                        let t = choose|t: int| 0 <= t < c.len() && c[t] == i;
                        if t < k {
                            assert(r2[t] == i);
                        } else {
                            assert(t > k);
                            assert(r2[t - 1] == i);
                        }
                    }
                }
                Self::lemma_local_update(&s1, &s2, h, r2, set![p, d]);
                // uniqueness
                assert forall|i: int, j: int|
                    s2.val(i) && s2.val(j) && s2.nm(i) == s2.nm(j) implies i == j by {
                    assert(s1.val(i) && s1.nm(i) == s2.nm(i));
                    assert(s1.val(j) && s1.nm(j) == s2.nm(j));
                }
                // count
                lemma_num_valid_update(s1.entries@, smid, last as int);
                lemma_num_valid_update(smid, s2.entries@, d);
                // contents
                assert forall|n: u64| #[trigger] s2.has_name(n)
                    == (s1.has_name(n) && n != name.0) by {
                    if s2.has_name(n) {
                        let i = choose|i: int| #[trigger] s2.val(i) && s2.nm(i) == n;
                        assert(s1.val(i) && s1.nm(i) == n);
                        assert(i != d);
                        if n == name.0 {
                            assert(s1.nm(d) == name.0);
                            assert(i == d);
                        }
                    }
                    if s1.has_name(n) && n != name.0 {
                        let i = choose|i: int| #[trigger] s1.val(i) && s1.nm(i) == n;
                        assert(i != d);
                        if i == p {
                            assert(s2.val(p) && s2.nm(p) == n);
                        } else {
                            assert(s2.val(i) && s2.nm(i) == n);
                        }
                    }
                }
                assert forall|n: u64| #[trigger] s2.has_name(n)
                    implies s2.stored(n) == s1.stored(n) by {
                    let i = s2.slot_of(n);
                    assert(s2.val(i) && s2.nm(i) == n);
                    assert(s1.val(i) && s1.nm(i) == n);
                    let j = s1.slot_of(n);
                    assert(s1.val(j) && s1.nm(j) == n);
                    assert(j == i);
                    if i == p {
                        assert(s2.entries@[p].spec_as_property()
                            == s1.entries@[p].spec_as_property());
                    } else {
                        assert(s2.entries@[i] == s1.entries@[i]);
                    }
                }
                Self::lemma_contents_shift(&s1, &s2, name.0);
                assert forall|j: int| 0 <= j < s1.cap() && j != index as int
                    implies s2.val(j) == s1.val(j)
                        && (s2.val(j)
                            ==> s2.entries@[j].spec_name() == s1.entries@[j].spec_name()
                                && s2.entries@[j].spec_as_property()
                                    == s1.entries@[j].spec_as_property()) by {
                    if j != p {
                        assert(s2.entries@[j] == s1.entries@[j]);
                    } else {
                        assert(s2.entries@[p].spec_valid() == s1.entries@[p].spec_valid());
                    }
                }
            }
        } else if nxt >= 0 {
            proof {
                assert(k == 0);
                assert(c[0] == h);
                assert(index as int == h);
                assert(c.len() > 1) by {
                    if c.len() == 1 {
                        assert(s1.entries@[c[0]].next < 0);
                    }
                }
                assert(nxt as int == c[1]);
            }
            let ne = self.entries[nxt as usize];
            self.entries.set(index, ne);
            let ghost smid = self.entries@;
            let mut dead = self.entries[nxt as usize];
            dead.flags = 0;
            self.entries.set(nxt as usize, dead);
            proof {
                Self::lemma_num_valid_pos(s1.entries@, c[1]);
            }
            self.count = self.count - 1;
            proof {
                let s2 = *self;
                let ghost d2 = c[1];
                Self::lemma_invalid_flags(s2.entries@[d2]);
                assert(!s2.val(d2));
                assert(h != d2);
                let r2 = seq![h] + c.subrange(2, c.len() as int);
                assert(r2.len() == c.len() - 1);
                assert(r2[0] == h);
                assert(forall|t: int| 1 <= t < r2.len() ==> r2[t] == c[t + 1]);
                // slot h now carries the old second entry
                assert(s2.entries@[h] == s1.entries@[d2]);
                assert forall|t: int| 0 <= t < r2.len()
                    implies s2.val(#[trigger] r2[t]) && s2.home_of(s2.nm(r2[t])) == h by {
                    if t == 0 {
                        assert(s1.val(d2) && s1.home_of(s1.nm(d2)) == h);
                    } else {
                        assert(r2[t] == c[t + 1]);
                        assert(c[t + 1] != h && c[t + 1] != d2);
                        assert(s2.entries@[r2[t]] == s1.entries@[r2[t]]);
                        assert(s1.val(c[t + 1]) && s1.home_of(s1.nm(c[t + 1])) == h);
                    }
                }
                assert forall|t: int| 0 <= t < r2.len() - 1
                    implies s2.entries@[#[trigger] r2[t]].next == r2[t + 1]
                        && s2.entries@[r2[t]].next >= 0 by {
                    if t == 0 {
                        assert(s2.entries@[h].next == s1.entries@[d2].next);
                        assert(s1.entries@[c[1]].next == c[2]);
                        assert(r2[1] == c[2]);
                    } else {
                        assert(r2[t] == c[t + 1] && r2[t] != h && r2[t] != d2);
                        assert(s2.entries@[r2[t]] == s1.entries@[r2[t]]);
                        assert(s1.entries@[c[t + 1]].next == c[t + 2]);
                        assert(r2[t + 1] == c[t + 2]);
                    }
                }
                assert(s2.entries@[r2[r2.len() - 1]].next < 0) by {
                    if c.len() == 2 {
                        assert(r2[r2.len() - 1] == h);
                        assert(s2.entries@[h].next == s1.entries@[d2].next);
                        assert(s1.entries@[c[c.len() - 1]].next < 0);
                    } else {
                        assert(r2[r2.len() - 1] == c[c.len() - 1]);
                        assert(c[c.len() - 1] != h && c[c.len() - 1] != d2);
                        assert(s2.entries@[c[c.len() - 1]] == s1.entries@[c[c.len() - 1]]);
                    }
                }
                s2.lemma_chain_build(r2, fuel);
                assert(s2.chain(h) == r2);
                assert forall|i: int| s2.val(i) && s2.home_of(s2.nm(i)) == h
                    implies r2.contains(i) by {
                    assert(i != d2);
                    if i == h {
                        assert(r2[0] == h);
                    } else {
                        assert(s2.entries@[i] == s1.entries@[i]);
                        assert(s1.val(i) && s1.home_of(s1.nm(i)) == h);
                        assert(s1.chain(h).contains(i));
                        let t = choose|t: int| 0 <= t < c.len() && c[t] == i;
                        assert(t >= 2) by {
                            if t == 1 { assert(c[1] == d2); }
                            if t == 0 { assert(c[0] == h); }
                        }
                        assert(r2[t - 1] == i);
                    }
                }
                Self::lemma_local_update(&s1, &s2, h, r2, set![h, d2]);
                // uniqueness: slot h took the name of d2, which is dead
                assert forall|i: int, j: int|
                    s2.val(i) && s2.val(j) && s2.nm(i) == s2.nm(j) implies i == j by {
                    let ni = if i == h { d2 } else { i };
                    let nj = if j == h { d2 } else { j };
                    assert(s1.val(ni) && s1.nm(ni) == s2.nm(i));
                    assert(s1.val(nj) && s1.nm(nj) == s2.nm(j));
                    assert(ni == nj);
                }
                lemma_num_valid_update(s1.entries@, smid, h);
                lemma_num_valid_update(smid, s2.entries@, d2);
                assert forall|n: u64| #[trigger] s2.has_name(n)
                    == (s1.has_name(n) && n != name.0) by {
                    if s2.has_name(n) {
                        let i = choose|i: int| #[trigger] s2.val(i) && s2.nm(i) == n;
                        if i == h {
                            assert(s1.val(d2) && s1.nm(d2) == n);
                            assert(n != name.0) by {
                                if n == name.0 { assert(d2 == h); }
                            }
                        } else {
                            assert(s1.val(i) && s1.nm(i) == n);
                            if n == name.0 { assert(i == h); }
                        }
                    }
                    if s1.has_name(n) && n != name.0 {
                        let i = choose|i: int| #[trigger] s1.val(i) && s1.nm(i) == n;
                        assert(i != h) by {
                            if i == h { assert(s1.nm(h) == name.0); }
                        }
                        if i == d2 {
                            assert(s2.val(h) && s2.nm(h) == n);
                        } else {
                            assert(s2.val(i) && s2.nm(i) == n);
                        }
                    }
                }
                assert forall|n: u64| #[trigger] s2.has_name(n)
                    implies s2.stored(n) == s1.stored(n) by {
                    let i = s2.slot_of(n);
                    assert(s2.val(i) && s2.nm(i) == n);
                    if i == h {
                        let j = s1.slot_of(n);
                        assert(s1.val(j) && s1.nm(j) == n);
                        assert(s1.val(d2) && s1.nm(d2) == n);
                        assert(j == d2);
                        assert(s2.entries@[h] == s1.entries@[d2]);
                    } else {
                        assert(s1.val(i) && s1.nm(i) == n);
                        let j = s1.slot_of(n);
                        assert(j == i);
                        assert(s2.entries@[i] == s1.entries@[i]);
                    }
                }
                Self::lemma_contents_shift(&s1, &s2, name.0);
            }
        } else {
            proof {
                assert(k == 0);
                assert(index as int == h);
                assert(c.len() == 1) by {
                    if c.len() > 1 {
                        assert(s1.entries@[c[0]].next == c[1]);
                    }
                }
            }
            let mut dead = self.entries[index];
            dead.flags = 0;
            self.entries.set(index, dead);
            proof {
                Self::lemma_num_valid_pos(s1.entries@, h);
            }
            self.count = self.count - 1;
            proof {
                let s2 = *self;
                Self::lemma_invalid_flags(s2.entries@[h]);
                assert(!s2.val(h));
                let r2 = Seq::<int>::empty();
                assert(s2.chain(h) =~= r2);
                assert forall|i: int| s2.val(i) && s2.home_of(s2.nm(i)) == h
                    implies r2.contains(i) by {
                    assert(i != h);
                    assert(s2.entries@[i] == s1.entries@[i]);
                    assert(s1.val(i) && s1.home_of(s1.nm(i)) == h);
                    assert(s1.chain(h).contains(i));
                    let t = choose|t: int| 0 <= t < c.len() && c[t] == i;
                    assert(c[t] == c[0]);
                    assert(false);
                }
                Self::lemma_local_update(&s1, &s2, h, r2, set![h]);
                assert forall|i: int, j: int|
                    s2.val(i) && s2.val(j) && s2.nm(i) == s2.nm(j) implies i == j by {
                    assert(s1.val(i) && s1.nm(i) == s2.nm(i));
                    assert(s1.val(j) && s1.nm(j) == s2.nm(j));
                }
                lemma_num_valid_update(s1.entries@, s2.entries@, h);
                assert forall|n: u64| #[trigger] s2.has_name(n)
                    == (s1.has_name(n) && n != name.0) by {
                    if s2.has_name(n) {
                        let i = choose|i: int| #[trigger] s2.val(i) && s2.nm(i) == n;
                        assert(i != h);
                        assert(s1.val(i) && s1.nm(i) == n);
                        if n == name.0 { assert(i == h); }
                    }
                    if s1.has_name(n) && n != name.0 {
                        let i = choose|i: int| #[trigger] s1.val(i) && s1.nm(i) == n;
                        assert(i != h) by {
                            if i == h { assert(s1.nm(h) == name.0); }
                        }
                        assert(s2.val(i) && s2.nm(i) == n);
                    }
                }
                assert forall|n: u64| #[trigger] s2.has_name(n)
                    implies s2.stored(n) == s1.stored(n) by {
                    let i = s2.slot_of(n);
                    assert(s2.val(i) && s2.nm(i) == n);
                    assert(i != h);
                    assert(s1.val(i) && s1.nm(i) == n);
                    let j = s1.slot_of(n);
                    assert(j == i);
                    assert(s2.entries@[i] == s1.entries@[i]);
                }
                Self::lemma_contents_shift(&s1, &s2, name.0);
            }
        }
    }

    /// Chains depend only on each slot's validity and link, so a
    /// mutation preserving both preserves every chain.
    proof fn lemma_chain_same_links(s1: &Hash, s2: &Hash, i: int, fuel: nat)
        requires
            s1.cap() == s2.cap(),
            forall|j: int| 0 <= j < s1.cap()
                ==> (s2.val(j) == s1.val(j))
                    && (#[trigger] s2.entries@[j]).next == s1.entries@[j].next,
        ensures
            s2.chain_from(i, fuel) == s1.chain_from(i, fuel),
        decreases fuel,
    {
        if fuel > 0 && 0 <= i < s1.cap() && s1.val(i) {
            let nxt = s1.entries@[i].next;
            if nxt >= 0 {
                Self::lemma_chain_same_links(s1, s2, nxt as int, (fuel - 1) as nat);
                assert(s2.chain_from(i, fuel) =~= seq![i] + s2.chain_from(nxt as int, (fuel - 1) as nat));
                assert(s1.chain_from(i, fuel) =~= seq![i] + s1.chain_from(nxt as int, (fuel - 1) as nat));
            } else {
                assert(s2.chain_from(i, fuel) =~= seq![i]);
                assert(s1.chain_from(i, fuel) =~= seq![i]);
            }
        } else {
            assert(s2.chain_from(i, fuel) =~= Seq::<int>::empty());
            assert(s1.chain_from(i, fuel) =~= Seq::<int>::empty());
        }
    }

    /// Replaces the descriptor stored under an existing name, keeping
    /// the entry's place in its chain.
    pub fn replace(&mut self, name: Name, value: &JsDescriptor) -> (r: bool)
        requires
            old(self).wf(),
        ensures
            (*final(self)).wf(),
            r == old(self).has_name(name.0),
            final(self).cap() == old(self).cap(),
            final(self).spec_len() == old(self).spec_len(),
            r ==> final(self).contents()
                == old(self).contents().insert(name.0, Entry::spec_complete(*value)),
            !r ==> *final(self) == *old(self),
    {
        match self.find_entry(name) {
            Some(index) => {
                let ghost s1 = *self;
                let old_entry = self.entries[index];
                let fresh = Entry::from_descriptor(value, old_entry.name, old_entry.next);
                self.entries.set(index, fresh);
                proof {
                    let s2 = *self;
                    let i = index as int;
                    assert forall|j: int| 0 <= j < s1.cap()
                        implies (s2.val(j) == s1.val(j))
                            && (#[trigger] s2.entries@[j]).next == s1.entries@[j].next by {
                        if j != i {
                            assert(s2.entries@[j] == s1.entries@[j]);
                        }
                    }
                    assert forall|h2: int| true
                        implies #[trigger] s2.chain(h2) == s1.chain(h2) by {
                        Self::lemma_chain_same_links(&s1, &s2, h2, (s1.cap() + 1) as nat);
                    }
                    // well-formedness carries over slot by slot
                    assert forall|x: int, y: int|
                        s2.val(x) && s2.val(y) && s2.nm(x) == s2.nm(y) implies x == y by {
                        assert(s1.val(x) && s1.nm(x) == s2.nm(x));
                        assert(s1.val(y) && s1.nm(y) == s2.nm(y));
                    }
                    lemma_num_valid_update(s1.entries@, s2.entries@, i);
                    assert forall|h2: int| #[trigger] s2.is_head(h2) implies s2.chain_ok(h2) by {
                        assert(s1.is_head(h2)) by {
                            if h2 != i {
                                assert(s2.entries@[h2] == s1.entries@[h2]);
                            }
                        }
                        assert(s1.chain_ok(h2));
                        let c2 = s1.chain(h2);
                        assert(s2.chain(h2) == c2);
                        assert forall|l: int| 0 <= l < c2.len()
                            implies s2.val(#[trigger] c2[l])
                                && s2.home_of(s2.nm(c2[l])) == h2 by {
                            assert(s1.val(c2[l]) && s1.home_of(s1.nm(c2[l])) == h2);
                            if c2[l] != i {
                                assert(s2.entries@[c2[l]] == s1.entries@[c2[l]]);
                            }
                        }
                        assert(s2.entries@[c2[c2.len() - 1]].next
                            == s1.entries@[c2[c2.len() - 1]].next);
                    }
                    assert forall|j: int| #[trigger] s2.val(j)
                        implies s2.chain(s2.home_of(s2.nm(j))).contains(j)
                            && s2.is_head(s2.home_of(s2.nm(j))) by {
                        assert(s1.val(j) && s1.nm(j) == s2.nm(j));
                        assert(s1.chain(s1.home_of(s1.nm(j))).contains(j));
                        assert(s1.is_head(s1.home_of(s1.nm(j))));
                        let hm = s1.home_of(s1.nm(j));
                        assert(s2.chain(hm) == s1.chain(hm));
                        assert(s2.is_head(hm)) by {
                            if hm != i {
                                assert(s2.entries@[hm] == s1.entries@[hm]);
                            }
                        }
                    }
                    // the map view gains exactly the new descriptor
                    assert forall|n: u64| #[trigger] s2.has_name(n) == s1.has_name(n) by {
                        if s2.has_name(n) {
                            let j = choose|j: int| #[trigger] s2.val(j) && s2.nm(j) == n;
                            assert(s1.val(j) && s1.nm(j) == n);
                        }
                        if s1.has_name(n) {
                            let j = choose|j: int| #[trigger] s1.val(j) && s1.nm(j) == n;
                            assert(s2.val(j) && s2.nm(j) == n);
                        }
                    }
                    assert forall|n: u64| #[trigger] s2.has_name(n) implies
                        s2.stored(n) == (if n == name.0 { Entry::spec_complete(*value) }
                            else { s1.stored(n) }) by {
                        let j = s2.slot_of(n);
                        assert(s2.val(j) && s2.nm(j) == n);
                        assert(s1.val(j) && s1.nm(j) == n);
                        let j1 = s1.slot_of(n);
                        assert(s1.val(j1) && s1.nm(j1) == n);
                        assert(j1 == j);
                        if n == name.0 {
                            assert(j == i);
                        } else {
                            assert(j != i);
                            assert(s2.entries@[j] == s1.entries@[j]);
                        }
                    }
                    assert(s2.contents() =~= s1.contents().insert(name.0, Entry::spec_complete(*value)));
                }
                true
            },
            None => false,
        }
    }

    /// Whether `candidate` has no divisor but 1 and itself.
    pub open spec fn spec_is_prime(candidate: int) -> bool {
        candidate >= 2 && forall|d: int| 2 <= d < candidate ==> #[trigger] (candidate % d) != 0
    }

    /// Trial division, odd divisors only.
    fn is_prime(candidate: usize) -> (r: bool)
        requires
            candidate < 0x1_0000_0000,
        ensures
            r == Self::spec_is_prime(candidate as int),
    {
        if candidate % 2 == 0 || candidate < 2 {
            proof {
                if candidate > 2 && candidate % 2 == 0 {
                    assert(!Self::spec_is_prime(candidate as int)) by {
                        assert(candidate as int % 2 == 0);
                    }
                }
                if candidate == 2 {
                    assert(Self::spec_is_prime(2)) by {
                        assert(forall|d: int| 2 <= d < 2 ==> #[trigger] (2int % d) != 0);
                    }
                }
            }
            return candidate == 2;
        }
        let mut divisor: usize = 3;
        while divisor <= candidate / divisor
            invariant
                candidate < 0x1_0000_0000,
                candidate % 2 != 0,
                candidate >= 3,
                3 <= divisor <= candidate + 2,
                divisor % 2 != 0,
                forall|d: int| 2 <= d < divisor ==> #[trigger] (candidate as int % d) != 0,
            decreases candidate - divisor,
        {
            if candidate % divisor == 0 {
                proof {
                    vstd::arithmetic::div_mod::lemma_fundamental_div_mod(
                        candidate as int, divisor as int);
                    assert(candidate as int > divisor as int) by (nonlinear_arith)
                        requires
                            candidate as int == (divisor as int) * ((candidate / divisor) as int)
                                + (candidate % divisor) as int,
                            (divisor as int) <= (candidate / divisor) as int,
                            divisor >= 3,
                            candidate >= 3,
                            0 <= (candidate % divisor) as int,
                    ;
                    assert(candidate as int % (divisor as int) == 0);
                }
                return false;
            }
            proof {
                // an even divisor cannot divide an odd number
                assert(candidate as int % (divisor + 1) != 0) by {
                    if candidate as int % (divisor + 1) == 0 {
                        lemma_even_divisor_of_odd(candidate as int, divisor as int + 1);
                        assert(candidate as int % 2 == 0);
                    }
                }
                vstd::arithmetic::div_mod::lemma_fundamental_div_mod(
                    candidate as int, divisor as int);
                assert(candidate as int >= (divisor as int) * (divisor as int))
                    by (nonlinear_arith)
                    requires
                        candidate as int == (divisor as int) * ((candidate / divisor) as int)
                            + (candidate % divisor) as int,
                        divisor as int <= (candidate / divisor) as int,
                        divisor >= 1,
                ;
                assert(candidate as int >= divisor as int + 2) by (nonlinear_arith)
                    requires
                        candidate as int >= (divisor as int) * (divisor as int),
                        divisor >= 3,
                ;
            }
            divisor += 2;
        }
        proof {
            vstd::arithmetic::div_mod::lemma_fundamental_div_mod(
                candidate as int, divisor as int);
            assert((divisor as int) * (divisor as int) > candidate as int)
                by (nonlinear_arith)
                requires
                    candidate as int == (divisor as int) * ((candidate / divisor) as int)
                        + (candidate % divisor) as int,
                    0 <= (candidate % divisor) as int,
                    ((candidate % divisor) as int) < divisor as int,
                    (divisor as int) > (candidate / divisor) as int,
                    divisor >= 1,
            ;
            assert forall|d: int| 2 <= d < candidate implies #[trigger] (candidate as int % d) != 0 by {
                if d < divisor {
                } else {
                    // d * d > candidate, so a cofactor would be smaller
                    if candidate as int % d == 0 {
                        lemma_large_divisor_has_small_cofactor(candidate as int, d, divisor as int);
                    }
                }
            }
        }
        true
    }

    /// The smallest usable capacity at least `minimum`: drawn from the
    /// hard-coded prime table, or found by probing odd candidates past
    /// its end.  The result is prime; the sole exception is the
    /// impossible case that no prime at all lives between `minimum` and
    /// `2^31`, which the contract spells out rather than hides.
    pub fn get_prime(minimum: usize) -> (r: usize)
        requires
            minimum <= 0x3FFF_FFFF,
        ensures
            minimum <= r <= 0x7FFF_FFFF,
            r >= 3,
            Self::spec_is_prime(r as int)
                || (forall|q: int| 3 <= q && minimum <= q && q < 0x8000_0000
                    ==> !Self::spec_is_prime(q)),
    {
        let table: Vec<usize> = vec![
            3, 7, 11, 17, 23, 29, 37, 47, 59, 71, 89, 107, 131, 163, 197, 239,
            293, 353, 431, 521, 631, 761, 919, 1103, 1327, 1597, 1931, 2333,
            2801, 3371, 4049, 4861, 5839, 7013, 8419, 10103, 12143, 14591,
            17519, 21023, 25229, 30293, 36353, 43627, 52361, 62851, 75431,
            90523, 108631, 130363, 156437, 187751, 225307, 270371, 324449,
            389357, 467237, 560689, 672827, 807403, 968897, 1162687, 1395263,
            1674319, 2009191, 2411033, 2893249, 3471899, 4166287, 4999559,
            5999471, 7199369,
        ];
        let mut i: usize = 0;
        while i < table.len()
            invariant
                table.len() == 72,
            decreases table.len() - i,
        {
            let p = table[i];
            if p >= minimum && p >= 3 && p <= 0x7FFF_FFFF && Self::is_prime(p) {
                return p;
            }
            i += 1;
        }
        let start: usize = minimum | 1;
        proof {
            assert(minimum | 1 >= minimum && minimum | 1 <= minimum + 1
                && (minimum | 1) % 2 == 1) by (bit_vector);
        }
        let base: usize = if start < 3 { 3 } else { start };
        let mut prime: usize = base;
        loop
            invariant
                minimum <= prime,
                3 <= prime <= 0x7FFF_FFFF,
                base <= prime,
                base == if (minimum | 1) < 3 { 3usize } else { minimum | 1 },
                minimum <= base,
                prime % 2 == 1,
                forall|q: int| base <= q < prime && q % 2 == 1
                    ==> !Self::spec_is_prime(q),
            ensures
                prime >= 0x7FFF_FFFF,
                minimum <= prime,
                3 <= prime <= 0x7FFF_FFFF,
                base == if (minimum | 1) < 3 { 3usize } else { minimum | 1 },
                forall|q: int| base <= q <= prime && q % 2 == 1
                    ==> !Self::spec_is_prime(q),
            decreases 0x7FFF_FFFFusize - prime,
        {
            if Self::is_prime(prime) {
                return prime;
            }
            if prime >= 0x7FFF_FFFF {
                break;
            }
            prime += 2;
        }
        // every odd candidate up to 2^31 was refuted; the even ones fall
        // to parity, so no prime is in reach at all
        proof {
            assert(minimum % 2 == 1 ==> (minimum | 1) == minimum) by (bit_vector);
            assert(minimum % 2 == 0 ==> (minimum | 1) == minimum + 1) by (bit_vector);
            assert forall|q: int| 3 <= q && minimum <= q && q < 0x8000_0000
                implies !Self::spec_is_prime(q) by {
                if q % 2 == 1 {
                    assert(q >= base) by {
                        if (minimum | 1) < 3 {
                        } else {
                            if minimum % 2 == 0 && q == minimum {
                                assert(q % 2 == 0);
                            }
                        }
                    }
                    assert(q <= prime);
                } else {
                    if Self::spec_is_prime(q) {
                        assert(q % 2 != 0) by {
                            assert(2 <= 2 < q);
                            assert(q % 2 != 0);
                        }
                    }
                }
            }
        }
        prime
    }

    /// The interlopers: live entries sitting outside their home slot.
    pub closed spec fn wanderers(&self) -> Set<int> {
        Set::new(|i: int| self.val(i) && self.home_of(self.nm(i)) != i)
    }

    proof fn lemma_wanderers_finite(&self)
        ensures
            self.wanderers().finite(),
            self.wanderers().len() <= self.cap(),
    {
        broadcast use vstd::set::group_set_axioms;

        vstd::set_lib::lemma_int_range(0, self.cap());
        let range = vstd::set_lib::set_int_range(0, self.cap());
        assert(self.wanderers().subset_of(range));
        vstd::set_lib::lemma_len_subset(self.wanderers(), range);
    }

    /// A stored descriptor survives re-completion unchanged.
    proof fn lemma_complete_idempotent(e: Entry)
        ensures
            Entry::spec_complete(e.spec_as_property()) == e.spec_as_property(),
    {
    }

    /// A fresh store: a prime-sized array of dead slots.
    pub fn new(capacity: usize) -> (r: Hash)
        requires
            capacity <= 0x3FFF_FFFF,
        ensures
            r.wf(),
            r.spec_len() == 0,
            r.cap() >= capacity,
            3 <= r.cap(),
            r.contents() == Map::<u64, JsDescriptor>::empty(),
    {
        let cap = Self::get_prime(capacity);
        let mut entries: Vec<Entry> = Vec::new();
        let mut i: usize = 0;
        while i < cap
            invariant
                i <= cap,
                entries@.len() == i as int,
                forall|j: int| 0 <= j < i ==> !(#[trigger] entries@[j]).spec_valid(),
            decreases cap - i,
        {
            entries.push(empty_entry());
            i += 1;
        }
        let r = Hash { entries: entries, count: 0 };
        proof {
            lemma_num_valid_empty(r.entries@);
            assert forall|h: int| #[trigger] r.is_head(h) implies r.chain_ok(h) by {
                assert(!r.val(h));
            }
            assert(r.contents() =~= Map::<u64, JsDescriptor>::empty());
        }
        r
    }

    /// Evicts the interloper in slot `target`: splices it from its own
    /// bucket's chain and frees the slot, leaving everything else as it
    /// was.
    fn evict_interloper(&mut self, target: usize) -> (dn: Ghost<u64>)
        requires
            old(self).wf(),
            old(self).val(target as int),
            old(self).home_of(old(self).nm(target as int)) != target as int,
        ensures
            final(self).wf(),
            final(self).cap() == old(self).cap(),
            final(self).spec_len() == old(self).spec_len() - 1,
            dn@ == old(self).nm(target as int),
            final(self).contents() == old(self).contents().remove(dn@),
            !final(self).val(target as int),
            forall|j: int| 0 <= j < old(self).cap() && j != target as int
                ==> final(self).val(j) == old(self).val(j)
                    && (final(self).val(j)
                        ==> final(self).entries@[j].spec_name() == old(self).entries@[j].spec_name()
                            && final(self).entries@[j].spec_as_property()
                                == old(self).entries@[j].spec_as_property()),
    {
        let name = self.entries[target].name;
        let ghost dn = self.nm(target as int);
        let h = self.hash(name) as usize;
        let ghost c = self.chain(h as int);
        proof {
            assert(self.is_head(self.home_of(self.nm(target as int))));
            assert(self.val(h as int));
            self.lemma_walk_chain(h as int, name.0);
            assert(self.chain(self.home_of(self.nm(target as int))).contains(target as int));
            let pos = choose|pos: int| 0 <= pos < c.len() && c[pos] == target as int;
            assert(self.nm(c[pos]) == name.0);
            assert(pos != 0) by {
                if pos == 0 {
                    assert(c[0] == h as int);
                }
            }
        }
        let ghost slots = self.entries@;
        let mut cursor: usize = h;
        let ghost mut k: int = 0;
        loop
            invariant
                self == old(self),
                self.wf(),
                slots == self.entries@,
                c == self.chain(h as int),
                h < slots.len(),
                h as int == self.home_of(name.0),
                self.val(h as int),
                name.0 == dn,
                dn == self.nm(target as int),
                self.val(target as int),
                target as int != h as int,
                target < slots.len(),
                0 <= k < c.len(),
                cursor == c[k],
                exists|pos: int| k < pos < c.len() && #[trigger] c[pos] == target as int,
                forall|l: int| 0 <= l < c.len()
                    ==> 0 <= #[trigger] c[l] < slots.len() && slots[c[l]].spec_valid(),
                forall|l: int| 0 <= l < c.len() - 1
                    ==> slots[#[trigger] c[l]].next == c[l + 1] && slots[c[l]].next >= 0,
                slots[c[c.len() - 1]].next < 0,
            decreases c.len() - k,
        {
            let next = self.entries[cursor].next;
            proof {
                assert(k < c.len() - 1) by {
                    let pos = choose|pos: int| k < pos < c.len() && #[trigger] c[pos] == target as int;
                    assert(0 <= pos < c.len());
                }
            }
            if next == target as i32 {
                proof {
                    assert(slots[c[k]].next == c[k + 1]);
                    assert(c[k + 1] == target as int);
                    assert(self.nm(c[k + 1]) == name.0);
                }
                self.remove_found(name, target, cursor as i32,
                    Ghost(c), Ghost(k + 1), Ghost(h as int));
                return Ghost(dn);
            }
            proof {
                assert(c[k + 1] != target as int);
                let pos = choose|pos: int| k < pos < c.len() && #[trigger] c[pos] == target as int;
                assert(pos > k + 1);
                k = k + 1;
            }
            cursor = next as usize;
        }
    }

    /// Places `value` under `name` without growing: straight into an
    /// empty home slot, after evicting an interloper from it, or
    /// appended to the home chain in the first free slot.
    fn insert_no_grow(&mut self, name: Name, value: &JsDescriptor)
        requires
            old(self).wf(),
            !old(self).has_name(name.0),
            10 * (old(self).spec_len() + 1) <= 7 * old(self).cap(),
        ensures
            final(self).wf(),
            final(self).cap() == old(self).cap(),
            final(self).spec_len() == old(self).spec_len() + 1,
            final(self).contents() == old(self).contents().insert(
                name.0, Entry::spec_complete(*value)),
    {
        let ghost target_map = old(self).contents().insert(name.0, Entry::spec_complete(*value));
        let mut pname = name;
        let mut pdesc = *value;
        proof {
            assert(self.contents() =~= target_map.remove(pname.0));
        }
        loop
            invariant
                self.wf(),
                self.cap() == old(self).cap(),
                self.spec_len() == old(self).spec_len(),
                10 * (self.spec_len() + 1) <= 7 * self.cap(),
                !self.has_name(pname.0),
                target_map.contains_key(pname.0),
                target_map[pname.0] == Entry::spec_complete(pdesc),
                target_map == old(self).contents().insert(name.0, Entry::spec_complete(*value)),
                self.contents() == target_map.remove(pname.0),
            decreases self.wanderers().len(),
        {
            let h = self.hash(pname) as usize;
            let ghost s1 = *self;
            if !self.entries[h].is_valid() {
                self.place_head(pname, &pdesc, h);
                proof {
                    assert(self.contents() =~= target_map) by {
                        assert(self.contents()
                            == target_map.remove(pname.0).insert(pname.0, Entry::spec_complete(pdesc)));
                    }
                }
                return;
            }
            let occupant_home = self.hash(self.entries[h].name) as usize;
            if occupant_home != h {
                proof {
                    assert(self.home_of(self.nm(h as int)) != h as int);
                    self.lemma_wanderers_finite();
                }
                let displaced = self.entries[h];
                let dn_ghost = self.evict_interloper(h);
                let ghost smid = *self;
                proof {
                    assert(!self.has_name(pname.0)) by {
                        assert(self.contents() =~= s1.contents().remove(dn_ghost@).remove(pname.0)
                            .remove(dn_ghost@)) by {
                            assert(s1.contents().remove(dn_ghost@)
                                == target_map.remove(pname.0).remove(dn_ghost@));
                        }
                        if self.has_name(pname.0) {
                            self.lemma_contents_lookup(pname.0);
                            assert(self.contents().contains_key(pname.0));
                            assert(target_map.remove(pname.0).remove(dn_ghost@).contains_key(pname.0));
                        }
                    }
                }
                self.place_head(pname, &pdesc, h);
                proof {
                    let dn = dn_ghost@;
                    // the displaced name goes back in as the new pending
                    assert(dn == s1.nm(h as int));
                    assert(dn != pname.0) by {
                        assert(s1.val(h as int) && s1.nm(h as int) == dn);
                    }
                    assert(target_map.contains_key(dn)) by {
                        assert(s1.val(h as int) && s1.nm(h as int) == dn);
                        assert(s1.has_name(dn));
                        s1.lemma_contents_lookup(dn);
                        assert(s1.contents().contains_key(dn));
                        assert(s1.contents() == target_map.remove(pname.0));
                    }
                    assert(self.contents() =~= target_map.remove(dn)) by {
                        assert(smid.contents() == s1.contents().remove(dn));
                        assert(self.contents()
                            == smid.contents().insert(pname.0, Entry::spec_complete(pdesc)));
                    }
                    // its stored descriptor is what the map holds for it
                    Self::lemma_complete_idempotent(displaced);
                    assert(displaced == s1.entries@[h as int]);
                    assert(target_map[dn] == displaced.spec_as_property()) by {
                        s1.lemma_contents_lookup(dn);
                        assert(s1.stored(dn) == s1.entries@[s1.slot_of(dn)].spec_as_property());
                        assert(s1.val(h as int) && s1.nm(h as int) == dn);
                        let sl = s1.slot_of(dn);
                        assert(s1.val(sl) && s1.nm(sl) == dn);
                        assert(sl == h as int);
                        assert(s1.contents()[dn] == s1.stored(dn));
                        assert(target_map[dn] == s1.contents()[dn]);
                    }
                    assert(!self.has_name(dn)) by {
                        if self.has_name(dn) {
                            self.lemma_contents_lookup(dn);
                            assert(target_map.remove(dn).contains_key(dn));
                        }
                    }
                    // the interloper count went down by one
                    assert(self.wanderers() =~= s1.wanderers().remove(h as int)) by {
                        assert forall|x: int| #[trigger] self.wanderers().contains(x)
                            implies s1.wanderers().remove(h as int).contains(x) by {
                            assert(self.val(x) && self.home_of(self.nm(x)) != x);
                            assert(x != h as int) by {
                                if x == h as int {
                                    assert(self.nm(h as int) == pname.0);
                                    assert(self.home_of(pname.0) == h as int);
                                }
                            }
                            assert(smid.val(x) == s1.val(x));
                            assert(smid.nm(x) == s1.nm(x));
                            assert(self.entries@[x] == smid.entries@[x]);
                        }
                        assert forall|x: int| #[trigger] s1.wanderers().remove(h as int).contains(x)
                            implies self.wanderers().contains(x) by {
                            assert(s1.val(x) && s1.home_of(s1.nm(x)) != x && x != h as int);
                            assert(smid.val(x) == s1.val(x));
                            assert(smid.nm(x) == s1.nm(x));
                            assert(self.entries@[x] == smid.entries@[x]);
                        }
                    }
                    s1.lemma_wanderers_finite();
                    assert(s1.wanderers().contains(h as int));
                    assert(self.wanderers().len() < s1.wanderers().len()) by {
                        broadcast use vstd::set::group_set_axioms;

                        assert(s1.wanderers().remove(h as int).len() == s1.wanderers().len() - 1);
                    }
                }
                pname = displaced.name;
                pdesc = displaced.as_property();
            } else {
                self.append_to_chain(pname, &pdesc, h);
                proof {
                    assert(self.contents() =~= target_map) by {
                        assert(self.contents()
                            == target_map.remove(pname.0).insert(pname.0, Entry::spec_complete(pdesc)));
                    }
                }
                return;
            }
        }
    }

    /// The shared tail of a placement proof: uniqueness, counting and
    /// the map view after writing a fresh entry for `name` into `slot`.
    proof fn lemma_after_place(s1: &Hash, s2: &Hash, name: Name, value: JsDescriptor, slot: int)
        requires
            s1.wf(),
            s2.cap() == s1.cap(),
            0 <= slot < s1.cap(),
            !s1.val(slot),
            !s1.has_name(name.0),
            forall|j: int| 0 <= j < s1.cap() && j != slot
                ==> (#[trigger] s2.entries@[j]).spec_valid() == s1.entries@[j].spec_valid()
                    && s2.entries@[j].spec_name() == s1.entries@[j].spec_name()
                    && s2.entries@[j].spec_as_property() == s1.entries@[j].spec_as_property(),
            s2.val(slot),
            s2.nm(slot) == name.0,
            s2.entries@[slot].spec_as_property() == Entry::spec_complete(value),
        ensures
            forall|x: int, y: int|
                s2.val(x) && s2.val(y) && s2.nm(x) == s2.nm(y) ==> x == y,
            s2.contents() == s1.contents().insert(name.0, Entry::spec_complete(value)),
    {
        assert forall|x: int, y: int|
            s2.val(x) && s2.val(y) && s2.nm(x) == s2.nm(y) implies x == y by {
            if x != slot && y != slot {
                assert(s1.val(x) && s1.nm(x) == s2.nm(x));
                assert(s1.val(y) && s1.nm(y) == s2.nm(y));
            } else if x == slot && y != slot {
                assert(s1.val(y) && s1.nm(y) == name.0);
            } else if y == slot && x != slot {
                assert(s1.val(x) && s1.nm(x) == name.0);
            }
        }
        assert forall|n: u64| #[trigger] s2.has_name(n)
            == (s1.has_name(n) || n == name.0) by {
            if s2.has_name(n) {
                let i = choose|i: int| #[trigger] s2.val(i) && s2.nm(i) == n;
                if i != slot {
                    assert(s1.val(i) && s1.nm(i) == n);
                }
            }
            if s1.has_name(n) {
                let i = choose|i: int| #[trigger] s1.val(i) && s1.nm(i) == n;
                assert(i != slot);
                assert(s2.val(i) && s2.nm(i) == n);
            }
            if n == name.0 {
                assert(s2.val(slot) && s2.nm(slot) == n);
            }
        }
        assert forall|n: u64| #[trigger] s2.has_name(n) implies
            s2.stored(n) == (if n == name.0 { Entry::spec_complete(value) }
                else { s1.stored(n) }) by {
            let i = s2.slot_of(n);
            assert(s2.val(i) && s2.nm(i) == n);
            if n == name.0 {
                assert(i == slot);
            } else {
                assert(i != slot);
                assert(s1.val(i) && s1.nm(i) == n);
                let j = s1.slot_of(n);
                assert(s1.val(j) && s1.nm(j) == n);
                assert(j == i);
            }
        }
        assert(s2.contents() =~= s1.contents().insert(name.0, Entry::spec_complete(value)));
    }

    /// Starts a fresh chain for `name` in its free home slot.
    fn place_head(&mut self, name: Name, value: &JsDescriptor, h: usize)
        requires
            old(self).wf(),
            h as int == old(self).home_of(name.0),
            h < old(self).cap(),
            !old(self).val(h as int),
            !old(self).has_name(name.0),
            10 * (old(self).spec_len() + 1) <= 7 * old(self).cap(),
        ensures
            final(self).wf(),
            final(self).cap() == old(self).cap(),
            final(self).spec_len() == old(self).spec_len() + 1,
            final(self).contents() == old(self).contents().insert(
                name.0, Entry::spec_complete(*value)),
            forall|j: int| 0 <= j < old(self).cap() && j != h as int
                ==> final(self).entries@[j] == old(self).entries@[j],
            final(self).val(h as int) && final(self).nm(h as int) == name.0,
    {
        let ghost s1 = *self;
        let e = Entry::from_descriptor(value, name, -1);
        self.entries.set(h, e);
        self.count = self.count + 1;
        proof {
            let s2 = *self;
            let r2 = seq![h as int];
            assert(s2.val(h as int));
            assert(s2.chain(h as int) =~= r2);
            assert forall|i: int| s2.val(i) && s2.home_of(s2.nm(i)) == h as int
                implies r2.contains(i) by {
                if i != h as int {
                    assert(s2.entries@[i] == s1.entries@[i]);
                    assert(s1.val(i));
                    assert(s1.is_head(s1.home_of(s1.nm(i))));
                    assert(!s1.val(h as int));
                    assert(false);
                } else {
                    assert(r2[0] == i);
                }
            }
            Self::lemma_local_update(&s1, &s2, h as int, r2, set![h as int]);
            lemma_num_valid_update(s1.entries@, s2.entries@, h as int);
            Self::lemma_after_place(&s1, &s2, name, *value, h as int);
        }
    }

    /// Every slot valid means the table is full.
    proof fn lemma_num_valid_full(s: Seq<Entry>)
        requires
            forall|j: int| 0 <= j < s.len() ==> (#[trigger] s[j]).spec_valid(),
        ensures
            num_valid(s) == s.len(),
        decreases s.len(),
    {
        if s.len() > 0 {
            Self::lemma_num_valid_full(s.drop_last());
        }
    }

    /// The first dead slot at or after `start + 1`, wrapping once.
    fn find_free_slot(&self, start: usize) -> (free: usize)
        requires
            self.wf(),
            start < self.cap(),
            10 * (self.spec_len() + 1) <= 7 * self.cap(),
        ensures
            free < self.cap(),
            !self.val(free as int),
    {
        let ghost slots = self.entries@;
        let cap = self.entries.len();
        let mut off: usize = 0;
        while off < cap
            invariant
                self.wf(),
                slots == self.entries@,
                start < cap,
                cap == slots.len(),
                10 * (self.spec_len() + 1) <= 7 * self.cap(),
                off <= cap,
                forall|u: int| 0 <= u < off
                    ==> (#[trigger] slots[wrap_slot(start as int, u, cap as int)]).spec_valid(),
            decreases cap - off,
        {
            let cand0 = start + 1 + off;
            let cand = if cand0 >= cap { cand0 - cap } else { cand0 };
            proof {
                assert(cand as int == wrap_slot(start as int, off as int, cap as int));
            }
            if !self.entries[cand].is_valid() {
                return cand;
            }
            off += 1;
        }
        proof {
            // a full table would stand past its load ceiling
            assert forall|j: int| 0 <= j < cap
                implies (#[trigger] slots[j]).spec_valid() by {
                let u = if j >= start + 1 { j - start - 1 } else { j + cap - start - 1 };
                assert(wrap_slot(start as int, u, cap as int) == j);
                assert(slots[wrap_slot(start as int, u, cap as int)].spec_valid());
            }
            Self::lemma_num_valid_full(slots);
            assert(self.spec_len() == slots.len());
            assert(false);
        }
        vstd::pervasive::unreached()
    }

    /// Appends `name` to its home chain: the first free slot past the
    /// tail takes the entry, and the tail links to it.
    #[verifier::rlimit(100)]
    fn append_to_chain(&mut self, name: Name, value: &JsDescriptor, h: usize)
        requires
            old(self).wf(),
            h as int == old(self).home_of(name.0),
            h < old(self).cap(),
            old(self).val(h as int),
            old(self).home_of(old(self).nm(h as int)) == h as int,
            !old(self).has_name(name.0),
            10 * (old(self).spec_len() + 1) <= 7 * old(self).cap(),
        ensures
            final(self).wf(),
            final(self).cap() == old(self).cap(),
            final(self).spec_len() == old(self).spec_len() + 1,
            final(self).contents() == old(self).contents().insert(
                name.0, Entry::spec_complete(*value)),
    {
        let ghost s1 = *self;
        let ghost c = self.chain(h as int);
        proof {
            self.lemma_walk_chain(h as int, name.0);
            Self::lemma_distinct_bounded(c, self.cap());
        }
        let ghost slots = self.entries@;
        // walk to the tail of the chain
        let mut cursor: usize = h;
        let ghost mut k: int = 0;
        while self.entries[cursor].next >= 0
            invariant
                self == old(self),
                self.wf(),
                slots == self.entries@,
                c == self.chain(h as int),
                0 <= k < c.len(),
                cursor == c[k],
                cursor < slots.len(),
                forall|l: int| 0 <= l < c.len()
                    ==> 0 <= #[trigger] c[l] < slots.len() && slots[c[l]].spec_valid(),
                forall|l: int| 0 <= l < c.len() - 1
                    ==> slots[#[trigger] c[l]].next == c[l + 1] && slots[c[l]].next >= 0,
                slots[c[c.len() - 1]].next < 0,
            decreases c.len() - k,
        {
            let next = self.entries[cursor].next;
            proof {
                assert(k < c.len() - 1);
                k = k + 1;
            }
            cursor = next as usize;
        }
        proof {
            assert(k == c.len() - 1) by {
                if k < c.len() - 1 {
                    assert(slots[c[k]].next == c[k + 1] && slots[c[k]].next >= 0);
                }
            }
        }
        let ghost tail = c[c.len() - 1];
        let free: usize = self.find_free_slot(cursor);
        // write the entry and link the tail to it
        let ghost smid0 = *self;
        let e = Entry::from_descriptor(value, name, -1);
        self.entries.set(free, e);
        let ghost smid = self.entries@;
        let mut tail_entry = self.entries[cursor];
        tail_entry.next = free as i32;
        self.entries.set(cursor, tail_entry);
        self.count = self.count + 1;
        proof {
            let s2 = *self;
            assert(free as int != tail) by {
                assert(s1.val(tail));
            }
            let r2 = c.push(free as int);
            assert forall|t: int| 0 <= t < r2.len()
                implies s2.val(#[trigger] r2[t]) && s2.home_of(s2.nm(r2[t])) == h as int by {
                if t == r2.len() - 1 {
                    assert(r2[t] == free as int);
                } else {
                    assert(r2[t] == c[t]);
                    assert(s1.val(c[t]) && s1.home_of(s1.nm(c[t])) == h as int) by {
                        assert(s1.is_head(h as int));
                        assert(s1.chain_ok(h as int));
                    }
                    assert(c[t] != free as int);
                    if c[t] == tail {
                        assert(s2.entries@[tail].spec_valid() == s1.entries@[tail].spec_valid());
                        assert(s2.nm(tail) == s1.nm(tail));
                    } else {
                        assert(s2.entries@[c[t]] == s1.entries@[c[t]]);
                    }
                }
            }
            assert forall|t: int| 0 <= t < r2.len() - 1
                implies s2.entries@[#[trigger] r2[t]].next == r2[t + 1]
                    && s2.entries@[r2[t]].next >= 0 by {
                if t == r2.len() - 2 {
                    assert(r2[t] == tail);
                    assert(s2.entries@[tail].next == free as i32);
                    assert(r2[t + 1] == free as int);
                } else {
                    assert(r2[t] == c[t] && c[t] != tail && c[t] != free as int);
                    assert(s2.entries@[c[t]] == s1.entries@[c[t]]);
                    assert(s1.entries@[c[t]].next == c[t + 1]);
                    assert(r2[t + 1] == c[t + 1]);
                }
            }
            assert(s2.entries@[r2[r2.len() - 1]].next < 0) by {
                assert(r2[r2.len() - 1] == free as int);
            }
            assert(r2.len() <= (s1.cap() + 1) as nat) by {
                Self::lemma_distinct_bounded(c, s1.cap());
            }
            s2.lemma_chain_build(r2, (s1.cap() + 1) as nat);
            assert(r2[0] == h as int);
            assert(s2.chain(h as int) == r2);
            assert forall|t: int, u: int| 0 <= t < u < r2.len() implies r2[t] != r2[u] by {
                if u < r2.len() - 1 {
                    assert(r2[t] == c[t] && r2[u] == c[u]);
                } else {
                    if t < r2.len() - 1 {
                        assert(r2[t] == c[t]);
                        assert(s1.val(c[t]));
                    }
                }
            }
            assert forall|i: int| s2.val(i) && s2.home_of(s2.nm(i)) == h as int
                implies r2.contains(i) by {
                if i == free as int {
                    assert(r2[r2.len() - 1] == i);
                } else if i == tail {
                    assert(r2[c.len() - 1] == tail);
                } else {
                    assert(s2.entries@[i] == s1.entries@[i]);
                    assert(s1.val(i));
                    assert(s1.chain(s1.home_of(s1.nm(i))).contains(i));
                    let t = choose|t: int| 0 <= t < c.len() && c[t] == i;
                    assert(r2[t] == i);
                }
            }
            Self::lemma_local_update(&s1, &s2, h as int, r2, set![tail, free as int]);
            lemma_num_valid_update(s1.entries@, smid, free as int);
            lemma_num_valid_update(smid, s2.entries@, tail);
            assert forall|j: int| 0 <= j < s1.cap() && j != free as int
                implies (#[trigger] s2.entries@[j]).spec_valid() == s1.entries@[j].spec_valid()
                    && s2.entries@[j].spec_name() == s1.entries@[j].spec_name()
                    && s2.entries@[j].spec_as_property() == s1.entries@[j].spec_as_property() by {
                if j != tail {
                    assert(s2.entries@[j] == s1.entries@[j]);
                }
            }
            Self::lemma_after_place(&s1, &s2, name, *value, free as int);
        }
    }

    /// A prefix never counts more live slots than the whole.
    proof fn lemma_num_valid_prefix(s: Seq<Entry>, m: int)
        requires
            0 <= m <= s.len(),
        ensures
            num_valid(s.subrange(0, m)) <= num_valid(s),
        decreases s.len(),
    {
        if m == s.len() {
            assert(s.subrange(0, m) =~= s);
        } else {
            assert(s.drop_last().subrange(0, m) =~= s.subrange(0, m));
            Self::lemma_num_valid_prefix(s.drop_last(), m);
        }
    }

    /// A prefix extended by one slot counts that slot.
    proof fn lemma_num_valid_step(s: Seq<Entry>, m: int)
        requires
            0 <= m < s.len(),
        ensures
            num_valid(s.subrange(0, m + 1))
                == num_valid(s.subrange(0, m)) + if s[m].spec_valid() { 1int } else { 0int },
    {
        assert(s.subrange(0, m + 1).drop_last() =~= s.subrange(0, m));
        assert(s.subrange(0, m + 1).last() == s[m]);
    }

    /// Moves every entry into a table of at least twice the capacity.
    fn grow_entries(&mut self)
        requires
            old(self).wf(),
            old(self).cap() <= 0x1FFF_FFFF,
        ensures
            final(self).wf(),
            final(self).cap() >= 2 * old(self).cap(),
            final(self).spec_len() == old(self).spec_len(),
            final(self).contents() == old(self).contents(),
    {
        let ghost s0 = *self;
        let mut fresh = Hash::new(2 * self.entries.len());
        let mut i: usize = 0;
        proof {
            assert(fresh.contents() =~= Map::<u64, JsDescriptor>::new(
                |n: u64| exists|l: int| 0 <= l < 0 && s0.val(l) && #[trigger] s0.nm(l) == n,
                |n: u64| s0.stored(n)));
        }
        while i < self.entries.len()
            invariant
                self == old(self),
                self.wf(),
                self.cap() <= 0x1FFF_FFFF,
                i <= self.cap(),
                fresh.wf(),
                fresh.cap() >= 2 * self.cap(),
                fresh.spec_len() == num_valid(self.entries@.subrange(0, i as int)),
                fresh.contents() == Map::<u64, JsDescriptor>::new(
                    |n: u64| exists|l: int| 0 <= l < i && self.val(l) && #[trigger] self.nm(l) == n,
                    |n: u64| self.stored(n)),
            decreases self.cap() - i,
        {
            let e = self.entries[i];
            let ghost prev = fresh;
            if e.is_valid() {
                let desc = e.as_property();
                proof {
                    assert(self.val(i as int));
                    // the name is new to the fresh table
                    assert(!fresh.has_name(self.nm(i as int))) by {
                        if fresh.has_name(self.nm(i as int)) {
                            fresh.lemma_contents_lookup(self.nm(i as int));
                            let l = choose|l: int| 0 <= l < i && self.val(l)
                                && #[trigger] self.nm(l) == self.nm(i as int);
                            assert(l == i as int);
                        }
                    }
                    // room is guaranteed: the old table held them all
                    Self::lemma_num_valid_step(self.entries@, i as int);
                    Self::lemma_num_valid_prefix(self.entries@, i as int + 1);
                    assert(10 * (fresh.spec_len() + 1) <= 7 * fresh.cap()) by {
                        assert(fresh.spec_len() + 1 <= self.spec_len());
                        assert(10 * self.spec_len() <= 7 * self.cap());
                    }
                }
                fresh.insert_no_grow(e.name, &desc);
                proof {
                    Self::lemma_complete_idempotent(e);
                    assert(self.stored(self.nm(i as int)) == e.spec_as_property()) by {
                        let sl = self.slot_of(self.nm(i as int));
                        assert(self.val(i as int) && self.nm(i as int) == self.nm(i as int));
                        assert(self.val(sl) && self.nm(sl) == self.nm(i as int));
                        assert(sl == i as int);
                    }
                    assert(fresh.contents() =~= Map::<u64, JsDescriptor>::new(
                        |n: u64| exists|l: int| 0 <= l < i + 1 && self.val(l) && #[trigger] self.nm(l) == n,
                        |n: u64| self.stored(n))) by {
                        assert forall|n: u64| #[trigger] fresh.contents().contains_key(n)
                            implies (exists|l: int| 0 <= l < i + 1 && self.val(l)
                                && #[trigger] self.nm(l) == n) by {
                            if n == self.nm(i as int) {
                                assert(self.val(i as int) && self.nm(i as int) == n);
                            } else {
                                assert(prev.contents().contains_key(n));
                            }
                        }
                        assert forall|n: u64| (exists|l: int| 0 <= l < i + 1 && self.val(l)
                                && #[trigger] self.nm(l) == n)
                            implies #[trigger] fresh.contents().contains_key(n) by {
                            let l = choose|l: int| 0 <= l < i + 1 && self.val(l)
                                && #[trigger] self.nm(l) == n;
                            if l == i as int {
                            } else {
                                assert(prev.contents().contains_key(n));
                            }
                        }
                    }
                }
            } else {
                proof {
                    Self::lemma_num_valid_step(self.entries@, i as int);
                    assert(fresh.contents() =~= Map::<u64, JsDescriptor>::new(
                        |n: u64| exists|l: int| 0 <= l < i + 1 && self.val(l) && #[trigger] self.nm(l) == n,
                        |n: u64| self.stored(n))) by {
                        assert forall|n: u64| (exists|l: int| 0 <= l < i + 1 && self.val(l)
                                && #[trigger] self.nm(l) == n)
                            implies #[trigger] fresh.contents().contains_key(n) by {
                            let l = choose|l: int| 0 <= l < i + 1 && self.val(l)
                                && #[trigger] self.nm(l) == n;
                            assert(l != i as int);
                        }
                    }
                }
            }
            i += 1;
        }
        proof {
            assert(self.entries@.subrange(0, self.cap()) =~= self.entries@);
            assert(fresh.contents() =~= self.contents()) by {
                assert forall|n: u64| #[trigger] self.has_name(n)
                    implies fresh.contents().contains_key(n) by {
                    let l = choose|l: int| #[trigger] self.val(l) && self.nm(l) == n;
                    assert(0 <= l < self.cap() && self.val(l) && self.nm(l) == n);
                }
            }
        }
        *self = fresh;
    }

    /// Adds a new name, growing first whenever the insert would push the
    /// load factor past 70%.
    pub fn add(&mut self, name: Name, value: &JsDescriptor)
        requires
            old(self).wf(),
            !old(self).has_name(name.0),
            old(self).spec_len() < 100_000_000,
        ensures
            final(self).wf(),
            final(self).spec_len() == old(self).spec_len() + 1,
            final(self).cap() >= old(self).cap(),
            final(self).contents() == old(self).contents().insert(
                name.0, Entry::spec_complete(*value)),
    {
        let needs_grow =
            10u64 * (self.count as u64 + 1) > 7u64 * (self.entries.len() as u64);
        if needs_grow {
            proof {
                assert(self.cap() <= 0x1FFF_FFFF) by {
                    assert(10 * (self.spec_len() + 1) > 7 * self.cap());
                }
            }
            self.grow_entries();
            proof {
                assert(10 * (self.spec_len() + 1) <= 7 * self.cap()) by {
                    assert(10 * old(self).spec_len() <= 7 * old(self).cap());
                    assert(self.cap() >= 2 * old(self).cap());
                }
                let s0 = *old(self);
                s0.lemma_contents_lookup(name.0);
                self.lemma_contents_lookup(name.0);
            }
        }
        self.insert_no_grow(name, value);
    }

    /// Hands out the live names in slot order.
    pub fn key_iter(&self) -> (it: HashIter)
        requires
            self.wf(),
        ensures
            it.slots() == self.slots(),
            it.pos() == 0,
    {
        HashIter {
            entries: self.entries.clone(),
            offset: 0,
        }
    }

    /// The stored descriptor under `name`, if the name is present.
    pub fn get_value(&self, name: Name) -> (r: Option<JsDescriptor>)
        requires
            self.wf(),
        ensures
            self.has_name(name.0) ==> r == Some(self.stored(name.0)),
            !self.has_name(name.0) ==> r is None,
    {
        match self.find_entry(name) {
            Some(index) => {
                proof {
                    let i = self.slot_of(name.0);
                    assert(self.val(i) && self.nm(i) == name.0);
                    assert(i == index as int);
                }
                Some(self.entries[index].as_property())
            },
            None => None,
        }
    }
}

/// A snapshot iterator over the live names of a store.
pub struct HashIter {
    entries: Vec<Entry>,
    offset: usize,
}

impl HashIter {
    /// The snapshot of slots being walked.
    pub closed spec fn slots(&self) -> Seq<Entry> {
        self.entries@
    }

    /// The next slot to look at.
    pub closed spec fn pos(&self) -> int {
        self.offset as int
    }

    /// The next live name at or after the current position, if any.
    pub fn next(&mut self) -> (r: Option<Name>)
        requires
            old(self).pos() <= old(self).slots().len(),
        ensures
            final(self).slots() == old(self).slots(),
            match r {
                Some(name) => {
                    &&& exists|j: int|
                        old(self).pos() <= j < old(self).slots().len()
                            && (#[trigger] old(self).slots()[j]).spec_valid()
                            && old(self).slots()[j].spec_name() == name
                            && final(self).pos() == j + 1
                    &&& forall|l: int|
                        old(self).pos() <= l < final(self).pos() - 1
                            ==> !(#[trigger] old(self).slots()[l]).spec_valid()
                },
                None => {
                    &&& forall|l: int|
                        old(self).pos() <= l < old(self).slots().len()
                            ==> !(#[trigger] old(self).slots()[l]).spec_valid()
                    &&& final(self).pos() == old(self).slots().len()
                },
            },
    {
        while self.offset < self.entries.len()
            invariant
                self.entries@ == old(self).entries@,
                old(self).offset <= self.offset <= self.entries@.len(),
                forall|l: int| old(self).offset <= l < self.offset
                    ==> !(#[trigger] old(self).entries@[l]).spec_valid(),
            decreases self.entries@.len() - self.offset,
        {
            let entry = self.entries[self.offset];
            self.offset += 1;
            if entry.is_valid() {
                proof {
                    let j = self.offset - 1;
                    assert(old(self).slots()[j].spec_valid()
                        && old(self).slots()[j].spec_name() == entry.name
                        && self.pos() == j + 1);
                }
                return Some(entry.name);
            }
        }
        None
    }
}

} // verus!
