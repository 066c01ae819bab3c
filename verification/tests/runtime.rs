use rjs::args::{JsArgs, JsFnMode};
use rjs::descriptor::{same_value, JsDescriptor};
use rjs::errors::{FatalError, TypeErrorKind};
use rjs::property::{assemble_property_descriptor, can_put_decision, default_value_hint, default_value_step, default_value_tries_tostring_first, put_decision, PutStep};
use rjs::heap::{
    AllPointerWalker, GcHeap, GcMemHeader, GcOpts, NoPointerWalker, RootHandles,
};
use rjs::jit::Writer;
use rjs::name::{Interner, Name};
use rjs::number::{from_u32_bits, num_lt, same_value_number, strict_eq_number, to_uint32_bits};
use rjs::scope::JsScope;
use rjs::strings::JsString;
use rjs::value::{JsType, JsValue};

#[test]
fn tagged_value_discriminants() {
    assert_eq!(JsValue::Undefined.ty(), JsType::Undefined);
    assert_eq!(JsValue::Null.ty(), JsType::Null);
    assert_eq!(JsValue::new_number(0).ty(), JsType::Number);
    assert_eq!(JsValue::new_bool(true).ty(), JsType::Boolean);
    assert_eq!(JsValue::Object(3).ty(), JsType::Object);
    assert!(JsType::Object.is_ptr());
    assert!(JsType::String.is_ptr());
    assert!(!JsType::Number.is_ptr());
    assert!(JsType::Number.is_primitive());
    assert!(!JsType::Object.is_primitive());
}

#[test]
fn number_to_uint32_values() {
    assert_eq!(to_uint32_bits(0), 0);
    assert_eq!(to_uint32_bits((42.0f64).to_bits()), 42);
    assert_eq!(to_uint32_bits((-1.0f64).to_bits()), 4294967295);
    assert_eq!(to_uint32_bits((4294967296.0f64).to_bits()), 0);
    assert_eq!(to_uint32_bits((4294967297.5f64).to_bits()), 1);
    assert_eq!(to_uint32_bits(f64::NAN.to_bits()), 0);
    assert_eq!(to_uint32_bits(f64::INFINITY.to_bits()), 0);
    assert_eq!(to_uint32_bits((1.9f64).to_bits()), 1);
    assert_eq!(to_uint32_bits((-2.5f64).to_bits()), 4294967294);
}

#[test]
fn number_uint32_round_trip() {
    // ToUint32 is idempotent through a number embedding
    for x in [
        0u64,
        (1.5f64).to_bits(),
        (-7.25f64).to_bits(),
        (4294967295.0f64).to_bits(),
        f64::NAN.to_bits(),
        (1e300f64).to_bits(),
    ] {
        let first = to_uint32_bits(x);
        let embedded = from_u32_bits(first);
        assert_eq!(f64::from_bits(embedded), first as f64);
        assert_eq!(to_uint32_bits(embedded), first);
    }
}

#[test]
fn number_equality_rules() {
    let nan = f64::NAN.to_bits();
    let pz = (0.0f64).to_bits();
    let nz = (-0.0f64).to_bits();
    assert!(!strict_eq_number(nan, nan));
    assert!(same_value_number(nan, nan));
    assert!(strict_eq_number(pz, nz));
    assert!(!same_value_number(pz, nz));
    assert!(strict_eq_number((3.0f64).to_bits(), (3.0f64).to_bits()));
}

#[test]
fn number_ordering() {
    let a = (-5.0f64).to_bits();
    let b = (2.0f64).to_bits();
    let nan = f64::NAN.to_bits();
    assert!(num_lt(a, b));
    assert!(!num_lt(b, a));
    assert!(!num_lt(nan, b));
    assert!(!num_lt(a, nan));
    assert!(num_lt((-0.5f64).to_bits(), (0.25f64).to_bits()));
    assert!(!num_lt((0.0f64).to_bits(), (-0.0f64).to_bits()));
}

#[test]
fn same_value_on_tagged_values() {
    assert!(same_value(JsValue::Undefined, JsValue::Undefined));
    assert!(!same_value(JsValue::Undefined, JsValue::Null));
    assert!(same_value(JsValue::Object(4), JsValue::Object(4)));
    assert!(!same_value(JsValue::Object(4), JsValue::Object(5)));
    let nan = JsValue::new_number(f64::NAN.to_bits());
    assert!(same_value(nan, nan));
}

#[test]
fn interner_reuses_ids() {
    let mut interner = Interner::new();
    let a = interner.intern("length");
    let b = interner.intern("prototype");
    let c = interner.intern("length");
    assert_eq!(a, c);
    assert_ne!(a, b);
    assert_eq!(interner.len(), 2);
}

#[test]
fn index_names_round_trip() {
    let n = Name::from_index(42);
    assert!(n.is_index());
    assert_eq!(n.index(), Some(42));
    assert_eq!(n.value(), 42);
    let m = Name::from_index(u32::MAX - 1);
    assert_eq!(m.index(), Some(u32::MAX - 1));
}

#[test]
fn descriptor_shapes() {
    let v = JsValue::new_number((1.0f64).to_bits());
    let data = JsDescriptor::new_value(v, true, false, true);
    assert!(data.is_data());
    assert!(!data.is_accessor());
    assert!(!data.is_generic());
    assert!(data.is_writable());
    assert!(!data.is_enumerable());
    assert!(data.is_configurable());
    let acc = JsDescriptor::new_simple_accessor(Some(v), None);
    assert!(acc.is_accessor());
    assert!(!acc.is_data());
    let empty = JsDescriptor::default();
    assert!(empty.is_empty());
    assert!(empty.is_generic());
}

#[test]
fn descriptor_merge_fills_missing_fields() {
    let v = JsValue::new_bool(true);
    let partial = JsDescriptor {
        value: Some(v),
        get: None,
        set: None,
        writable: None,
        enumerable: None,
        configurable: None,
    };
    let base = JsDescriptor::new_value(JsValue::Null, false, true, false);
    let merged = partial.merge(base);
    assert_eq!(merged.value(), v);
    assert!(!merged.is_writable());
    assert!(merged.is_enumerable());
    assert!(!merged.is_configurable());
}

#[test]
fn descriptor_is_same() {
    let v = JsValue::new_number(f64::NAN.to_bits());
    let a = JsDescriptor::new_simple_value(v);
    let b = JsDescriptor::new_simple_value(v);
    // NaN-valued descriptors still compare the same under SameValue
    assert!(a.is_same(&b));
    let c = JsDescriptor::new_value(v, false, true, true);
    assert!(!a.is_same(&c));
}

#[test]
fn hash_single_entry() {
    let mut hash = rjs::hash::Hash::new(7);
    let v = JsValue::new_number((1.0f64).to_bits());
    hash.add(Name(1), &JsDescriptor::new_simple_value(v));
    assert_eq!(hash.len(), 1);
    let stored = hash.get_value(Name(1)).unwrap();
    assert_eq!(stored.value(), v);
    assert!(stored.is_writable());
    assert!(stored.is_enumerable());
    assert!(stored.is_configurable());
    assert!(hash.get_value(Name(2)).is_none());
}

#[test]
fn hash_clashing_entries() {
    // capacity is 7; names 1, 8 and 15 share a home bucket
    let mut hash = rjs::hash::Hash::new(7);
    let one = JsValue::new_number((1.0f64).to_bits());
    let two = JsValue::new_number((2.0f64).to_bits());
    let three = JsValue::new_number((3.0f64).to_bits());
    hash.add(Name(1), &JsDescriptor::new_simple_value(one));
    hash.add(Name(8), &JsDescriptor::new_simple_value(two));
    hash.add(Name(15), &JsDescriptor::new_simple_value(three));
    assert_eq!(hash.len(), 3);
    assert_eq!(hash.get_value(Name(1)).unwrap().value(), one);
    assert_eq!(hash.get_value(Name(8)).unwrap().value(), two);
    assert_eq!(hash.get_value(Name(15)).unwrap().value(), three);
}

#[test]
fn hash_eviction_of_interloper() {
    // 8 lands in bucket 1 as an overflow entry; adding 2^32-bucketed
    // name whose home is that slot forces an eviction
    let mut hash = rjs::hash::Hash::new(7);
    for k in [1u64, 8, 15, 2, 9] {
        let v = JsValue::new_number((k as f64).to_bits());
        hash.add(Name(k), &JsDescriptor::new_simple_value(v));
    }
    for k in [1u64, 8, 15, 2, 9] {
        let stored = hash.get_value(Name(k)).unwrap();
        assert_eq!(stored.value(), JsValue::new_number((k as f64).to_bits()));
    }
}

#[test]
fn hash_remove_front_middle_tail() {
    let mut hash = rjs::hash::Hash::new(7);
    for k in [1u64, 8, 15] {
        let v = JsValue::new_number((k as f64).to_bits());
        hash.add(Name(k), &JsDescriptor::new_simple_value(v));
    }
    assert!(hash.remove(Name(8)));
    assert!(!hash.remove(Name(8)));
    assert_eq!(hash.len(), 2);
    assert!(hash.get_value(Name(8)).is_none());
    assert!(hash.get_value(Name(1)).is_some());
    assert!(hash.get_value(Name(15)).is_some());
    assert!(hash.remove(Name(1)));
    assert!(hash.get_value(Name(1)).is_none());
    assert!(hash.get_value(Name(15)).is_some());
    assert!(hash.remove(Name(15)));
    assert_eq!(hash.len(), 0);
}

#[test]
fn hash_growth_keeps_entries() {
    let mut hash = rjs::hash::Hash::new(7);
    for k in 0..100u64 {
        let v = JsValue::new_number((k as f64).to_bits());
        hash.add(Name(k), &JsDescriptor::new_simple_value(v));
    }
    assert_eq!(hash.len(), 100);
    for k in 0..100u64 {
        assert_eq!(
            hash.get_value(Name(k)).unwrap().value(),
            JsValue::new_number((k as f64).to_bits())
        );
    }
}

#[test]
fn hash_replace_keeps_name() {
    let mut hash = rjs::hash::Hash::new(7);
    let v1 = JsValue::new_bool(false);
    let v2 = JsValue::new_bool(true);
    hash.add(Name(5), &JsDescriptor::new_simple_value(v1));
    assert!(hash.replace(Name(5), &JsDescriptor::new_value(v2, false, false, false)));
    let stored = hash.get_value(Name(5)).unwrap();
    assert_eq!(stored.value(), v2);
    assert!(!stored.is_writable());
    assert!(!hash.replace(Name(6), &JsDescriptor::new_simple_value(v1)));
    assert_eq!(hash.len(), 1);
}

#[test]
fn hash_key_iter_yields_live_names() {
    let mut hash = rjs::hash::Hash::new(7);
    for k in [3u64, 10, 4] {
        let v = JsValue::Undefined;
        hash.add(Name(k), &JsDescriptor::new_simple_value(v));
    }
    hash.remove(Name(10));
    let mut it = hash.key_iter();
    let mut seen = Vec::new();
    while let Some(name) = it.next() {
        seen.push(name.value());
    }
    seen.sort();
    assert_eq!(seen, vec![3, 4]);
}

#[test]
fn hash_load_factor_after_inserts() {
    // the population never passes 70% of the capacity
    let mut hash = rjs::hash::Hash::new(3);
    for k in 0..50u64 {
        hash.add(Name(k), &JsDescriptor::new_simple_value(JsValue::Undefined));
    }
    assert_eq!(hash.len(), 50);
}

#[test]
fn get_prime_picks_table_values() {
    assert_eq!(rjs::hash::Hash::get_prime(0), 3);
    assert_eq!(rjs::hash::Hash::get_prime(3), 3);
    assert_eq!(rjs::hash::Hash::get_prime(4), 7);
    assert_eq!(rjs::hash::Hash::get_prime(7), 7);
    assert_eq!(rjs::hash::Hash::get_prime(100), 107);
    assert_eq!(rjs::hash::Hash::get_prime(7_199_369), 7_199_369);
    // past the table, the next odd prime is probed
    assert_eq!(rjs::hash::Hash::get_prime(7_199_370), 7_199_371);
}

#[test]
fn header_packs_and_unpacks() {
    let h = GcMemHeader::new(7, 4096, false);
    assert_eq!(h.get_type_id(), 7);
    assert_eq!(h.get_size(), 4096);
    assert!(!h.is_array());
    let a = GcMemHeader::new(127, 0xFF_FFFF, true);
    assert_eq!(a.get_type_id(), 127);
    assert_eq!(a.get_size(), 0xFF_FFFF);
    assert!(a.is_array());
}

#[test]
fn gc_opts_validation() {
    let mut opts = GcOpts::default();
    opts.fast_growth_percent = 100;
    assert!(GcHeap::new(NoPointerWalker, opts).is_err());
    let mut opts = GcOpts::default();
    opts.slow_growth_percent = 50;
    assert!(GcHeap::new(NoPointerWalker, opts).is_err());
    let mut opts = GcOpts::default();
    opts.init_gc_percent = 101;
    assert!(GcHeap::new(NoPointerWalker, opts).is_err());
    assert!(GcHeap::new(NoPointerWalker, GcOpts::default()).is_ok());
}

#[test]
fn alloc_returns_aligned_addresses() {
    let mut heap = GcHeap::new(NoPointerWalker, GcOpts::default()).unwrap();
    let mut extra = Vec::new();
    for size in [1usize, 8, 9, 24, 1000] {
        let addr = heap.alloc_raw(size, &mut extra).unwrap();
        assert_eq!(addr % 8, 0);
        assert_ne!(addr, 0);
    }
}

#[test]
fn alloc_too_big_fails_after_one_gc() {
    let mut opts = GcOpts::default();
    opts.initial_heap = 1024; // 128 words per semispace
    let mut heap = GcHeap::new(NoPointerWalker, opts).unwrap();
    let mut extra = Vec::new();
    let r = heap.alloc_raw(8 * 1024 * 1024, &mut extra);
    assert_eq!(r, Err(FatalError::AllocationFailed));
    // ordinary allocation still works afterwards
    assert!(heap.alloc_raw(64, &mut extra).is_ok());
}

#[test]
fn local_without_scope_is_fatal() {
    let mut heap = GcHeap::new(NoPointerWalker, GcOpts::default()).unwrap();
    let mut extra = Vec::new();
    let r = heap.alloc_local(1, 16, &mut extra);
    assert!(matches!(r, Err(FatalError::NoActiveScope)));
}

#[test]
fn scopes_drop_in_order_only() {
    let mut heap = GcHeap::new(NoPointerWalker, GcOpts::default()).unwrap();
    let outer = heap.new_local_scope();
    let inner = heap.new_local_scope();
    // dropping the outer scope first is fatal
    let r = heap.drop_scope(outer);
    assert_eq!(r, Err(FatalError::ScopeOrderViolation));
    let outer = rjs::heap::LocalScope { index: 0 };
    assert!(heap.drop_scope(inner).is_ok());
    assert!(heap.drop_scope(outer).is_ok());
}

#[test]
fn roots_survive_collection() {
    let mut heap = GcHeap::new(AllPointerWalker, GcOpts::default()).unwrap();
    let mut extra = Vec::new();
    // a -> b: object a's only word points at b
    let b = heap.alloc_object(1, 8, &mut extra).unwrap();
    heap.set_word(b, 0, 0x1234_5678_0000_0000);
    let a = heap.alloc_object(1, 8, &mut extra).unwrap();
    heap.set_word(a, 0, 0);
    let root = heap.alloc_root(1, 8, &mut extra).unwrap();
    let ra = heap.root_target(root).unwrap();
    heap.set_word(ra, 0, b);
    let used_before = heap.mem_used();
    heap.gc(&mut extra);
    // the rooted object and what it references survive; `a` does not
    let ra2 = heap.root_target(root).unwrap();
    let b2 = heap.get_word(ra2, 0);
    assert_ne!(b2, 0);
    assert!(heap.mem_used() <= used_before);
}

#[test]
fn released_root_reads_are_fatal() {
    let mut heap = GcHeap::new(NoPointerWalker, GcOpts::default()).unwrap();
    let mut extra = Vec::new();
    let root = heap.alloc_root(1, 16, &mut extra).unwrap();
    assert!(heap.root_target(root).is_ok());
    assert!(heap.release_root(root).is_ok());
    assert_eq!(heap.root_target(root), Err(FatalError::InvalidRoot));
    assert_eq!(heap.release_root(root), Err(FatalError::InvalidRoot));
}

#[test]
fn root_handles_reuse_released_slots() {
    let mut handles = RootHandles::new();
    let a = handles.add(0x100);
    let b = handles.add(0x200);
    assert_ne!(a, b);
    assert_eq!(handles.remove(a), 0x100);
    let c = handles.add(0x300);
    assert_eq!(c, a);
    assert_eq!(handles.get_target(b).unwrap(), 0x200);
    assert_eq!(handles.get_target(c).unwrap(), 0x300);
}

#[test]
fn scope_chain_thin_and_thick() {
    let parent = JsScope::new_local_thin(2, None);
    assert_eq!(parent.len(), 2);
    assert!(parent.parent().is_none());
    let mut thin = JsScope::new_local_thin(3, Some(JsValue::Scope(0)));
    assert_eq!(thin.parent(), Some(JsValue::Scope(0)));
    thin.set(1, JsValue::new_bool(true));
    assert_eq!(thin.get(1), JsValue::new_bool(true));
    assert_eq!(thin.get(0), JsValue::Undefined);

    let mut thick = JsScope::new_local_thick(JsValue::Object(7), None, true);
    assert_eq!(thick.scope_object(), JsValue::Object(7));
    assert_eq!(thick.arguments(), Some(JsValue::Undefined));
    assert!(thick.set_arguments(JsValue::Object(9)).is_ok());
    assert_eq!(thick.arguments(), Some(JsValue::Object(9)));
}

#[test]
fn thin_scope_has_no_arguments_slot() {
    let mut thick_no_args = JsScope::new_local_thick(JsValue::Object(1), None, false);
    assert!(thick_no_args.arguments().is_none());
    assert_eq!(
        thick_no_args.set_arguments(JsValue::Null),
        Err(FatalError::BadScopeSlot)
    );
    // a thin scope never has the slot, even with enough variable slots
    let mut thin = JsScope::new_local_thin(4, None);
    assert!(thin.arguments().is_none());
    assert_eq!(thin.set_arguments(JsValue::Null), Err(FatalError::BadScopeSlot));
    assert_eq!(thin.get(1), JsValue::Undefined);
}

#[test]
fn args_frame() {
    let f = JsValue::Object(1);
    let this = JsValue::Object(2);
    let args = vec![JsValue::new_bool(true), JsValue::Null];
    let mut frame = JsArgs::new(f, this, args);
    assert_eq!(frame.argc(), 2);
    assert_eq!(frame.arg(0), JsValue::new_bool(true));
    assert_eq!(frame.arg(1), JsValue::Null);
    assert_eq!(frame.arg(2), JsValue::Undefined);
    assert_eq!(frame.arg_or(5, JsValue::Object(9)), JsValue::Object(9));
    assert_eq!(frame.this(), this);
    assert_eq!(frame.function(), f);
    frame.set_result(JsValue::new_number(0));
    assert_eq!(frame.result(), JsValue::new_number(0));
    assert_eq!(frame.args().len(), 2);
}

#[test]
fn fn_mode_bits() {
    let m = JsFnMode::new(true, false);
    assert!(m.construct());
    assert!(!m.strict());
    let m = JsFnMode::new(false, true);
    assert!(!m.construct());
    assert!(m.strict());
}

#[test]
fn writer_stream() {
    let mut w = Writer::new();
    w.push(0x90);
    w.push(0xC3);
    assert_eq!(w.len(), 2);
    assert_eq!(w.get(), 0x90);
    assert_eq!(w.get_at(1), 0xC3);
    w.set_at(0xCC, 0);
    assert_eq!(w.get(), 0xCC);
}

#[test]
fn string_from_str_bmp() {
    let s = JsString::from_str("abc");
    assert_eq!(s.chars().as_slice(), &[0x61, 0x62, 0x63]);
    assert_eq!(s.len(), 3);
}

#[test]
fn string_surrogate_pairs() {
    // U+1D11E musical G clef encodes as a surrogate pair
    let s = JsString::from_str("\u{1D11E}");
    assert_eq!(s.chars().as_slice(), &[0xD834, 0xDD1E]);
    // decoding the pair in Rust gives the original string back
    let decoded = String::from_utf16(s.chars().as_slice()).unwrap();
    assert_eq!(decoded, "\u{1D11E}");
}

#[test]
fn string_round_trip_through_utf16() {
    for text in ["", "hello", "caf\u{e9}", "a\u{10FFFF}b", "\u{FFFD}"] {
        let s = JsString::from_str(text);
        let decoded = String::from_utf16(s.chars().as_slice()).unwrap();
        assert_eq!(decoded, text);
    }
}

#[test]
fn string_concat_and_equals() {
    let a = JsString::from_str("foo");
    let b = JsString::from_str("bar");
    let joined = JsString::concat(&vec![a, b]);
    assert_eq!(joined.chars().as_slice(), &[0x66, 0x6F, 0x6F, 0x62, 0x61, 0x72]);
    let c = JsString::from_str("foobar");
    assert!(JsString::equals(&joined, &c));
    let d = JsString::from_str("foobaz");
    assert!(!JsString::equals(&joined, &d));
}

#[test]
fn string_from_u16() {
    let units = vec![0x48u16, 0x69];
    let s = JsString::from_u16(&units);
    assert_eq!(s.chars().as_slice(), &[0x48, 0x69]);
}


#[test]
fn can_put_follows_ecma_rules() {
    let setter = JsValue::Object(9);
    let own_acc_with_setter = JsDescriptor::new_simple_accessor(None, Some(setter));
    let own_acc_no_setter = JsDescriptor::new_simple_accessor(Some(setter), None);
    let own_data_ro = JsDescriptor::new_value(JsValue::Null, false, true, true);
    let own_data_rw = JsDescriptor::new_value(JsValue::Null, true, true, true);
    assert!(can_put_decision(Some(own_acc_with_setter), None, false));
    assert!(!can_put_decision(Some(own_acc_no_setter), None, true));
    assert!(!can_put_decision(Some(own_data_ro), None, true));
    assert!(can_put_decision(Some(own_data_rw), None, false));
    // inherited data property needs both extensibility and writability
    assert!(!can_put_decision(None, Some(own_data_rw), false));
    assert!(can_put_decision(None, Some(own_data_rw), true));
    assert!(!can_put_decision(None, Some(own_data_ro), true));
    // nothing found anywhere: extensibility decides
    assert!(can_put_decision(None, None, true));
    assert!(!can_put_decision(None, None, false));
}

#[test]
fn put_decision_paths() {
    let v = JsValue::new_bool(true);
    let own_data = JsDescriptor::new_value(v, true, true, true);
    let setter = JsValue::Object(3);
    let chain_acc = JsDescriptor::new_simple_accessor(None, Some(setter));
    assert_eq!(put_decision(None, None, false, false, true), PutStep::Refuse);
    assert_eq!(put_decision(None, None, false, false, false), PutStep::Ignore);
    assert_eq!(
        put_decision(Some(own_data), Some(own_data), true, false, true),
        PutStep::WriteOwnValue
    );
    assert_eq!(
        put_decision(None, Some(chain_acc), true, false, false),
        PutStep::InvokeSetter(setter)
    );
    assert_eq!(put_decision(None, None, true, false, false), PutStep::DefineOwn);
    // the array index-name deviation bypasses a failing can_put
    assert_eq!(
        put_decision(Some(own_data), Some(own_data), false, true, true),
        PutStep::WriteOwnValue
    );
}

#[test]
fn assemble_descriptor_checks() {
    let getter = JsValue::Object(5);
    // not an object
    assert_eq!(
        assemble_property_descriptor(false, None, None, None, None, None, None),
        Err(TypeErrorKind::InvalidType)
    );
    // a non-callable getter
    assert_eq!(
        assemble_property_descriptor(true, None, None, None, None,
            Some((getter, false)), None),
        Err(TypeErrorKind::AccessorNotCallable)
    );
    // writable beside an accessor
    assert_eq!(
        assemble_property_descriptor(true, None, None, None,
            Some(JsValue::Boolean(true)), Some((getter, true)), None),
        Err(TypeErrorKind::WritableInvalidOnAccessor)
    );
    // a plain accessor descriptor
    let d = assemble_property_descriptor(true, Some(JsValue::Boolean(true)), None,
        None, None, Some((getter, true)), None).unwrap();
    assert_eq!(d.get, Some(getter));
    assert_eq!(d.enumerable, Some(true));
    assert!(d.set.is_none() && d.value.is_none() && d.writable.is_none());
    // undefined is always an acceptable accessor slot
    let u = assemble_property_descriptor(true, None, None, None, None,
        Some((JsValue::Undefined, false)), None).unwrap();
    assert_eq!(u.get, Some(JsValue::Undefined));
}

#[test]
fn default_value_protocol() {
    // hint resolution: no hint prefers String only for Date instances
    assert!(default_value_hint(None, true));
    assert!(!default_value_hint(None, false));
    assert!(default_value_hint(Some(true), false));
    assert!(default_value_tries_tostring_first(true));
    assert!(!default_value_tries_tostring_first(false));
    // a callable method returning a primitive settles the value
    let prim = JsValue::new_number((7.0f64).to_bits());
    assert_eq!(default_value_step(false, true, prim), Ok(Some(prim)));
    // an object result moves on, then fails the second phase
    assert_eq!(default_value_step(false, true, JsValue::Object(1)), Ok(None));
    assert_eq!(default_value_step(false, false, JsValue::Undefined), Ok(None));
    assert_eq!(
        default_value_step(true, true, JsValue::Object(1)),
        Err(TypeErrorKind::InvalidType)
    );
}

#[test]
fn local_handles_resolve_to_fresh_objects() {
    let mut heap = GcHeap::new(NoPointerWalker, GcOpts::default()).unwrap();
    let mut extra = Vec::new();
    let scope = heap.new_local_scope();
    let l = heap.alloc_local(3, 24, &mut extra).unwrap();
    let addr = heap.local_target(l).unwrap();
    assert_ne!(addr, 0);
    assert_eq!(addr % 8, 0);
    let l2 = heap.alloc_local_from_ptr(addr).unwrap();
    assert_eq!(heap.local_target(l2).unwrap(), addr);
    let root = heap.alloc_root_from_local(l).unwrap();
    assert_eq!(heap.root_target(root).unwrap(), addr);
    let twin = heap.clone_root(root).unwrap();
    assert_eq!(heap.root_target(twin).unwrap(), addr);
    assert!(heap.drop_scope(scope).is_ok());
}

#[test]
fn gc_with_no_roots_reclaims_everything() {
    let mut heap = GcHeap::new(NoPointerWalker, GcOpts::default()).unwrap();
    let mut extra = Vec::new();
    let used0 = heap.mem_used();
    for _ in 0..10 {
        heap.alloc_object(1, 64, &mut extra).unwrap();
    }
    assert!(heap.mem_used() > used0);
    heap.gc(&mut extra);
    assert_eq!(heap.mem_used(), used0);
}

#[test]
fn walker_validation() {
    let mut heap = GcHeap::new(AllPointerWalker, GcOpts::default()).unwrap();
    let mut extra = Vec::new();
    let addr = heap.alloc_object(1, 16, &mut extra).unwrap();
    heap.set_word(addr, 1, 0x99);
    // the all-pointer walker agrees a non-zero word is a pointer
    assert_eq!(heap.validate_walker_field(1, addr, true), Ok(1));
    // and disagrees when a plain field was expected
    assert_eq!(
        heap.validate_walker_field(1, addr, false),
        Err(rjs::errors::FatalError::WalkerMismatch)
    );
}
