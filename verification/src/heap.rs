//! The copying garbage-collected heap, its handles and its scopes.
//!
//! The heap is two equal semispaces of 8-byte words.  Objects are
//! bump-allocated in the active space: one header word, then the
//! payload; the address handed out is the byte address of the payload
//! (the header sits at the fixed negative offset).  `gc` performs
//! Cheney copying into a fresh space: every root is forwarded, a
//! forwarding word replaces each moved object's header, and the scan
//! phase rewrites pointer words of copied objects as the client's
//! walker directs.
//!
//! Roots come in two families: persistent slots in the root table
//! (`Root`), and scoped locals recorded per `LocalScope` (`Local`).
//! Scopes must be dropped in creation order; violations are fatal, not
//! script-visible.

use vstd::prelude::*;
use crate::errors::FatalError;

verus! {

/// Number of bytes in a heap word.
pub const WORD_BYTES: u64 = 8;

/// Tag planted in a moved object's header word; the rest of the word is
/// the new payload address.
pub const FORWARD_TAG: u64 = 0x8000_0000_0000_0000;

/// What one word of a managed object is to the collector.
#[derive(Copy, Clone, PartialEq, Eq, Structural, Debug)]
pub enum GcWalk {
    /// The word is a pointer and must be traced.
    Pointer,
    /// The word is not a pointer.
    Skip,
    /// No later word of this object is a pointer.
    End,
    /// No element of an array of this type holds a pointer.
    EndArray,
}

/// How a freed object was finalized.
#[derive(Copy, Clone, PartialEq, Eq, Structural, Debug)]
pub enum GcFinalize {
    Finalized,
    NotFinalizable,
}

/// The client's layout oracle: which words of each type are pointers,
/// and how to finalize freed objects.
///
/// The exec `walk` must answer along its own `pointer_word` layout:
/// `Pointer` exactly where the layout says so, and `End`/`EndArray`
/// only once no later word is a pointer.
pub trait GcWalker {
    /// The claimed layout: is word `index` of a `ty` payload a pointer?
    spec fn pointer_word(&self, ty: u32, index: nat) -> bool;

    /// Classifies one payload word.
    fn walk(&self, ty: u32, index: u32) -> (r: GcWalk)
        ensures
            (r == GcWalk::Pointer) == self.pointer_word(ty, index as nat),
            (r == GcWalk::End || r == GcWalk::EndArray)
                ==> forall|k: nat| k >= index ==> !self.pointer_word(ty, k),
    ;

    /// Called once per freed object.
    fn finalize(&mut self, ty: u32, addr: u64) -> (r: GcFinalize);
}

/// An abstract supplier of extra root slots (an interpreter stack, for
/// example): `next` yields indices into the extra-root buffer handed to
/// `gc` until it returns `None`.
pub trait GcRootWalker {
    fn next(&mut self) -> (r: Option<usize>);
}

/// Heap configuration.  The growth factors and the collection trigger
/// are percentages: growth must be above 100, the trigger at most 100.
pub struct GcOpts {
    /// Initial size of one semispace in bytes.
    pub initial_heap: usize,
    /// Fill percentage past which a collection starts preemptively.
    pub init_gc_percent: u32,
    /// Growth percentage applied when survivors keep more than half the
    /// space.
    pub slow_growth_percent: u32,
    /// Growth percentage applied when survivors keep more than 85% of
    /// the space.
    pub fast_growth_percent: u32,
}

impl GcOpts {
    /// The default configuration: 16M semispaces, collect at 95% fill,
    /// grow by half or threefold.
    pub fn default() -> (r: GcOpts)
        ensures
            r.initial_heap == 16 * 1024 * 1024,
            r.init_gc_percent == 95,
            r.slow_growth_percent == 150,
            r.fast_growth_percent == 300,
    {
        GcOpts {
            initial_heap: 16 * 1024 * 1024,
            init_gc_percent: 95,
            slow_growth_percent: 150,
            fast_growth_percent: 300,
        }
    }
}

/// The object header: a 7-bit type tag, a 24-bit size in bytes, and the
/// array flag, packed into one word.
#[derive(Copy, Clone, PartialEq, Eq, Structural, Debug)]
pub struct GcMemHeader {
    header: u64,
}

impl GcMemHeader {
    pub closed spec fn spec_type_id(&self) -> u32 {
        ((self.header >> 1) & 0x7F) as u32
    }

    pub closed spec fn spec_size(&self) -> u64 {
        (self.header >> 8) & 0xFF_FFFF
    }

    pub closed spec fn spec_is_array(&self) -> bool {
        self.header & 1 != 0
    }

    pub closed spec fn spec_word(&self) -> u64 {
        self.header
    }

    /// Packs a header.
    pub fn new(ty: u32, size: u64, is_array: bool) -> (r: GcMemHeader)
        requires
            ty < 0x80,
            size < 0x100_0000,
        ensures
            r.spec_type_id() == ty,
            r.spec_size() == size,
            r.spec_is_array() == is_array,
            r.spec_word() < FORWARD_TAG,
    {
        let abit: u64 = if is_array { 1 } else { 0 };
        let header: u64 = ((ty as u64) & 0x7F) << 1 | (size & 0xFF_FFFF) << 8 | abit;
        proof {
            lemma_header_fields(ty as u64, size, abit, header);
        }
        GcMemHeader { header: header }
    }

    /// Rebuilds the header from its raw word.
    pub fn from_word(word: u64) -> (r: GcMemHeader)
        ensures
            r.spec_word() == word,
    {
        GcMemHeader { header: word }
    }

    /// The raw header word.
    pub fn word(&self) -> (r: u64)
        ensures
            r == self.spec_word(),
    {
        self.header
    }

    /// The type tag.
    pub fn get_type_id(&self) -> (r: u32)
        ensures
            r == self.spec_type_id(),
    {
        ((self.header >> 1) & 0x7F) as u32
    }

    /// The payload size in bytes (per-element size for arrays).
    pub fn get_size(&self) -> (r: u64)
        ensures
            r == self.spec_size(),
            r <= 0xFF_FFFF,
    {
        let w = self.header;
        assert((w >> 8) & 0xFF_FFFF <= 0xFF_FFFF) by (bit_vector);
        (self.header >> 8) & 0xFF_FFFF
    }

    /// Whether the payload is an array.
    pub fn is_array(&self) -> (r: bool)
        ensures
            r == self.spec_is_array(),
    {
        self.header & 1 != 0
    }
}

/// Packing a header and reading it back yields the inputs.
proof fn lemma_header_fields(ty: u64, size: u64, abit: u64, header: u64)
    by (bit_vector)
    requires
        ty < 0x80,
        size < 0x100_0000,
        abit == 0 || abit == 1,
        header == (ty & 0x7F) << 1 | (size & 0xFF_FFFF) << 8 | abit,
    ensures
        (header >> 1) & 0x7F == ty,
        (header >> 8) & 0xFF_FFFF == size,
        (header & 1 != 0) == (abit == 1),
        header < 0x8000_0000_0000_0000,
{
}

/// The persistent root table: a vector of addresses with a free list
/// for O(1) slot reuse.  A released slot holds the null address so the
/// collector skips it.
pub struct RootHandles {
    ptrs: Vec<u64>,
    free: Vec<u32>,
}

impl RootHandles {
    pub closed spec fn view(&self) -> Seq<u64> {
        self.ptrs@
    }

    pub closed spec fn free_list(&self) -> Seq<u32> {
        self.free@
    }

    pub open spec fn wf(&self) -> bool {
        &&& self.view().len() <= u32::MAX
        &&& forall|i: int| 0 <= i < self.free_list().len()
            ==> (#[trigger] self.free_list()[i]) < self.view().len()
                && self.view()[self.free_list()[i] as int] == 0
        &&& forall|i: int, j: int| 0 <= i < j < self.free_list().len()
            ==> self.free_list()[i] != self.free_list()[j]
    }

    pub fn new() -> (r: RootHandles)
        ensures
            r.wf(),
            r.view() == Seq::<u64>::empty(),
    {
        RootHandles {
            ptrs: Vec::new(),
            free: Vec::new(),
        }
    }

    /// Claims a slot for `ptr`, reusing a released one when possible.
    pub fn add(&mut self, ptr: u64) -> (index: u32)
        requires
            old(self).wf(),
            old(self).view().len() < u32::MAX,
        ensures
            final(self).wf(),
            index < final(self).view().len(),
            final(self).view()[index as int] == ptr,
            // other slots keep their targets
            forall|i: int| 0 <= i < old(self).view().len() && i != index
                ==> final(self).view()[i] == old(self).view()[i],
            // a released slot is reused before the table grows
            old(self).free_list().len() > 0
                ==> final(self).view().len() == old(self).view().len()
                    && index == old(self).free_list()[old(self).free_list().len() - 1]
                    && final(self).free_list() == old(self).free_list().drop_last(),
            old(self).free_list().len() == 0
                ==> final(self).view().len() == old(self).view().len() + 1
                    && index == old(self).view().len()
                    && final(self).free_list() == old(self).free_list(),
    {
        let popped = self.free.pop();
        match popped {
            Some(index) => {
                proof {
                    assert(old(self).free_list()[old(self).free_list().len() - 1] == index);
                    assert(index < self.view().len());
                }
                self.ptrs.set(index as usize, ptr);
                proof {
                    assert forall|i: int| 0 <= i < self.free_list().len()
                        implies (#[trigger] self.free_list()[i]) < self.view().len()
                            && self.view()[self.free_list()[i] as int] == 0 by {
                        assert(old(self).free_list()[i] == self.free_list()[i]);
                        assert(old(self).view()[old(self).free_list()[i] as int] == 0);
                        assert(old(self).free_list()[old(self).free_list().len() - 1] == index);
                        assert(old(self).free_list()[i] != index);
                    }
                }
                index
            },
            None => {
                let index = self.ptrs.len() as u32;
                self.ptrs.push(ptr);
                index
            },
        }
    }

    /// Releases a slot, pushing it onto the free list and nulling it.
    pub fn remove(&mut self, handle: u32) -> (ptr: u64)
        requires
            old(self).wf(),
            handle < old(self).view().len(),
            old(self).view()[handle as int] != 0,
        ensures
            final(self).wf(),
            ptr == old(self).view()[handle as int],
            final(self).view() == old(self).view().update(handle as int, 0),
    {
        let ptr = self.ptrs[handle as usize];
        self.ptrs.set(handle as usize, 0);
        self.free.push(handle);
        proof {
            assert forall|i: int| 0 <= i < self.free_list().len()
                implies (#[trigger] self.free_list()[i]) < self.view().len()
                    && self.view()[self.free_list()[i] as int] == 0 by {
                if i < self.free_list().len() - 1 {
                    assert(old(self).free_list()[i] == self.free_list()[i]);
                    assert(old(self).view()[old(self).free_list()[i] as int] == 0);
                }
            }
            assert forall|i: int, j: int| 0 <= i < j < self.free_list().len()
                implies self.free_list()[i] != self.free_list()[j] by {
                if j == self.free_list().len() - 1 {
                    assert(self.free_list()[j] == handle);
                    assert(old(self).free_list()[i] == self.free_list()[i]);
                    assert(old(self).view()[old(self).free_list()[i] as int] == 0);
                    assert(old(self).view()[handle as int] != 0);
                } else {
                    assert(old(self).free_list()[i] == self.free_list()[i]);
                    assert(old(self).free_list()[j] == self.free_list()[j]);
                }
            }
        }
        ptr
    }

    /// Claims a fresh slot aimed at the same target.
    pub fn clone_root(&mut self, handle: u32) -> (index: u32)
        requires
            old(self).wf(),
            handle < old(self).view().len(),
            old(self).view().len() < u32::MAX,
        ensures
            final(self).wf(),
            index < final(self).view().len(),
            final(self).view()[index as int] == old(self).view()[handle as int],
            forall|i: int| 0 <= i < old(self).view().len() && i != index
                ==> final(self).view()[i] == old(self).view()[i],
    {
        let ptr = self.ptrs[handle as usize];
        self.add(ptr)
    }

    /// The address behind a root; a released or out-of-range slot is an
    /// invalid root.
    pub fn get_target(&self, handle: u32) -> (r: Result<u64, FatalError>)
        requires
            self.wf(),
        ensures
            handle < self.view().len() ==> r == Ok::<u64, FatalError>(self.view()[handle as int]),
            handle >= self.view().len() ==> r == Err::<u64, FatalError>(FatalError::InvalidRoot),
    {
        if (handle as usize) < self.ptrs.len() {
            Ok(self.ptrs[handle as usize])
        } else {
            Err(FatalError::InvalidRoot)
        }
    }
}

/// Initial slot capacity of a fresh local scope.
pub const INITIAL_LOCAL_SCOPE_CAPACITY: usize = 8;

/// The slots of one local scope: the current vector plus every grown-out
/// predecessor, which older `Local` handles still point into.
pub struct LocalScopeData {
    current: Vec<u64>,
    handles: Vec<Vec<u64>>,
    cap: usize,
}

impl LocalScopeData {
    pub closed spec fn spec_current(&self) -> Seq<u64> {
        self.current@
    }

    pub closed spec fn spec_history(&self) -> Seq<Vec<u64>> {
        self.handles@
    }

    pub closed spec fn spec_current_vec(&self) -> Vec<u64> {
        self.current
    }

    pub open spec fn wf(&self) -> bool {
        &&& self.spec_current().len() <= self.spec_cap()
        &&& self.spec_cap() >= 1
        &&& self.spec_cap() <= 0x1000_0000
    }

    pub closed spec fn spec_cap(&self) -> int {
        self.cap as int
    }

    pub fn new() -> (r: LocalScopeData)
        ensures
            r.wf(),
            r.spec_current() == Seq::<u64>::empty(),
            r.spec_history() == Seq::<Vec<u64>>::empty(),
    {
        LocalScopeData {
            current: Vec::new(),
            handles: Vec::new(),
            cap: INITIAL_LOCAL_SCOPE_CAPACITY,
        }
    }

    /// Records an address, growing into a fresh doubled vector when the
    /// current one is full (the full one is kept: handles point into it).
    pub fn add(&mut self, ptr: u64) -> (slot: usize)
        requires
            old(self).wf(),
        ensures
            final(self).wf(),
            slot < final(self).spec_current().len(),
            final(self).spec_current()[slot as int] == ptr,
    {
        if self.current.len() == self.cap {
            self.grow();
        }
        let slot = self.current.len();
        self.current.push(ptr);
        slot
    }

    /// Retires the full current vector into the history and starts a
    /// doubled one.
    pub fn grow(&mut self)
        requires
            old(self).wf(),
        ensures
            final(self).wf(),
            final(self).spec_current() == Seq::<u64>::empty(),
            final(self).spec_history() == old(self).spec_history().push(old(self).spec_current_vec()),
    {
        let mut fresh: Vec<u64> = Vec::new();
        core::mem::swap(&mut fresh, &mut self.current);
        self.handles.push(fresh);
        if self.cap <= 0x800_0000 {
            self.cap = self.cap * 2;
        }
    }
}

/// A transient handle to a scoped root slot: the scope, which of its
/// vectors, and the slot.  The collector rewrites the slot in place, so
/// the handle stays good across a collection.
#[derive(Copy, Clone, PartialEq, Eq, Structural, Debug)]
pub struct Local {
    pub scope: usize,
    pub vec: usize,
    pub slot: usize,
}

/// A transient handle to a scoped array allocation, with the same
/// resolution path as `Local`.
#[derive(Copy, Clone, PartialEq, Eq, Structural, Debug)]
pub struct ArrayLocal {
    pub scope: usize,
    pub vec: usize,
    pub slot: usize,
}

/// A persistent handle: an index into the root table.
#[derive(Copy, Clone, PartialEq, Eq, Structural, Debug)]
pub struct Root {
    pub index: u32,
}

/// A persistent handle to an array allocation.
#[derive(Copy, Clone, PartialEq, Eq, Structural, Debug)]
pub struct ArrayRoot {
    pub index: u32,
}

/// A live local scope: the token returned by `new_local_scope`, spent
/// by `drop_scope`.
pub struct LocalScope {
    pub index: usize,
}


/// The copying heap: the active semispace, its bump pointer, the root
/// table, and the scope stack.
pub struct GcHeap<W: GcWalker> {
    walker: W,
    space: Vec<u64>,
    used: usize,
    handles: RootHandles,
    scopes: Vec<LocalScopeData>,
    init_gc_percent: u32,
    slow_growth_percent: u32,
    fast_growth_percent: u32,
}

/// The semispace word count a configuration yields: the requested
/// bytes in words, held between one page's worth and the address cap.
pub open spec fn spec_semi_words_of(initial_heap: usize) -> int {
    if initial_heap / 8 < 16 {
        16
    } else if initial_heap / 8 > 0x0FFF_FFFF {
        0x0FFF_FFFF
    } else {
        (initial_heap / 8) as int
    }
}

impl<W: GcWalker> GcHeap<W> {
    /// Words of one semispace.
    pub closed spec fn semi_words(&self) -> int {
        self.space@.len() as int
    }

    /// The layout oracle the heap was built with.
    pub closed spec fn spec_walker(&self) -> W {
        self.walker
    }

    /// Words handed out (bump pointer), the reserved null word included.
    pub closed spec fn used_words(&self) -> int {
        self.used as int
    }

    pub closed spec fn spec_space(&self) -> Seq<u64> {
        self.space@
    }

    pub closed spec fn spec_scope_count(&self) -> int {
        self.scopes@.len() as int
    }

    pub closed spec fn spec_roots(&self) -> Seq<u64> {
        self.handles.view()
    }

    /// Whether a local handle names an existing slot: its scope is
    /// open, and it points into one of that scope's vectors.
    pub closed spec fn local_ok(&self, l: Local) -> bool {
        &&& (l.scope as int) < self.scopes@.len()
        &&& {
            let data = self.scopes@[l.scope as int];
            ||| ((l.vec as int) < data.handles@.len()
                && (l.slot as int) < data.handles@[l.vec as int]@.len())
            ||| ((l.vec as int) == data.handles@.len()
                && (l.slot as int) < data.current@.len())
        }
    }

    /// The address behind a local handle.
    pub closed spec fn spec_local_target(&self, l: Local) -> u64 {
        let data = self.scopes@[l.scope as int];
        if (l.vec as int) < data.handles@.len() {
            data.handles@[l.vec as int]@[l.slot as int]
        } else {
            data.current@[l.slot as int]
        }
    }

    pub closed spec fn wf(&self) -> bool {
        &&& 16 <= self.semi_words() <= 0x0FFF_FFFF
        &&& 1 <= self.used_words() <= self.semi_words()
        &&& self.handles.wf()
        &&& forall|s: int| 0 <= s < self.spec_scope_count() ==> (#[trigger] self.scopes@[s]).wf()
    }

    /// Builds a heap; a trigger above 100% or growth at or below 100%
    /// is rejected.
    pub fn new(walker: W, opts: GcOpts) -> (r: Result<GcHeap<W>, FatalError>)
        ensures
            match r {
                Ok(heap) => {
                    &&& heap.wf()
                    &&& opts.fast_growth_percent > 100
                    &&& opts.slow_growth_percent > 100
                    &&& opts.init_gc_percent <= 100
                    &&& heap.used_words() == 1
                    &&& heap.spec_scope_count() == 0
                    &&& heap.spec_roots() == Seq::<u64>::empty()
                    &&& heap.spec_walker() == walker
                    &&& heap.semi_words() == spec_semi_words_of(opts.initial_heap)
                },
                Err(e) => {
                    &&& e == FatalError::InvalidOpts
                    &&& (opts.fast_growth_percent <= 100 || opts.slow_growth_percent <= 100
                        || opts.init_gc_percent > 100)
                },
            },
    {
        if opts.fast_growth_percent <= 100 || opts.slow_growth_percent <= 100
            || opts.init_gc_percent > 100 {
            return Err(FatalError::InvalidOpts);
        }
        let mut words = opts.initial_heap / 8;
        if words < 16 {
            words = 16;
        }
        if words > 0x0FFF_FFFF {
            words = 0x0FFF_FFFF;
        }
        let space = zero_words(words);
        Ok(GcHeap {
            walker: walker,
            space: space,
            used: 1,
            handles: RootHandles::new(),
            scopes: Vec::new(),
            init_gc_percent: opts.init_gc_percent,
            slow_growth_percent: opts.slow_growth_percent,
            fast_growth_percent: opts.fast_growth_percent,
        })
    }

    /// Total reserved memory in bytes: both semispaces.
    pub fn mem_allocated(&self) -> (r: usize)
        requires
            self.wf(),
        ensures
            r == 2 * self.semi_words() * 8,
    {
        2 * self.space.len() * 8
    }

    /// Bytes handed out in the active semispace.
    pub fn mem_used(&self) -> (r: usize)
        requires
            self.wf(),
        ensures
            r == self.used_words() * 8,
            r <= self.semi_words() * 8,
    {
        proof {
            assert(self.used_words() * 8 <= self.semi_words() * 8) by (nonlinear_arith)
                requires
                    self.used_words() <= self.semi_words(),
            ;
        }
        self.used * 8
    }

    /// Bump-allocates `size` bytes of payload (plus the header word).
    ///
    /// On overflow it collects once and retries; a second failure is
    /// the `AllocationFailed` fatal.  The returned address is the
    /// payload's byte address: never null, always word-aligned.
    pub fn alloc_raw(&mut self, size: usize, extra_roots: &mut Vec<u64>)
        -> (r: Result<u64, FatalError>)
        requires
            old(self).wf(),
            size <= 0x4000_0000,
        ensures
            final(self).wf(),
            final(self).spec_roots().len() == old(self).spec_roots().len(),
            final(self).spec_scope_count() == old(self).spec_scope_count(),
            match r {
                Ok(addr) => {
                    &&& addr % 8 == 0
                    &&& addr >= 16
                    &&& 2 <= addr as int / 8
                    // the object sits exactly at the bump pointer's old end
                    &&& addr as int / 8 + (size + 7) / 8 as int == final(self).used_words()
                },
                Err(e) => {
                    &&& e == FatalError::AllocationFailed
                    // even after one collection the request did not fit
                    &&& 1 + (size + 7) / 8 as int + final(self).used_words()
                        > final(self).semi_words()
                },
            },
    {
        let words = 1 + (size + 7) / 8;
        // preemptive collection once occupancy passes the trigger
        proof {
            assert((self.semi_words() as u64) * (self.init_gc_percent as u64) < 0x1_0000_0000_0000_0000)
                by (nonlinear_arith)
                requires
                    self.semi_words() <= 0x0FFF_FFFF,
                    self.init_gc_percent < 0x1_0000_0000,
            ;
        }
        let trigger = (self.space.len() as u64) * (self.init_gc_percent as u64) / 100;
        if (self.used as u64) + (words as u64) > trigger {
            self.gc(extra_roots);
        }
        if self.used + words <= self.space.len() {
            let u = self.used;
            proof {
                assert((u + 1) * 8 <= 0x8000_0000) by (nonlinear_arith)
                    requires
                        u < 0x1000_0000,
                ;
            }
            let addr = ((u + 1) * 8) as u64;
            self.used = self.used + words;
            proof {
                lemma_payload_addr(u as int, addr);
            }
            return Ok(addr);
        }
        self.gc(extra_roots);
        if self.used + words <= self.space.len() {
            let u = self.used;
            proof {
                assert((u + 1) * 8 <= 0x8000_0000) by (nonlinear_arith)
                    requires
                        u < 0x1000_0000,
                ;
            }
            let addr = ((u + 1) * 8) as u64;
            self.used = self.used + words;
            proof {
                lemma_payload_addr(u as int, addr);
            }
            return Ok(addr);
        }
        Err(FatalError::AllocationFailed)
    }

    /// The header governing the payload at `addr`.
    pub closed spec fn header_at(&self, addr: u64) -> GcMemHeader {
        GcMemHeader { header: self.spec_space()[addr as int / 8 - 1] }
    }

    /// Whether `addr` is a well-placed payload address.
    pub open spec fn addr_ok(&self, addr: u64) -> bool {
        addr % 8 == 0 && 16 <= addr && (addr as int / 8) <= self.used_words()
    }

    /// Allocates an object of type `ty` with `size` payload bytes
    /// (rounded up to whole words) and writes its header.
    pub fn alloc_object(&mut self, ty: u32, size: usize, extra_roots: &mut Vec<u64>)
        -> (r: Result<u64, FatalError>)
        requires
            old(self).wf(),
            ty < 0x80,
            size < 0x80_0000,
        ensures
            final(self).wf(),
            final(self).spec_roots().len() == old(self).spec_roots().len(),
            final(self).spec_scope_count() == old(self).spec_scope_count(),
            match r {
                Ok(addr) => {
                    &&& final(self).addr_ok(addr)
                    &&& final(self).header_at(addr).spec_type_id() == ty
                    &&& final(self).header_at(addr).spec_size() == ((size + 7) / 8 as int) * 8
                    &&& !final(self).header_at(addr).spec_is_array()
                    &&& addr as int / 8 + (size + 7) / 8 as int == final(self).used_words()
                },
                Err(e) => e == FatalError::AllocationFailed,
            },
    {
        let rounded = (size + 7) / 8 * 8;
        let addr = match self.alloc_raw(rounded, extra_roots) {
            Ok(addr) => addr,
            Err(e) => {
                return Err(e);
            },
        };
        let header = GcMemHeader::new(ty, rounded as u64, false);
        let w = (addr / 8) as usize;
        proof {
            assert(w - 1 < self.semi_words());
        }
        self.space.set(w - 1, header.word());
        proof {
            assert(self.header_at(addr).spec_word() == header.spec_word());
        }
        Ok(addr)
    }

    /// Allocates an array of `count` elements of `item_size` bytes each
    /// (rounded to words); the element count is the first payload word.
    pub fn alloc_array(&mut self, ty: u32, item_size: usize, count: usize,
            extra_roots: &mut Vec<u64>) -> (r: Result<u64, FatalError>)
        requires
            old(self).wf(),
            ty < 0x80,
            item_size <= 64,
            count < 0x100_0000,
        ensures
            final(self).wf(),
            final(self).spec_roots().len() == old(self).spec_roots().len(),
            final(self).spec_scope_count() == old(self).spec_scope_count(),
            match r {
                Ok(addr) => {
                    &&& final(self).addr_ok(addr)
                    &&& final(self).header_at(addr).spec_type_id() == ty
                    &&& final(self).header_at(addr).spec_is_array()
                    &&& final(self).header_at(addr).spec_size() == ((item_size + 7) / 8 as int) * 8
                    &&& final(self).spec_space()[addr as int / 8] == count
                },
                Err(e) => e == FatalError::AllocationFailed,
            },
    {
        let iw = (item_size + 7) / 8;
        proof {
            assert(iw <= 8);
        }
        let item_rounded = iw * 8;
        proof {
            assert(item_rounded <= 64 && item_rounded * count <= 0x3FFF_FFC0)
                by (nonlinear_arith)
                requires
                    item_rounded == iw * 8,
                    iw <= 8,
                    count < 0x100_0000,
            ;
        }
        let bytes = 8 + item_rounded * count;
        let addr = match self.alloc_raw(bytes, extra_roots) {
            Ok(addr) => addr,
            Err(e) => {
                return Err(e);
            },
        };
        let header = GcMemHeader::new(ty, item_rounded as u64, true);
        let w = (addr / 8) as usize;
        proof {
            assert(w - 1 < self.semi_words() && w < self.semi_words());
        }
        self.space.set(w - 1, header.word());
        self.space.set(w, count as u64);
        Ok(addr)
    }

    /// Reads payload word `offset` of the object at `addr`.
    pub fn get_word(&self, addr: u64, offset: usize) -> (r: u64)
        requires
            self.wf(),
            self.addr_ok(addr),
            addr as int / 8 + offset < self.semi_words(),
        ensures
            r == self.spec_space()[addr as int / 8 + offset],
    {
        self.space[(addr / 8) as usize + offset]
    }

    /// Writes payload word `offset` of the object at `addr`.
    pub fn set_word(&mut self, addr: u64, offset: usize, value: u64)
        requires
            old(self).wf(),
            old(self).addr_ok(addr),
            addr as int / 8 + offset < old(self).semi_words(),
        ensures
            final(self).wf(),
            final(self).spec_space() == old(self).spec_space().update(
                addr as int / 8 + offset, value),
            final(self).used_words() == old(self).used_words(),
            final(self).spec_scope_count() == old(self).spec_scope_count(),
    {
        self.space.set((addr / 8) as usize + offset, value);
    }

    /// Opens a scope for `Local` handles; scopes nest and must be
    /// dropped in creation order.
    pub fn new_local_scope(&mut self) -> (r: LocalScope)
        requires
            old(self).wf(),
        ensures
            final(self).wf(),
            r.index == old(self).spec_scope_count(),
            final(self).spec_scope_count() == old(self).spec_scope_count() + 1,
    {
        let index = self.scopes.len();
        self.scopes.push(LocalScopeData::new());
        LocalScope { index: index }
    }

    /// Closes a scope.  Only the most recent scope may be dropped:
    /// anything else is the `ScopeOrderViolation` fatal.
    pub fn drop_scope(&mut self, scope: LocalScope) -> (r: Result<(), FatalError>)
        requires
            old(self).wf(),
        ensures
            final(self).wf(),
            scope.index + 1 == old(self).spec_scope_count() ==> r is Ok
                && final(self).spec_scope_count() == old(self).spec_scope_count() - 1,
            scope.index + 1 != old(self).spec_scope_count()
                ==> r == Err::<(), FatalError>(FatalError::ScopeOrderViolation)
                    && final(self).spec_scope_count() == old(self).spec_scope_count(),
    {
        let n = self.scopes.len();
        if n == 0 || scope.index != n - 1 {
            return Err(FatalError::ScopeOrderViolation);
        }
        let _ = self.scopes.pop();
        Ok(())
    }

    /// Records `addr` as a local root of the innermost scope; with no
    /// scope open this is the `NoActiveScope` fatal.
    pub fn alloc_local_from_ptr(&mut self, addr: u64) -> (r: Result<Local, FatalError>)
        requires
            old(self).wf(),
        ensures
            final(self).wf(),
            final(self).spec_scope_count() == old(self).spec_scope_count(),
            final(self).spec_space() == old(self).spec_space(),
            final(self).used_words() == old(self).used_words(),
            final(self).semi_words() == old(self).semi_words(),
            final(self).spec_roots() == old(self).spec_roots(),
            old(self).spec_scope_count() == 0
                ==> r == Err::<Local, FatalError>(FatalError::NoActiveScope),
            old(self).spec_scope_count() > 0 ==> match r {
                Ok(l) => {
                    &&& final(self).local_ok(l)
                    &&& final(self).spec_local_target(l) == addr
                    &&& l.scope == old(self).spec_scope_count() - 1
                },
                Err(_) => false,
            },
    {
        let len = self.scopes.len();
        if len == 0 {
            return Err(FatalError::NoActiveScope);
        }
        let scope_index = len - 1;
        let mut data = self.scopes.remove(scope_index);
        let slot = data.add(addr);
        let vec_index = data.handles.len();
        self.scopes.insert(scope_index, data);
        let l = Local {
            scope: scope_index,
            vec: vec_index,
            slot: slot,
        };
        proof {
            assert forall|s: int| 0 <= s < self.spec_scope_count()
                implies (#[trigger] self.scopes@[s]).wf() by {
            }
            assert(self.local_ok(l));
            assert(self.spec_local_target(l) == addr);
        }
        Ok(l)
    }

    /// Allocates an object and records it in the innermost scope: the
    /// handle resolves to a fresh object of the requested type.
    pub fn alloc_local(&mut self, ty: u32, size: usize, extra_roots: &mut Vec<u64>)
        -> (r: Result<Local, FatalError>)
        requires
            old(self).wf(),
            ty < 0x80,
            size < 0x80_0000,
        ensures
            final(self).wf(),
            old(self).spec_scope_count() == 0
                ==> r == Err::<Local, FatalError>(FatalError::NoActiveScope),
            match r {
                Ok(l) => {
                    &&& final(self).local_ok(l)
                    &&& final(self).addr_ok(final(self).spec_local_target(l))
                    &&& final(self).header_at(final(self).spec_local_target(l)).spec_type_id() == ty
                    &&& !final(self).header_at(final(self).spec_local_target(l)).spec_is_array()
                },
                Err(e) => e == FatalError::NoActiveScope || e == FatalError::AllocationFailed,
            },
    {
        if self.scopes.len() == 0 {
            return Err(FatalError::NoActiveScope);
        }
        let addr = match self.alloc_object(ty, size, extra_roots) {
            Ok(addr) => addr,
            Err(e) => {
                return Err(e);
            },
        };
        self.alloc_local_from_ptr(addr)
    }

    /// Allocates an array and records it in the innermost scope: the
    /// handle resolves to a fresh array carrying its element count.
    pub fn alloc_array_local(&mut self, ty: u32, item_size: usize, count: usize,
            extra_roots: &mut Vec<u64>) -> (r: Result<ArrayLocal, FatalError>)
        requires
            old(self).wf(),
            ty < 0x80,
            item_size <= 64,
            count < 0x100_0000,
        ensures
            final(self).wf(),
            old(self).spec_scope_count() == 0
                ==> r == Err::<ArrayLocal, FatalError>(FatalError::NoActiveScope),
            match r {
                Ok(al) => {
                    let l = Local { scope: al.scope, vec: al.vec, slot: al.slot };
                    &&& final(self).local_ok(l)
                    &&& final(self).addr_ok(final(self).spec_local_target(l))
                    &&& final(self).header_at(final(self).spec_local_target(l)).spec_type_id() == ty
                    &&& final(self).header_at(final(self).spec_local_target(l)).spec_is_array()
                    &&& final(self).spec_space()[final(self).spec_local_target(l) as int / 8] == count
                },
                Err(e) => e == FatalError::NoActiveScope || e == FatalError::AllocationFailed,
            },
    {
        if self.scopes.len() == 0 {
            return Err(FatalError::NoActiveScope);
        }
        let addr = match self.alloc_array(ty, item_size, count, extra_roots) {
            Ok(addr) => addr,
            Err(e) => {
                return Err(e);
            },
        };
        match self.alloc_local_from_ptr(addr) {
            Ok(local) => Ok(ArrayLocal { scope: local.scope, vec: local.vec, slot: local.slot }),
            Err(e) => Err(e),
        }
    }

    /// Allocates an object held by a persistent root: the claimed root
    /// slot holds the fresh object's address.
    pub fn alloc_root(&mut self, ty: u32, size: usize, extra_roots: &mut Vec<u64>)
        -> (r: Result<Root, FatalError>)
        requires
            old(self).wf(),
            ty < 0x80,
            size < 0x80_0000,
            old(self).spec_roots().len() < u32::MAX,
        ensures
            final(self).wf(),
            match r {
                Ok(root) => {
                    &&& root.index < final(self).spec_roots().len()
                    &&& final(self).addr_ok(final(self).spec_roots()[root.index as int])
                    &&& final(self).header_at(final(self).spec_roots()[root.index as int])
                        .spec_type_id() == ty
                    &&& !final(self).header_at(final(self).spec_roots()[root.index as int])
                        .spec_is_array()
                },
                Err(e) => e == FatalError::AllocationFailed,
            },
    {
        let addr = match self.alloc_object(ty, size, extra_roots) {
            Ok(addr) => addr,
            Err(e) => {
                return Err(e);
            },
        };
        let index = self.handles.add(addr);
        Ok(Root { index: index })
    }

    /// Allocates an array held by a persistent root: the claimed root
    /// slot holds the fresh array's address.
    pub fn alloc_array_root(&mut self, ty: u32, item_size: usize, count: usize,
            extra_roots: &mut Vec<u64>) -> (r: Result<ArrayRoot, FatalError>)
        requires
            old(self).wf(),
            ty < 0x80,
            item_size <= 64,
            count < 0x100_0000,
            old(self).spec_roots().len() < u32::MAX,
        ensures
            final(self).wf(),
            match r {
                Ok(root) => {
                    &&& root.index < final(self).spec_roots().len()
                    &&& final(self).addr_ok(final(self).spec_roots()[root.index as int])
                    &&& final(self).header_at(final(self).spec_roots()[root.index as int])
                        .spec_type_id() == ty
                    &&& final(self).header_at(final(self).spec_roots()[root.index as int])
                        .spec_is_array()
                },
                Err(e) => e == FatalError::AllocationFailed,
            },
    {
        let addr = match self.alloc_array(ty, item_size, count, extra_roots) {
            Ok(addr) => addr,
            Err(e) => {
                return Err(e);
            },
        };
        let index = self.handles.add(addr);
        Ok(ArrayRoot { index: index })
    }

    /// The address a root points at; a released or unknown slot is the
    /// `InvalidRoot` fatal.
    pub fn root_target(&self, root: Root) -> (r: Result<u64, FatalError>)
        requires
            self.wf(),
        ensures
            root.index < self.spec_roots().len() && self.spec_roots()[root.index as int] != 0
                ==> r == Ok::<u64, FatalError>(self.spec_roots()[root.index as int]),
            root.index >= self.spec_roots().len()
                || self.spec_roots()[root.index as int] == 0
                ==> r == Err::<u64, FatalError>(FatalError::InvalidRoot),
    {
        match self.handles.get_target(root.index) {
            Ok(addr) => {
                if addr == 0 {
                    Err(FatalError::InvalidRoot)
                } else {
                    Ok(addr)
                }
            },
            Err(e) => Err(e),
        }
    }

    /// The address a local handle points at; a handle naming no slot is
    /// the `InvalidRoot` fatal.
    pub fn local_target(&self, local: Local) -> (r: Result<u64, FatalError>)
        requires
            self.wf(),
        ensures
            self.local_ok(local)
                ==> r == Ok::<u64, FatalError>(self.spec_local_target(local)),
            !self.local_ok(local)
                ==> r == Err::<u64, FatalError>(FatalError::InvalidRoot),
    {
        if local.scope < self.scopes.len() {
            let data = &self.scopes[local.scope];
            if local.vec < data.handles.len() {
                let v = &data.handles[local.vec];
                if local.slot < v.len() {
                    return Ok(v[local.slot]);
                }
            } else if local.vec == data.handles.len() {
                if local.slot < data.current.len() {
                    return Ok(data.current[local.slot]);
                }
            }
        }
        Err(FatalError::InvalidRoot)
    }

    /// Releases a persistent root: the slot returns to the free list
    /// and is nulled, so the collector skips it.
    pub fn release_root(&mut self, root: Root) -> (r: Result<(), FatalError>)
        requires
            old(self).wf(),
        ensures
            final(self).wf(),
            root.index < old(self).spec_roots().len()
                && old(self).spec_roots()[root.index as int] != 0
                ==> r is Ok
                    && final(self).spec_roots()
                        == old(self).spec_roots().update(root.index as int, 0),
            root.index >= old(self).spec_roots().len()
                || (root.index < old(self).spec_roots().len()
                    && old(self).spec_roots()[root.index as int] == 0)
                ==> r == Err::<(), FatalError>(FatalError::InvalidRoot),
    {
        if root.index as usize >= self.handles.ptrs.len() {
            return Err(FatalError::InvalidRoot);
        }
        if self.handles.ptrs[root.index as usize] == 0 {
            return Err(FatalError::InvalidRoot);
        }
        let _ = self.handles.remove(root.index);
        Ok(())
    }

    /// A fresh root aimed at the same object: the new slot takes the
    /// old slot's target, and no other slot moves.
    pub fn clone_root(&mut self, root: Root) -> (r: Result<Root, FatalError>)
        requires
            old(self).wf(),
            old(self).spec_roots().len() < u32::MAX,
        ensures
            final(self).wf(),
            root.index >= old(self).spec_roots().len()
                ==> r == Err::<Root, FatalError>(FatalError::InvalidRoot),
            root.index < old(self).spec_roots().len() ==> match r {
                Ok(fresh) => {
                    &&& fresh.index < final(self).spec_roots().len()
                    &&& final(self).spec_roots()[fresh.index as int]
                        == old(self).spec_roots()[root.index as int]
                    &&& forall|i: int| 0 <= i < old(self).spec_roots().len()
                        && i != fresh.index
                        ==> final(self).spec_roots()[i] == old(self).spec_roots()[i]
                },
                Err(_) => false,
            },
    {
        if root.index as usize >= self.handles.ptrs.len() {
            return Err(FatalError::InvalidRoot);
        }
        let index = self.handles.clone_root(root.index);
        Ok(Root { index: index })
    }

    /// Promotes a local handle to a persistent root: the new root slot
    /// takes the local's target, and no other slot moves.
    pub fn alloc_root_from_local(&mut self, local: Local) -> (r: Result<Root, FatalError>)
        requires
            old(self).wf(),
            old(self).spec_roots().len() < u32::MAX,
        ensures
            final(self).wf(),
            !old(self).local_ok(local)
                ==> r == Err::<Root, FatalError>(FatalError::InvalidRoot),
            old(self).local_ok(local) ==> match r {
                Ok(root) => {
                    &&& root.index < final(self).spec_roots().len()
                    &&& final(self).spec_roots()[root.index as int]
                        == old(self).spec_local_target(local)
                    &&& forall|i: int| 0 <= i < old(self).spec_roots().len()
                        && i != root.index
                        ==> final(self).spec_roots()[i] == old(self).spec_roots()[i]
                },
                Err(_) => false,
            },
    {
        let addr = match self.local_target(local) {
            Ok(addr) => addr,
            Err(e) => {
                return Err(e);
            },
        };
        let index = self.handles.add(addr);
        Ok(Root { index: index })
    }

    /// The startup layout check from the first payload word.
    pub fn validate_walker_field(&self, ty: u32, addr: u64, expect_pointer: bool)
        -> (r: Result<u32, FatalError>)
        requires
            self.wf(),
            self.addr_ok(addr),
        ensures
            r is Err ==> r == Err::<u32, FatalError>(FatalError::WalkerMismatch),
            match r {
                Ok(i) => self.spec_walker().pointer_word(ty, i as nat) == expect_pointer,
                Err(_) => true,
            },
    {
        self.validate_walker_field_at(ty, addr, expect_pointer, 0)
    }

    /// The startup layout check of the walker's claims against an
    /// actual object: scan the payload from word `index` for the first
    /// word that really holds something, and compare the walker's claim
    /// there with the expectation.  A disagreement — or a field that
    /// never materializes — is the `WalkerMismatch` fatal.
    pub fn validate_walker_field_at(&self, ty: u32, addr: u64, expect_pointer: bool, index: u32)
        -> (r: Result<u32, FatalError>)
        requires
            self.wf(),
            self.addr_ok(addr),
        ensures
            match r {
                Ok(i) => {
                    &&& index <= i
                    &&& addr as int / 8 + i < self.semi_words()
                    &&& self.spec_space()[addr as int / 8 + i] != 0
                    &&& forall|k: int| index <= k < i
                        ==> #[trigger] self.spec_space()[addr as int / 8 + k] == 0
                    &&& self.spec_walker().pointer_word(ty, i as nat) == expect_pointer
                },
                Err(e) => {
                    &&& e == FatalError::WalkerMismatch
                    &&& (exists|i: int| index <= i && addr as int / 8 + i < self.semi_words()
                            && #[trigger] self.spec_space()[addr as int / 8 + i] != 0
                            && (forall|k: int| index <= k < i
                                ==> #[trigger] self.spec_space()[addr as int / 8 + k] == 0)
                            && self.spec_walker().pointer_word(ty, i as nat) != expect_pointer)
                        || (forall|k: int| index <= k && addr as int / 8 + k < self.semi_words()
                            ==> #[trigger] self.spec_space()[addr as int / 8 + k] == 0)
                },
            },
    {
        let base = (addr / 8) as usize;
        let room = self.space.len() - base;
        let mut k: u32 = index;
        while (k as usize) < room
            invariant
                self.wf(),
                self.addr_ok(addr),
                base == addr as int / 8,
                room == self.semi_words() - base,
                index <= k,
                forall|j: int| index <= j < k
                    ==> #[trigger] self.spec_space()[addr as int / 8 + j] == 0,
            decreases room - k,
        {
            let word = self.space[base + (k as usize)];
            if word != 0 {
                let claim = self.walker.walk(ty, k);
                let is_pointer = match claim {
                    GcWalk::Pointer => true,
                    _ => false,
                };
                if is_pointer == expect_pointer {
                    return Ok(k);
                } else {
                    proof {
                        assert(index <= k as int && addr as int / 8 + k < self.semi_words()
                            && self.spec_space()[addr as int / 8 + k] != 0
                            && self.spec_walker().pointer_word(ty, k as nat) != expect_pointer);
                    }
                    return Err(FatalError::WalkerMismatch);
                }
            }
            k += 1;
        }
        Err(FatalError::WalkerMismatch)
    }

    /// Collects: copies every live object into a fresh semispace,
    /// updates every root slot, rewrites pointer words as the walker
    /// directs, finalizes what was left behind, and grows the heap by
    /// the configured factor when survivors crowd it.
    pub fn gc(&mut self, extra_roots: &mut Vec<u64>)
        requires
            old(self).wf(),
        ensures
            final(self).wf(),
            final(self).used_words() <= old(self).used_words(),
            final(self).semi_words() >= old(self).semi_words(),
            final(self).spec_scope_count() == old(self).spec_scope_count(),
            final(self).spec_roots().len() == old(self).spec_roots().len(),
            // a root slot is rewritten, never nulled or conjured
            forall|j: int| 0 <= j < old(self).spec_roots().len()
                ==> ((final(self).spec_roots()[j] == 0) == (old(self).spec_roots()[j] == 0)),
            // with no root anywhere, everything is reclaimed
            (forall|j: int| 0 <= j < old(self).spec_roots().len()
                ==> old(self).spec_roots()[j] == 0)
                && old(self).spec_scope_count() == 0
                && old(extra_roots)@.len() == 0
                ==> final(self).used_words() == 1,
    {
        let ghost rootless = (forall|j: int| 0 <= j < old(self).spec_roots().len()
            ==> old(self).spec_roots()[j] == 0)
            && old(self).spec_scope_count() == 0
            && old(extra_roots)@.len() == 0;
        let old_used = self.used;
        let mut from: Vec<u64> = zero_words(0);
        core::mem::swap(&mut from, &mut self.space);
        let semi = from.len();
        let mut to = zero_words(semi);
        let mut alloc_w: usize = 1;
        // phase 1: forward every root family
        let mut i: usize = 0;
        while i < self.handles.ptrs.len()
            invariant
                1 <= alloc_w <= to@.len(),
                to@.len() == semi,
                from@.len() == semi,
                semi <= 0x0FFF_FFFF,
                old_used <= semi,
                alloc_w <= old_used,
                self.handles.wf(),
                self.handles.view().len() == old(self).spec_roots().len(),
                forall|x: int| 0 <= x < self.scopes@.len()
                    ==> (#[trigger] self.scopes@[x]).wf(),
                self.scopes@.len() == old(self).spec_scope_count(),
                i <= self.handles.view().len(),
                forall|j: int| i <= j < self.handles.view().len()
                    ==> self.handles.view()[j] == old(self).spec_roots()[j],
                forall|j: int| 0 <= j < i
                    ==> ((self.handles.view()[j] == 0) == (old(self).spec_roots()[j] == 0)),
                rootless ==> alloc_w == 1,
                rootless ==> ((forall|j: int| 0 <= j < old(self).spec_roots().len()
                    ==> old(self).spec_roots()[j] == 0)
                    && old(self).spec_scope_count() == 0
                    && old(extra_roots)@.len() == 0),
            decreases self.handles.ptrs.len() - i,
        {
            let v = self.handles.ptrs[i];
            proof {
                if rootless {
                    assert(old(self).spec_roots()[i as int] == 0);
                    assert(self.handles.view()[i as int] == old(self).spec_roots()[i as int]);
                    assert(v == 0);
                }
            }
            if v != 0 {
                let ghost hpre = self.handles;
                let nv = forward_object(&mut from, &mut to, &mut alloc_w, old_used, v);
                self.handles.ptrs.set(i, nv);
                proof {
                    assert(self.handles.wf()) by {
                        assert forall|j: int| 0 <= j < self.handles.free_list().len()
                            implies (#[trigger] self.handles.free_list()[j])
                                < self.handles.view().len()
                                && self.handles.view()[self.handles.free_list()[j] as int]
                                    == 0 by {
                            assert(hpre.free_list()[j] == self.handles.free_list()[j]);
                            assert(hpre.view()[hpre.free_list()[j] as int] == 0);
                            assert(hpre.view()[i as int] == v && v != 0);
                            assert(hpre.free_list()[j] != i);
                        }
                        assert forall|x: int, y: int|
                            0 <= x < y < self.handles.free_list().len()
                            implies self.handles.free_list()[x]
                                != self.handles.free_list()[y] by {
                            assert(hpre.free_list()[x] == self.handles.free_list()[x]);
                            assert(hpre.free_list()[y] == self.handles.free_list()[y]);
                        }
                    }
                }
            }
            i += 1;
        }
        let mut s: usize = 0;
        while s < self.scopes.len()
            invariant
                1 <= alloc_w <= to@.len(),
                to@.len() == semi,
                from@.len() == semi,
                semi <= 0x0FFF_FFFF,
                old_used <= semi,
                alloc_w <= old_used,
                self.handles.wf(),
                self.handles.view().len() == old(self).spec_roots().len(),
                forall|x: int| 0 <= x < self.scopes@.len()
                    ==> (#[trigger] self.scopes@[x]).wf(),
                self.scopes@.len() == old(self).spec_scope_count(),
                forall|j: int| 0 <= j < self.handles.view().len()
                    ==> ((self.handles.view()[j] == 0) == (old(self).spec_roots()[j] == 0)),
                rootless ==> alloc_w == 1,
                rootless ==> ((forall|j: int| 0 <= j < old(self).spec_roots().len()
                    ==> old(self).spec_roots()[j] == 0)
                    && old(self).spec_scope_count() == 0
                    && old(extra_roots)@.len() == 0),
            decreases self.scopes.len() - s,
        {
            proof {
                if rootless {
                    assert(self.scopes@.len() == 0);
                    assert(false);
                }
            }
            let mut data = self.scopes.remove(s);
            let mut v: usize = 0;
            while v < data.current.len()
                invariant
                    1 <= alloc_w <= to@.len(),
                    to@.len() == semi,
                    from@.len() == semi,
                    semi <= 0x0FFF_FFFF,
                    old_used <= semi,
                    alloc_w <= old_used,
                    data.wf(),
                decreases data.current.len() - v,
            {
                let ptr = data.current[v];
                if ptr != 0 {
                    let np = forward_object(&mut from, &mut to, &mut alloc_w, old_used, ptr);
                    data.current.set(v, np);
                }
                v += 1;
            }
            let mut hvi: usize = 0;
            while hvi < data.handles.len()
                invariant
                    1 <= alloc_w <= to@.len(),
                    to@.len() == semi,
                    from@.len() == semi,
                    semi <= 0x0FFF_FFFF,
                    old_used <= semi,
                    alloc_w <= old_used,
                    data.wf(),
                decreases data.handles.len() - hvi,
            {
                let mut hv = data.handles.remove(hvi);
                let mut v2: usize = 0;
                while v2 < hv.len()
                    invariant
                        1 <= alloc_w <= to@.len(),
                        to@.len() == semi,
                        from@.len() == semi,
                        semi <= 0x0FFF_FFFF,
                        old_used <= semi,
                        alloc_w <= old_used,
                    decreases hv.len() - v2,
                {
                    let ptr = hv[v2];
                    if ptr != 0 {
                        let np = forward_object(&mut from, &mut to, &mut alloc_w, old_used, ptr);
                        hv.set(v2, np);
                    }
                    v2 += 1;
                }
                data.handles.insert(hvi, hv);
                hvi += 1;
            }
            self.scopes.insert(s, data);
            s += 1;
        }
        let mut e: usize = 0;
        while e < extra_roots.len()
            invariant
                1 <= alloc_w <= to@.len(),
                to@.len() == semi,
                from@.len() == semi,
                semi <= 0x0FFF_FFFF,
                old_used <= semi,
                alloc_w <= old_used,
                self.handles.wf(),
                self.handles.view().len() == old(self).spec_roots().len(),
                forall|x: int| 0 <= x < self.scopes@.len()
                    ==> (#[trigger] self.scopes@[x]).wf(),
                self.scopes@.len() == old(self).spec_scope_count(),
                forall|j: int| 0 <= j < self.handles.view().len()
                    ==> ((self.handles.view()[j] == 0) == (old(self).spec_roots()[j] == 0)),
                rootless ==> alloc_w == 1,
                extra_roots@.len() == old(extra_roots)@.len(),
                rootless ==> ((forall|j: int| 0 <= j < old(self).spec_roots().len()
                    ==> old(self).spec_roots()[j] == 0)
                    && old(self).spec_scope_count() == 0
                    && old(extra_roots)@.len() == 0),
            decreases extra_roots.len() - e,
        {
            proof {
                if rootless {
                    assert(extra_roots@.len() == 0);
                    assert(false);
                }
            }
            let ptr = extra_roots[e];
            if ptr != 0 {
                let np = forward_object(&mut from, &mut to, &mut alloc_w, old_used, ptr);
                extra_roots.set(e, np);
            }
            e += 1;
        }
        // phase 2: breadth-first scan of the copied objects
        let mut scan_w: usize = 1;
        while scan_w < alloc_w
            invariant
                1 <= scan_w <= alloc_w,
                1 <= alloc_w <= to@.len(),
                to@.len() == semi,
                from@.len() == semi,
                semi <= 0x0FFF_FFFF,
                old_used <= semi,
                alloc_w <= old_used,
                self.handles.wf(),
                self.handles.view().len() == old(self).spec_roots().len(),
                forall|x: int| 0 <= x < self.scopes@.len()
                    ==> (#[trigger] self.scopes@[x]).wf(),
                self.scopes@.len() == old(self).spec_scope_count(),
                forall|j: int| 0 <= j < self.handles.view().len()
                    ==> ((self.handles.view()[j] == 0) == (old(self).spec_roots()[j] == 0)),
                rootless ==> alloc_w == 1,
            decreases to@.len() - scan_w,
        {
            let header = GcMemHeader::from_word(to[scan_w]);
            let ty = header.get_type_id();
            let words = object_words(&to, scan_w, semi);
            if header.is_array() {
                let item_words = (header.get_size() / 8) as usize;
                let count_raw = if scan_w + 1 < to.len() { to[scan_w + 1] } else { 0 };
                let count: usize = if count_raw > semi as u64 { semi } else { count_raw as usize };
                if item_words > 0 {
                    let mut el: usize = 0;
                    let mut stop = false;
                    while el < count && !stop
                        invariant
                            1 <= alloc_w <= to@.len(),
                            to@.len() == semi,
                            from@.len() == semi,
                            semi <= 0x0FFF_FFFF,
                            old_used <= semi,
                            alloc_w <= old_used,
                            count <= semi,
                            scan_w <= semi,
                            scan_w < alloc_w,
                            1 <= item_words < 0x100_0000,
                        decreases count - el,
                    {
                        proof {
                            assert((el as u64) * (item_words as u64) < 0x10_0000_0000_0000)
                                by (nonlinear_arith)
                                requires
                                    el < 0x1000_0000,
                                    item_words < 0x100_0000,
                            ;
                        }
                        let base64: u64 = scan_w as u64 + 2 + (el as u64) * (item_words as u64);
                        let base: usize = if base64 > semi as u64 { semi } else { base64 as usize };
                        let mut wi: usize = 0;
                        while wi < item_words && !stop
                            invariant
                                1 <= alloc_w <= to@.len(),
                                to@.len() == semi,
                                from@.len() == semi,
                                semi <= 0x0FFF_FFFF,
                                old_used <= semi,
                                alloc_w <= old_used,
                                base <= semi,
                                scan_w < alloc_w,
                                item_words < 0x100_0000,
                            decreases item_words - wi,
                        {
                            match self.walker.walk(ty, wi as u32) {
                                GcWalk::Pointer => {
                                    if base + wi < to.len() {
                                        let ptr = to[base + wi];
                                        if ptr != 0 {
                                            let np = forward_object(
                                                &mut from, &mut to, &mut alloc_w,
                                                old_used, ptr);
                                            to.set(base + wi, np);
                                        }
                                    }
                                },
                                GcWalk::Skip => {},
                                GcWalk::End => {},
                                GcWalk::EndArray => {
                                    stop = true;
                                },
                            }
                            wi += 1;
                        }
                        el += 1;
                    }
                }
            } else {
                let payload_words = (header.get_size() / 8) as usize;
                let mut wi: usize = 0;
                let mut stop = false;
                while wi < payload_words && !stop
                    invariant
                        1 <= alloc_w <= to@.len(),
                        to@.len() == semi,
                        from@.len() == semi,
                        semi <= 0x0FFF_FFFF,
                        old_used <= semi,
                        alloc_w <= old_used,
                        scan_w <= semi,
                        scan_w < alloc_w,
                        payload_words < 0x100_0000,
                    decreases payload_words - wi,
                {
                    match self.walker.walk(ty, wi as u32) {
                        GcWalk::Pointer => {
                            if scan_w + 1 + wi < to.len() {
                                let ptr = to[scan_w + 1 + wi];
                                if ptr != 0 {
                                    let np = forward_object(
                                        &mut from, &mut to, &mut alloc_w, old_used, ptr);
                                    to.set(scan_w + 1 + wi, np);
                                }
                            }
                        },
                        GcWalk::Skip => {},
                        GcWalk::End | GcWalk::EndArray => {
                            stop = true;
                        },
                    }
                    wi += 1;
                }
            }
            scan_w = if scan_w + words >= alloc_w { alloc_w } else { scan_w + words };
        }
        // phase 3: finalize what stayed behind
        let mut fw: usize = 1;
        while fw < old_used
            invariant
                1 <= fw,
                from@.len() == semi,
                semi <= 0x0FFF_FFFF,
                old_used <= semi,
                self.handles.wf(),
                self.handles.view().len() == old(self).spec_roots().len(),
                forall|x: int| 0 <= x < self.scopes@.len()
                    ==> (#[trigger] self.scopes@[x]).wf(),
                self.scopes@.len() == old(self).spec_scope_count(),
                forall|j: int| 0 <= j < self.handles.view().len()
                    ==> ((self.handles.view()[j] == 0) == (old(self).spec_roots()[j] == 0)),
                rootless ==> alloc_w == 1,
            decreases old_used - fw,
        {
            let h = from[fw];
            let header_word = if h >= FORWARD_TAG { h % 0x1_0000_0000 } else { h };
            let header = GcMemHeader::from_word(header_word);
            let words = object_words_from(&from, fw, header_word, semi);
            if h < FORWARD_TAG {
                let ty = header.get_type_id();
                let this_addr = ((fw + 1) * 8) as u64;
                if header.is_array() {
                    let count_raw = if fw + 1 < semi { from[fw + 1] } else { 0 };
                    let count: usize = if count_raw > semi as u64 { semi }
                        else { count_raw as usize };
                    let mut el: usize = 0;
                    let mut go = true;
                    while el < count && go
                        invariant
                            from@.len() == semi,
                            count <= semi,
                            semi <= 0x0FFF_FFFF,
                            forall|x: int| 0 <= x < self.scopes@.len()
                                ==> (#[trigger] self.scopes@[x]).wf(),
                            self.handles.wf(),
                            self.handles.view().len() == old(self).spec_roots().len(),
                            self.scopes@.len() == old(self).spec_scope_count(),
                            forall|j: int| 0 <= j < self.handles.view().len()
                                ==> ((self.handles.view()[j] == 0)
                                    == (old(self).spec_roots()[j] == 0)),
                        decreases count - el,
                    {
                        match self.walker.finalize(ty, this_addr) {
                            GcFinalize::Finalized => {},
                            GcFinalize::NotFinalizable => {
                                go = false;
                            },
                        }
                        el += 1;
                    }
                } else {
                    let _ = self.walker.finalize(ty, this_addr);
                }
            }
            fw = if fw + words >= old_used { old_used } else { fw + words };
        }
        // grow the fresh space if survivors crowd it, then install it
        let survivors = alloc_w as u64;
        let semi64 = semi as u64;
        let factor: u64 = if survivors * 100 > semi64 * 85 {
            self.fast_growth_percent as u64
        } else if survivors * 100 > semi64 * 50 {
            self.slow_growth_percent as u64
        } else {
            100
        };
        if factor > 100 {
            proof {
                assert(semi64 * factor < 0x1_0000_0000_0000_0000) by (nonlinear_arith)
                    requires
                        semi64 <= 0x0FFF_FFFF,
                        factor < 0x1_0000_0000,
                ;
            }
            let target64 = semi64 * factor / 100;
            let target = if target64 > 0x0FFF_FFFF { 0x0FFF_FFFF } else { target64 as usize };
            while to.len() < target
                invariant
                    target <= 0x0FFF_FFFF,
                    to@.len() <= 0x0FFF_FFFF,
                    alloc_w <= to@.len(),
                    semi <= to@.len(),
                decreases target - to@.len(),
            {
                to.push(0);
            }
        }
        self.space = to;
        self.used = alloc_w;
        proof {
            assert(semi >= 16);
            assert(self.wf()) by {
                assert(1 <= self.used_words() <= self.semi_words());
                assert(16 <= self.semi_words() <= 0x0FFF_FFFF);
            }
        }
    }
}

/// The payload address handed out for a bump at `u` words.
proof fn lemma_payload_addr(u: int, addr: u64)
    by (nonlinear_arith)
    requires
        1 <= u < 0x1000_0000,
        addr == (u + 1) * 8,
    ensures
        addr % 8 == 0,
        addr >= 16,
        addr as int / 8 == u + 1,
        2 <= addr as int / 8,
{
}

/// A vector of `n` zero words.
fn zero_words(n: usize) -> (r: Vec<u64>)
    ensures
        r@.len() == n,
        forall|i: int| 0 <= i < n ==> r@[i] == 0,
{
    let mut v: Vec<u64> = Vec::new();
    let mut i: usize = 0;
    while i < n
        invariant
            i <= n,
            v@.len() == i,
            forall|j: int| 0 <= j < i ==> v@[j] == 0,
        decreases n - i,
    {
        v.push(0);
        i += 1;
    }
    v
}

/// How many words the object headed at `w` occupies (header included),
/// clamped to the space.
fn object_words(space: &Vec<u64>, w: usize, semi: usize) -> (r: usize)
    requires
        w < space@.len(),
        space@.len() == semi,
        1 <= semi <= 0x0FFF_FFFF,
    ensures
        1 <= r <= semi,
{
    let header_word = space[w];
    object_words_from(space, w, header_word, semi)
}

/// Word footprint from an explicit header word.
fn object_words_from(space: &Vec<u64>, w: usize, header_word: u64, semi: usize) -> (r: usize)
    requires
        space@.len() == semi,
        w < semi,
        1 <= semi <= 0x0FFF_FFFF,
    ensures
        1 <= r <= semi,
{
    let header = GcMemHeader::from_word(header_word);
    let size64 = header.get_size();
    proof {
        assert(((header_word >> 8) & 0xFF_FFFF) / 8 < 0x100_0000) by (bit_vector);
    }
    let size_words = (size64 / 8) as usize;
    if header.is_array() {
        let count64raw: u64 = if w + 1 < semi { space[w + 1] } else { 0 };
        let count64: u64 = if count64raw > semi as u64 { semi as u64 } else { count64raw };
        proof {
            assert(2 + (size_words as u64) * count64 < 0x1_0000_0000_0000_0000)
                by (nonlinear_arith)
                requires
                    size_words < 0x100_0000,
                    count64 <= 0x0FFF_FFFF,
            ;
        }
        let total64 = 2u64 + (size_words as u64) * count64;
        if total64 > semi as u64 {
            semi
        } else {
            total64 as usize
        }
    } else {
        let total = 1 + size_words;
        if total > semi {
            semi
        } else {
            total
        }
    }
}

/// Copies the object behind `addr` into the to-space if it has not
/// moved yet, leaves a forwarding word, and returns the new address.
/// A malformed address comes back unchanged.
fn forward_object(from: &mut Vec<u64>, to: &mut Vec<u64>, alloc_w: &mut usize,
        old_used: usize, addr: u64) -> (r: u64)
    requires
        old(from)@.len() == old(to)@.len(),
        old_used <= old(from)@.len(),
        1 <= *old(alloc_w) <= old_used,
        old(from)@.len() <= 0x0FFF_FFFF,
    ensures
        final(from)@.len() == old(from)@.len(),
        final(to)@.len() == old(to)@.len(),
        1 <= *final(alloc_w) <= old_used,
        *final(alloc_w) >= *old(alloc_w),
        addr != 0 ==> r != 0,
{
    let semi = from.len();
    if addr == 0 || addr % 8 != 0 {
        return addr;
    }
    let addr8 = addr / 8;
    if addr8 < 2 || addr8 > old_used as u64 || addr8 > 0x0FFF_FFFF {
        return addr;
    }
    let w = addr8 as usize;
    let h = from[w - 1];
    if h >= FORWARD_TAG {
        // already moved: the new address travels in the upper half
        let t = (h / 0x1_0000_0000) % 0x8000_0000;
        return if t == 0 { addr } else { t };
    }
    let words = object_words_from(from, w - 1, h, semi);
    if words == 0 {
        return addr;
    }
    // the survivors never outgrow what was allocated
    if *alloc_w + words > old_used || w - 1 + words > semi {
        return addr;
    }
    proof {
        assert(((*alloc_w) + 1) * 8 <= 0x8000_0000) by (nonlinear_arith)
            requires
                *alloc_w < 0x1000_0000,
        ;
    }
    let new_addr = (((*alloc_w) + 1) * 8) as u64;
    let mut k: usize = 0;
    while k < words
        invariant
            from@.len() == semi,
            to@.len() == semi,
            *alloc_w + words <= old_used,
            old_used <= semi,
            2 <= w,
            w - 1 + words <= semi,
            k <= words,
            1 <= *alloc_w,
        decreases words - k,
    {
        let word = from[w - 1 + k];
        to.set(*alloc_w + k, word);
        k += 1;
    }
    // plant the forwarding word: tag, new address, original header
    proof {
        assert((new_addr % 0x8000_0000) * 0x1_0000_0000 < 0x8000_0000_0000_0000)
            by (nonlinear_arith)
            requires
                new_addr % 0x8000_0000 < 0x8000_0000,
        ;
    }
    let fwd = FORWARD_TAG | ((new_addr % 0x8000_0000) * 0x1_0000_0000) | (h % 0x1_0000_0000);
    from.set(w - 1, fwd);
    *alloc_w = *alloc_w + words;
    new_addr
}

/// A walker for heaps whose objects hold no pointers at all.
pub struct NoPointerWalker;

impl GcWalker for NoPointerWalker {
    closed spec fn pointer_word(&self, ty: u32, index: nat) -> bool {
        false
    }

    fn walk(&self, ty: u32, index: u32) -> (r: GcWalk) {
        GcWalk::EndArray
    }

    fn finalize(&mut self, ty: u32, addr: u64) -> (r: GcFinalize) {
        GcFinalize::NotFinalizable
    }
}

/// A walker for heaps whose objects hold only pointers.
pub struct AllPointerWalker;

impl GcWalker for AllPointerWalker {
    closed spec fn pointer_word(&self, ty: u32, index: nat) -> bool {
        true
    }

    fn walk(&self, ty: u32, index: u32) -> (r: GcWalk) {
        GcWalk::Pointer
    }

    fn finalize(&mut self, ty: u32, addr: u64) -> (r: GcFinalize) {
        GcFinalize::NotFinalizable
    }
}

} // verus!
