//! Interned property names.
//!
//! A `Name` is a single integer.  Values below `u32::MAX` are *index
//! names*: the name of an array-index property, carrying the index
//! itself.  Values from `STRING_ID_BASE` upward are ids handed out by the
//! interner, one per distinct string.  Valid ECMAScript array indices run
//! up to `2^32 - 2`, so every one of them fits an index name; the first
//! name past that boundary must be interned as a string.

use vstd::prelude::*;

verus! {

/// First name value used for interned strings; everything below
/// `u32::MAX` is an index name.
pub const STRING_ID_BASE: u64 = 0x1_0000_0000;

/// An interned property name.
#[derive(Copy, Clone, PartialEq, Eq, Structural, Hash, Debug)]
pub struct Name(pub u64);

impl Name {
    /// The raw integer behind the name.
    pub fn value(&self) -> (r: u64)
        ensures
            r == self.0,
    {
        self.0
    }

    /// The name of the array-index property `index`.
    ///
    /// `u32::MAX` is not a valid array index, so it has no index name.
    pub fn from_index(index: u32) -> (r: Name)
        requires
            index != u32::MAX,
        ensures
            r == Name(index as u64),
    {
        Name(index as u64)
    }

    /// True of index names.
    pub fn is_index(&self) -> (r: bool)
        ensures
            r == (self.0 < u32::MAX),
    {
        self.0 < 0xFFFF_FFFF
    }

    /// The array index behind an index name.
    pub fn index(&self) -> (r: Option<u32>)
        ensures
            self.0 < u32::MAX ==> r == Some(self.0 as u32),
            self.0 >= u32::MAX ==> r is None,
    {
        if self.0 < 0xFFFF_FFFF {
            Some(self.0 as u32)
        } else {
            None
        }
    }
}

/// The string interner: the same text always yields the same `Name`.
pub struct Interner {
    strings: Vec<String>,
}

impl Interner {
    /// The interned strings, in the order their ids were handed out.
    pub closed spec fn view(&self) -> Seq<Seq<char>> {
        self.strings@.map(|i: int, s: String| s@)
    }

    /// The name assigned to the string with intern id `i`.
    pub open spec fn name_of_id(i: int) -> Name {
        Name((STRING_ID_BASE + i) as u64)
    }

    /// Whether `n` is a string name this interner has handed out.
    pub open spec fn owns(&self, n: Name) -> bool {
        STRING_ID_BASE <= n.0 < STRING_ID_BASE + self.view().len()
    }

    /// The text behind a string name of this interner.
    pub open spec fn text_of(&self, n: Name) -> Seq<char> {
        self.view()[n.0 - STRING_ID_BASE]
    }

    /// All interned strings are distinct, so interning is injective.
    pub open spec fn wf(&self) -> bool {
        forall|i: int, j: int|
            0 <= i < j < self.view().len() ==> self.view()[i] !== self.view()[j]
    }

    /// An interner with no strings yet.
    pub fn new() -> (r: Interner)
        ensures
            r.view() =~= Seq::<Seq<char>>::empty(),
            r.wf(),
    {
        Interner { strings: Vec::new() }
    }

    /// How many strings have been interned.
    pub fn len(&self) -> (r: usize)
        ensures
            r == self.view().len(),
    {
        self.strings.len()
    }

    /// The name for `text`, interning it if it is new.
    pub fn intern(&mut self, text: &str) -> (r: Name)
        requires
            old(self).wf(),
            old(self).view().len() + STRING_ID_BASE < u64::MAX,
        ensures
            final(self).wf(),
            final(self).owns(r),
            final(self).text_of(r) == text@,
            // an already-interned string keeps its id; a new one is appended
            (exists|i: int| 0 <= i < old(self).view().len() && old(self).view()[i] == text@)
                ==> final(self).view() == old(self).view(),
            !(exists|i: int| 0 <= i < old(self).view().len() && old(self).view()[i] == text@)
                ==> final(self).view() =~= old(self).view().push(text@),
            // every name the old interner owned keeps its text
            forall|n: Name| old(self).owns(n)
                ==> final(self).owns(n) && #[trigger] final(self).text_of(n) == old(self).text_of(n),
    {
        let owned: String = text.to_owned();
        let mut i: usize = 0;
        while i < self.strings.len()
            invariant
                i <= self.strings.len(),
                self == old(self),
                self.wf(),
                self.strings@.len() + STRING_ID_BASE < u64::MAX,
                owned@ == text@,
                forall|j: int| 0 <= j < i ==> self.view()[j] !== text@,
            decreases self.strings.len() - i,
        {
            if self.strings[i] == owned {
                assert(old(self).view()[i as int] == text@);
                return Name(0x1_0000_0000u64 + i as u64);
            }
            i += 1;
        }
        let id = self.strings.len();
        self.strings.push(owned);
        assert(self.view() =~= old(self).view().push(text@));
        Name(0x1_0000_0000u64 + id as u64)
    }
}

} // verus!
