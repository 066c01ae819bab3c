//! Runtime strings: UTF-16 code unit arrays.

use vstd::prelude::*;

verus! {

/// The UTF-16 encoding of a sequence of Unicode scalar values: one code
/// unit below 0x10000, a surrogate pair beyond.
pub open spec fn utf16_of(chars: Seq<char>) -> Seq<u16>
    decreases chars.len(),
{
    if chars.len() == 0 {
        Seq::empty()
    } else {
        let c = chars[0] as u32;
        let head: Seq<u16> = if c < 0x1_0000 {
            seq![c as u16]
        } else {
            seq![
                (0xD800 + ((c - 0x1_0000) / 0x400)) as u16,
                (0xDC00 + ((c - 0x1_0000) % 0x400)) as u16,
            ]
        };
        head + utf16_of(chars.drop_first())
    }
}

/// A runtime string: its UTF-16 code units.
pub struct JsString {
    chars: Vec<u16>,
}

impl JsString {
    /// The code units.
    pub closed spec fn view(&self) -> Seq<u16> {
        self.chars@
    }

    /// Encodes a Rust string: UTF-32 to UTF-16, surrogate pairs for the
    /// supplementary planes.
    pub fn from_str(text: &str) -> (r: JsString)
        ensures
            r.view() == utf16_of(text@),
    {
        let n = text.unicode_len();
        let mut units: Vec<u16> = Vec::new();
        let mut i: usize = 0;
        while i < n
            invariant
                i <= n,
                n == text@.len(),
                units@ == utf16_of(text@.subrange(0, i as int)),
            decreases n - i,
        {
            let c = text.get_char(i);
            let code = c as u32;
            if code < 0x1_0000 {
                units.push(code as u16);
            } else {
                units.push((0xD800 + ((code - 0x1_0000) / 0x400)) as u16);
                units.push((0xDC00 + ((code - 0x1_0000) % 0x400)) as u16);
            }
            proof {
                lemma_utf16_snoc(text@, i as int);
            }
            i += 1;
        }
        proof {
            assert(text@.subrange(0, n as int) =~= text@);
        }
        JsString { chars: units }
    }

    /// Copies a slice of code units.
    pub fn from_u16(units: &Vec<u16>) -> (r: JsString)
        ensures
            r.view() == units@,
    {
        let mut copy: Vec<u16> = Vec::new();
        let mut i: usize = 0;
        while i < units.len()
            invariant
                i <= units@.len(),
                copy@ == units@.subrange(0, i as int),
            decreases units@.len() - i,
        {
            copy.push(units[i]);
            i += 1;
        }
        proof {
            assert(copy@ =~= units@);
        }
        JsString { chars: copy }
    }

    /// The code units, for callers that walk them.
    pub fn chars(&self) -> (r: &Vec<u16>)
        ensures
            r@ == self.view(),
    {
        &self.chars
    }

    /// The number of code units.
    pub fn len(&self) -> (r: usize)
        ensures
            r == self.view().len(),
    {
        self.chars.len()
    }

    /// Concatenates any number of strings, in order.
    pub fn concat(strings: &Vec<JsString>) -> (r: JsString)
        ensures
            r.view() == concat_views(strings@),
    {
        let mut out: Vec<u16> = Vec::new();
        let mut i: usize = 0;
        while i < strings.len()
            invariant
                i <= strings@.len(),
                out@ == concat_views(strings@.subrange(0, i as int)),
            decreases strings@.len() - i,
        {
            let part = &strings[i];
            let mut j: usize = 0;
            while j < part.chars.len()
                invariant
                    j <= part.view().len(),
                    out@ == concat_views(strings@.subrange(0, i as int))
                        + part.view().subrange(0, j as int),
                    i < strings@.len(),
                    part == strings@[i as int],
                decreases part.view().len() - j,
            {
                out.push(part.chars[j]);
                proof {
                    assert(out@ =~= concat_views(strings@.subrange(0, i as int))
                        + part.view().subrange(0, j + 1));
                }
                j += 1;
            }
            proof {
                lemma_concat_snoc(strings@, i as int);
                assert(part.view().subrange(0, part.view().len() as int) =~= part.view());
            }
            i += 1;
        }
        proof {
            assert(strings@.subrange(0, strings@.len() as int) =~= strings@);
        }
        JsString { chars: out }
    }

    /// Code-unit equality.
    pub fn equals(x: &JsString, y: &JsString) -> (r: bool)
        ensures
            r == (x.view() == y.view()),
    {
        if x.chars.len() != y.chars.len() {
            proof {
                assert(x.view() != y.view());
            }
            return false;
        }
        let mut i: usize = 0;
        while i < x.chars.len()
            invariant
                i <= x.view().len(),
                x.view().len() == y.view().len(),
                forall|j: int| 0 <= j < i ==> x.view()[j] == y.view()[j],
            decreases x.view().len() - i,
        {
            if x.chars[i] != y.chars[i] {
                return false;
            }
            i += 1;
        }
        proof {
            assert(x.view() =~= y.view());
        }
        true
    }
}

/// All code units of a sequence of strings, in order.
pub open spec fn concat_views(strings: Seq<JsString>) -> Seq<u16>
    decreases strings.len(),
{
    if strings.len() == 0 {
        Seq::empty()
    } else {
        concat_views(strings.drop_last()) + strings.last().view()
    }
}

/// Extending the prefix by one element extends its concatenation.
proof fn lemma_concat_snoc(strings: Seq<JsString>, i: int)
    requires
        0 <= i < strings.len(),
    ensures
        concat_views(strings.subrange(0, i + 1))
            == concat_views(strings.subrange(0, i)) + strings[i].view(),
{
    let pre = strings.subrange(0, i + 1);
    assert(pre.drop_last() =~= strings.subrange(0, i));
    assert(pre.last() == strings[i]);
}

/// Encoding one more character appends its units.
proof fn lemma_utf16_snoc(chars: Seq<char>, i: int)
    requires
        0 <= i < chars.len(),
    ensures
        ({
            let c = chars[i] as u32;
            let unit: Seq<u16> = if c < 0x1_0000 {
                seq![c as u16]
            } else {
                seq![
                    (0xD800 + ((c - 0x1_0000) / 0x400)) as u16,
                    (0xDC00 + ((c - 0x1_0000) % 0x400)) as u16,
                ]
            };
            utf16_of(chars.subrange(0, i + 1)) == utf16_of(chars.subrange(0, i)) + unit
        }),
    decreases i,
{
    if i == 0 {
        let s1 = chars.subrange(0, 1);
        assert(s1[0] == chars[0]);
        assert(s1.drop_first() =~= Seq::<char>::empty());
        assert(chars.subrange(0, 0) =~= Seq::<char>::empty());
        assert(utf16_of(chars.subrange(0, 0)) =~= Seq::<u16>::empty());
        assert(utf16_of(s1) =~= utf16_of(chars.subrange(0, 0)) + utf16_of(s1));
    } else {
        lemma_utf16_snoc(chars.drop_first(), i - 1);
        let a = chars.subrange(0, i + 1);
        let b = chars.subrange(0, i);
        assert(a.drop_first() =~= chars.drop_first().subrange(0, i));
        assert(b.drop_first() =~= chars.drop_first().subrange(0, i - 1));
        assert(a[0] == chars[0] && b[0] == chars[0]);
        assert(chars.drop_first()[i - 1] == chars[i]);
        assert(utf16_of(a) =~= utf16_of(b) + ({
            let c = chars[i] as u32;
            if c < 0x1_0000 {
                seq![c as u16]
            } else {
                seq![
                    (0xD800 + ((c - 0x1_0000) / 0x400)) as u16,
                    (0xDC00 + ((c - 0x1_0000) % 0x400)) as u16,
                ]
            }
        }));
    }
}

} // verus!
