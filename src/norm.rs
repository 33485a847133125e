//! The two forms of normalized text: an owned one, built once per label,
//! and a view over a raw query.
use vstd::prelude::*;

use crate::text::{
    append_normalized, byte_len, byte_offset, char_width, is_control, is_control_char,
    is_label, is_normalized, is_whitespace, is_whitespace_char, lemma_append_normalized,
    lemma_byte_len_bound, lemma_byte_offset_step, lemma_push_normalized, normalize, push_char,
    push_chars, push_normalized,
};

verus! {

/// Relies on `String::push`: appends the character at the end.
#[verifier::external_body]
fn push_to_string(s: &mut String, c: char)
    ensures
        final(s)@ == old(s)@.push(c),
{
    s.push(c)
}

/// Owned normalized text.
pub struct NormAlloc {
    inner: String,
    chars: Vec<char>,
    bytes: usize,
}

impl View for NormAlloc {
    type V = Seq<char>;

    closed spec fn view(&self) -> Seq<char> {
        self.chars@
    }
}

impl NormAlloc {
    #[verifier::type_invariant]
    closed spec fn inv(&self) -> bool {
        &&& is_label(self.chars@)
        &&& self.inner@ == self.chars@
        &&& self.bytes == byte_len(self.chars@)
    }

    /// Length of the text in bytes of UTF-8; the text is a label.
    pub fn len(&self) -> (r: usize)
        ensures
            r == byte_len(self@),
            is_label(self@),
    {
        proof {
            use_type_invariant(self);
        }
        self.bytes
    }

    pub fn with_capacity(cap: usize) -> (r: Self)
        ensures
            r@ == Seq::<char>::empty(),
    {
        NormAlloc { inner: String::new(), chars: Vec::with_capacity(cap), bytes: 0 }
    }

    /// Appends one raw character, normalizing it.
    pub fn push(&mut self, c: char)
        requires
            byte_len(old(self)@) + 4 <= usize::MAX,
        ensures
            final(self)@ == push_normalized(old(self)@, c),
    {
        proof {
            use_type_invariant(&*self);
        }
        let mut t = NormAlloc::with_capacity(0);
        std::mem::swap(self, &mut t);
        let NormAlloc { mut inner, mut chars, mut bytes } = t;
        let ghost before = chars@;
        let n = chars.len();
        push_char(&mut chars, c);
        if chars.len() > n {
            let added = chars[n];
            proof {
                assert(chars@.drop_last() =~= before);
            }
            push_to_string(&mut inner, added);
            bytes = bytes + char_width(added);
        }
        proof {
            lemma_push_normalized(before, c);
        }
        *self = NormAlloc { inner, chars, bytes };
    }

    /// Appends raw text, normalizing it.
    pub fn push_str(&mut self, s: &str)
        requires
            byte_len(old(self)@) + 4 * s@.len() <= usize::MAX,
        ensures
            final(self)@ == append_normalized(old(self)@, s@),
    {
        proof {
            use_type_invariant(&*self);
        }
        let ghost start = self@;
        for c in it: s.chars()
            invariant
                it.seq() == s@,
                is_normalized(start),
                byte_len(start) + 4 * s@.len() <= usize::MAX,
                self@ == append_normalized(start, s@.take(it.index())),
        {
            proof {
                use_type_invariant(&*self);
                let i = it.index();
                lemma_append_normalized(start, s@.take(i));
                lemma_byte_len_bound(s@.take(i));
                assert(s@.take(i + 1).drop_last() =~= s@.take(i));
            }
            self.push(c);
        }
        proof {
            assert(s@.take(s@.len() as int) =~= s@);
        }
    }

    /// The normalized text of raw text `s`.
    pub fn from_str(s: &str) -> (r: Self)
        requires
            4 * s@.len() <= usize::MAX,
        ensures
            r@ == normalize(s@),
    {
        let mut r = NormAlloc::with_capacity(s.len());
        r.push_str(s);
        r
    }

    pub fn as_str(&self) -> (r: &str)
        ensures
            r@ == self@,
    {
        proof {
            use_type_invariant(self);
        }
        self.inner.as_str()
    }

    /// The characters of the text.
    pub fn as_chars(&self) -> (r: &Vec<char>)
        ensures
            r@ == self@,
    {
        &self.chars
    }

    /// Each character of the text with its byte offset.
    pub fn char_indices(&self) -> (r: Vec<(usize, char)>)
        ensures
            r@.len() == self@.len(),
            forall|i: int|
                0 <= i < r@.len() ==> #[trigger] r@[i] == (byte_offset(self@, i) as usize, self@[i]),
    {
        proof {
            use_type_invariant(self);
        }
        let mut r: Vec<(usize, char)> = Vec::with_capacity(self.chars.len());
        let mut offset: usize = 0;
        let mut i: usize = 0;
        proof {
            assert(self@.take(0) =~= Seq::<char>::empty());
            crate::text::lemma_byte_offset_full(self@);
        }
        while i < self.chars.len()
            invariant
                is_label(self@),
                self.chars@ == self@,
                i <= self@.len(),
                r@.len() == i,
                offset == byte_offset(self@, i as int),
                forall|k: int|
                    0 <= k < i ==> #[trigger] r@[k] == (byte_offset(self@, k) as usize, self@[k]),
            decreases self@.len() - i,
        {
            let c = self.chars[i];
            r.push((offset, c));
            proof {
                lemma_byte_offset_step(self@, i as int);
                crate::text::lemma_byte_offset_mono(self@, i + 1, self@.len() as int);
                crate::text::lemma_byte_offset_full(self@);
            }
            offset = offset + char_width(c);
            i = i + 1;
        }
        r
    }
}

/// A raw query, seen as its normalized form.
#[derive(Clone, Copy)]
pub struct NormInplace<'a> {
    inner: &'a str,
}

impl<'a> View for NormInplace<'a> {
    type V = Seq<char>;

    closed spec fn view(&self) -> Seq<char> {
        normalize(self.inner@)
    }
}

/// Normalized text is empty exactly when every raw character is a control
/// character that is not whitespace.
pub proof fn lemma_normalized_empty(s: Seq<char>)
    ensures
        normalize(s).len() == 0 <==> forall|i: int|
            0 <= i < s.len() ==> is_control_char(#[trigger] s[i]) && !is_whitespace_char(s[i]),
    decreases s.len(),
{
    if s.len() > 0 {
        let d = s.drop_last();
        lemma_normalized_empty(d);
        assert forall|i: int| 0 <= i < d.len() implies d[i] == s[i] by {}
        if normalize(d).len() > 0 {
            let i = choose|i: int|
                0 <= i < d.len() && !(is_control_char(#[trigger] d[i]) && !is_whitespace_char(
                    d[i],
                ));
            assert(s[i] == d[i]);
        }
    }
}

impl<'a> NormInplace<'a> {
    pub fn from_str(s: &'a str) -> (r: Self)
        ensures
            r@ == normalize(s@),
    {
        NormInplace { inner: s }
    }

    pub fn is_empty(self) -> (r: bool)
        ensures
            r == (self@.len() == 0),
    {
        let ghost s = self.inner@;
        let ghost view = self@;
        proof {
            lemma_normalized_empty(s);
        }
        for c in it: self.inner.chars()
            invariant
                it.seq() == s,
                s == self.inner@,
                view == normalize(s),
                normalize(s).len() == 0 <==> forall|i: int|
                    0 <= i < s.len() ==> is_control_char(#[trigger] s[i]) && !is_whitespace_char(s[i]),
                forall|k: int|
                    0 <= k < it.index() ==> is_control_char(#[trigger] s[k]) && !is_whitespace_char(
                        s[k],
                    ),
        {
            if is_whitespace(c) || !is_control(c) {
                proof {
                    let i = it.index();
                    assert(c == s[i]);
                    assert(!(is_control_char(s[i]) && !is_whitespace_char(s[i])));
                }
                return false;
            }
        }
        true
    }

    /// The characters of the normalized text.
    pub fn chars(self) -> (r: Vec<char>)
        ensures
            r@ == self@,
    {
        let mut out: Vec<char> = Vec::new();
        push_chars(&mut out, self.inner);
        out
    }
}

} // verus!
