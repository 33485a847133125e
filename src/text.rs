//! Character classes, UTF-8 widths and text normalization.
use vstd::prelude::*;
use vstd::std_specs::iter::IteratorSpec;

verus! {

/// Unicode general category Cc: U+0000..=U+001F and U+007F..=U+009F.
pub open spec fn is_control_char(c: char) -> bool {
    (c as u32) <= 0x1f || (0x7f <= (c as u32) && (c as u32) <= 0x9f)
}

/// The Unicode `White_Space` property.
pub open spec fn is_whitespace_char(c: char) -> bool {
    let u = c as u32;
    ||| (0x09 <= u && u <= 0x0d)
    ||| u == 0x20
    ||| u == 0x85
    ||| u == 0xa0
    ||| u == 0x1680
    ||| (0x2000 <= u && u <= 0x200a)
    ||| u == 0x2028
    ||| u == 0x2029
    ||| u == 0x202f
    ||| u == 0x205f
    ||| u == 0x3000
}

/// Whether `char::is_uppercase` holds of a character (the Unicode
/// `Uppercase` property).
pub uninterp spec fn uppercase_of(c: char) -> bool;

/// The characters that `char::to_lowercase` yields for a character.
pub uninterp spec fn lowercase_of(c: char) -> Seq<char>;

/// Relies on `char::is_whitespace`, which tests the `White_Space` property.
#[verifier::external_body]
pub(crate) fn is_whitespace(c: char) -> (r: bool)
    ensures
        r == is_whitespace_char(c),
{
    c.is_whitespace()
}

/// Relies on `char::is_control`, which tests the general category Cc.
#[verifier::external_body]
pub(crate) fn is_control(c: char) -> (r: bool)
    ensures
        r == is_control_char(c),
{
    c.is_control()
}

/// Relies on `char::is_uppercase`: the answer depends on the character alone.
#[verifier::external_body]
pub(crate) fn is_uppercase(c: char) -> (r: bool)
    ensures
        r == uppercase_of(c),
{
    c.is_uppercase()
}

/// Relies on `char::to_lowercase`: the characters of the lowercase mapping,
/// which depend on the character alone.
#[verifier::external_body]
pub(crate) fn to_lowercase(c: char) -> (r: Vec<char>)
    ensures
        r@ == lowercase_of(c),
{
    c.to_lowercase().collect()
}

/// Number of bytes of the UTF-8 encoding of `c`.
pub open spec fn utf8_width(c: char) -> nat {
    if (c as u32) < 0x80 {
        1
    } else if (c as u32) < 0x800 {
        2
    } else if (c as u32) < 0x10000 {
        3
    } else {
        4
    }
}

/// Number of bytes of the UTF-8 encoding of `s`.
pub open spec fn byte_len(s: Seq<char>) -> nat
    decreases s.len(),
{
    if s.len() == 0 {
        0
    } else {
        byte_len(s.drop_last()) + utf8_width(s.last())
    }
}

/// Byte offset of the character at index `i` of `s`.
pub open spec fn byte_offset(s: Seq<char>, i: int) -> nat {
    byte_len(s.take(i))
}

pub fn char_width(c: char) -> (r: usize)
    ensures
        r == utf8_width(c),
        1 <= r <= 4,
{
    if (c as u32) < 0x80 {
        1
    } else if (c as u32) < 0x800 {
        2
    } else if (c as u32) < 0x10000 {
        3
    } else {
        4
    }
}

pub proof fn lemma_byte_offset_step(s: Seq<char>, i: int)
    requires
        0 <= i < s.len(),
    ensures
        byte_offset(s, i + 1) == byte_offset(s, i) + utf8_width(s[i]),
{
    assert(s.take(i + 1).drop_last() =~= s.take(i));
}

pub proof fn lemma_byte_offset_full(s: Seq<char>)
    ensures
        byte_offset(s, s.len() as int) == byte_len(s),
{
    assert(s.take(s.len() as int) =~= s);
}

/// Byte offsets grow with the index, and every character takes one to four bytes.
pub proof fn lemma_byte_offset_mono(s: Seq<char>, i: int, j: int)
    requires
        0 <= i <= j <= s.len(),
    ensures
        byte_offset(s, i) + (j - i) <= byte_offset(s, j) <= byte_offset(s, i) + 4 * (j - i),
    decreases j - i,
{
    if i < j {
        lemma_byte_offset_mono(s, i, j - 1);
        lemma_byte_offset_step(s, j - 1);
    }
}

pub proof fn lemma_byte_len_bound(s: Seq<char>)
    ensures
        s.len() <= byte_len(s) <= 4 * s.len(),
{
    lemma_byte_offset_mono(s, 0, s.len() as int);
    lemma_byte_offset_full(s);
    assert(s.take(0) =~= Seq::<char>::empty());
}

/// What one raw character becomes: a whitespace character a space, a
/// control character nothing, any other character itself.
pub open spec fn filter_of(c: char) -> Option<char> {
    if is_whitespace_char(c) {
        Some(' ')
    } else if is_control_char(c) {
        None
    } else {
        Some(c)
    }
}

/// Appends one raw character to normalized text: a whitespace character
/// becomes one space unless the text already ends with one, a control
/// character is dropped, any other character is kept as it is.
pub open spec fn push_normalized(t: Seq<char>, c: char) -> Seq<char> {
    match filter_of(c) {
        None => t,
        Some(f) => {
            if f == ' ' && t.len() > 0 && t.last() == ' ' {
                t
            } else {
                t.push(f)
            }
        },
    }
}

/// Appends raw text `s`, character by character, to normalized text `t`.
pub open spec fn append_normalized(t: Seq<char>, s: Seq<char>) -> Seq<char>
    decreases s.len(),
{
    if s.len() == 0 {
        t
    } else {
        push_normalized(append_normalized(t, s.drop_last()), s.last())
    }
}

/// The normalized form of `s`: whitespace runs collapsed to one ASCII
/// space, control characters removed, everything else (case included) kept.
pub open spec fn normalize(s: Seq<char>) -> Seq<char> {
    append_normalized(Seq::empty(), s)
}

/// What a label may hold: normalized text whose UTF-8 length fits in `usize`.
pub open spec fn is_label(s: Seq<char>) -> bool {
    is_normalized(s) && byte_len(s) <= usize::MAX
}

/// Text without control characters, with no whitespace but the ASCII space,
/// and with no two spaces in a row.
pub open spec fn is_normalized(t: Seq<char>) -> bool {
    &&& forall|i: int| 0 <= i < t.len() ==> !is_control_char(#[trigger] t[i])
    &&& forall|i: int| 0 <= i < t.len() && is_whitespace_char(#[trigger] t[i]) ==> t[i] == ' '
    &&& forall|i: int| 0 <= i < t.len() - 1 ==> !(#[trigger] t[i] == ' ' && t[i + 1] == ' ')
}

pub proof fn lemma_push_normalized(t: Seq<char>, c: char)
    requires
        is_normalized(t),
    ensures
        is_normalized(push_normalized(t, c)),
        push_normalized(t, c).len() <= t.len() + 1,
        byte_len(push_normalized(t, c)) <= byte_len(t) + utf8_width(c),
{
    let r = push_normalized(t, c);
    if r.len() == t.len() + 1 {
        assert(r.drop_last() =~= t);
    }
}

pub proof fn lemma_append_normalized(t: Seq<char>, s: Seq<char>)
    requires
        is_normalized(t),
    ensures
        is_normalized(append_normalized(t, s)),
        append_normalized(t, s).len() <= t.len() + s.len(),
        byte_len(append_normalized(t, s)) <= byte_len(t) + byte_len(s),
    decreases s.len(),
{
    if s.len() > 0 {
        lemma_append_normalized(t, s.drop_last());
        lemma_push_normalized(append_normalized(t, s.drop_last()), s.last());
    }
}

/// The normalizer's output is normalized, and no longer than its input.
pub proof fn lemma_normalize(s: Seq<char>)
    ensures
        is_normalized(normalize(s)),
        normalize(s).len() <= s.len(),
        byte_len(normalize(s)) <= byte_len(s),
{
    lemma_append_normalized(Seq::empty(), s);
}

/// What one raw character becomes in normalized text.
pub fn filter_char(c: char) -> (r: Option<char>)
    ensures
        r == filter_of(c),
{
    if is_whitespace(c) {
        Some(' ')
    } else if is_control(c) {
        None
    } else {
        Some(c)
    }
}

/// Appends the raw character `c` to the normalized text `out`.
pub fn push_char(out: &mut Vec<char>, c: char)
    ensures
        final(out)@ == push_normalized(old(out)@, c),
{
    if let Some(f) = filter_char(c) {
        let n = out.len();
        if f == ' ' && n > 0 && out[n - 1] == ' ' {
        } else {
            out.push(f);
        }
    }
}

/// Appends the raw characters `s` to the normalized text `out`.
pub fn push_chars(out: &mut Vec<char>, s: &str)
    ensures
        final(out)@ == append_normalized(old(out)@, s@),
{
    let ghost start = out@;
    for c in it: s.chars()
        invariant
            it.seq() == s@,
            out@ == append_normalized(start, s@.take(it.index())),
    {
        proof {
            assert(s@.take(it.index() + 1).drop_last() =~= s@.take(it.index()));
        }
        push_char(out, c);
    }
    proof {
        assert(s@.take(s@.len() as int) =~= s@);
    }
}

} // verus!
