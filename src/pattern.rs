//! Normalized labels and queries, and the right-to-left contiguous-run matcher.
use vstd::prelude::*;

use crate::norm::{NormAlloc, NormInplace};
use crate::text::{
    append_normalized, byte_len, byte_offset, char_width, is_label, is_uppercase,
    lemma_byte_offset_full, lemma_byte_offset_mono, lemma_byte_offset_step, lowercase_of,
    normalize, push_normalized, to_lowercase, uppercase_of,
};

verus! {

/// The display label of one candidate, in normalized form.
pub struct Target {
    display_name: NormAlloc,
}

impl View for Target {
    type V = Seq<char>;

    closed spec fn view(&self) -> Seq<char> {
        self.display_name@
    }
}

impl Target {
    pub fn with_capacity(cap: usize) -> (r: Self)
        ensures
            r@ == Seq::<char>::empty(),
    {
        Target { display_name: NormAlloc::with_capacity(cap) }
    }

    /// Appends one raw character, normalizing it.
    pub fn push(&mut self, c: char)
        requires
            byte_len(old(self)@) + 4 <= usize::MAX,
        ensures
            final(self)@ == push_normalized(old(self)@, c),
    {
        self.display_name.push(c);
    }

    /// Appends raw text, normalizing it.
    pub fn push_str(&mut self, s: &str)
        requires
            byte_len(old(self)@) + 4 * s@.len() <= usize::MAX,
        ensures
            final(self)@ == append_normalized(old(self)@, s@),
    {
        self.display_name.push_str(s);
    }

    /// The normalized label of raw text `s`.
    pub fn from_str(s: &str) -> (r: Self)
        requires
            4 * s@.len() <= usize::MAX,
        ensures
            r@ == normalize(s@),
    {
        Target { display_name: NormAlloc::from_str(s) }
    }

    pub fn display_name(&self) -> (r: &str)
        ensures
            r@ == self@,
    {
        self.display_name.as_str()
    }

    /// Length of the label in bytes of UTF-8; the label is normalized.
    pub fn len(&self) -> (r: usize)
        ensures
            r == byte_len(self@),
            is_label(self@),
    {
        self.display_name.len()
    }

    pub fn chars(&self) -> (r: &Vec<char>)
        ensures
            r@ == self@,
    {
        self.display_name.as_chars()
    }
}

/// A query, in normalized form.
pub struct Pattern {
    chars: Vec<char>,
}

impl View for Pattern {
    type V = Seq<char>;

    closed spec fn view(&self) -> Seq<char> {
        self.chars@
    }
}

impl Pattern {
    pub fn from_str(s: &str) -> (r: Self)
        ensures
            r@ == normalize(s@),
    {
        Pattern { chars: NormInplace::from_str(s).chars() }
    }

    pub fn is_empty(&self) -> (r: bool)
        ensures
            r == (self@.len() == 0),
    {
        self.chars.len() == 0
    }

    pub fn chars(&self) -> (r: &Vec<char>)
        ensures
            r@ == self@,
    {
        &self.chars
    }

    /// The matcher of this query on `target`, with its cursors at the ends
    /// of both texts.
    pub fn fuzzy<'a>(&'a self, target: &'a Target) -> (m: Matcher<'a>)
        ensures
            m.wf(),
            m.remaining() == outcomes(self@, target@),
    {
        let target_len = target.len();
        let t = target.chars();
        proof {
            lemma_byte_offset_full(t@);
        }
        Matcher {
            pattern: &self.chars,
            target: t,
            target_len,
            pn: self.chars.len(),
            tn: t.len(),
            tbytes: target_len,
        }
    }

    /// The outcomes of this query on `target`, produced one by one.
    pub fn test<'a>(&'a self, target: &'a Target) -> (m: Matcher<'a>)
        ensures
            m.wf(),
            m.remaining() == outcomes(self@, target@),
    {
        self.fuzzy(target)
    }
}

/// Whether target character `t` matches pattern character `p`. The rule is
/// decided by the pattern side: an uppercase `p` asks for exactly `p`, any
/// other `p` is compared through the lowercase mapping of both characters.
pub open spec fn chars_match(t: char, p: char) -> bool {
    if uppercase_of(p) {
        t == p
    } else {
        lowercase_of(t) == lowercase_of(p)
    }
}

fn same_chars(a: &Vec<char>, b: &Vec<char>) -> (r: bool)
    ensures
        r == (a@ == b@),
{
    if a.len() != b.len() {
        return false;
    }
    let mut i: usize = 0;
    while i < a.len()
        invariant
            a@.len() == b@.len(),
            i <= a@.len(),
            forall|k: int| 0 <= k < i ==> a@[k] == b@[k],
        decreases a@.len() - i,
    {
        if a[i] != b[i] {
            return false;
        }
        i = i + 1;
    }
    proof {
        assert(a@ =~= b@);
    }
    true
}

/// Compares a target character with a pattern character by the case rule.
pub fn eq_char(target: char, pat: char) -> (r: bool)
    ensures
        r == chars_match(target, pat),
{
    if is_uppercase(pat) {
        target == pat
    } else {
        let a = to_lowercase(target);
        let b = to_lowercase(pat);
        same_chars(&a, &b)
    }
}

/// A half-open byte range `start..end` of a label, with `roffset`, the
/// number of bytes of the label after `end`.
#[derive(Clone, Copy, Debug, PartialEq, Eq, Structural)]
pub struct MatchRange {
    pub start: usize,
    pub end: usize,
    pub roffset: usize,
}

/// One outcome of the matcher.
#[derive(Clone, Copy, Debug, PartialEq, Eq, Structural)]
pub enum MatchOutcome {
    /// The whole remaining pattern was matched by this one run.
    Decisive(MatchRange),
    /// A run matched the end of the remaining pattern, and more is left.
    Partial(MatchRange),
}

impl MatchOutcome {
    pub open spec fn range(self) -> MatchRange {
        match self {
            MatchOutcome::Decisive(r) => r,
            MatchOutcome::Partial(r) => r,
        }
    }
}

/// Index of the rightmost character of `t[..tn]` that matches `c`, or -1.
pub open spec fn find_last(c: char, t: Seq<char>, tn: int) -> int
    decreases tn,
{
    if tn <= 0 {
        -1
    } else if chars_match(t[tn - 1], c) {
        tn - 1
    } else {
        find_last(c, t, tn - 1)
    }
}

/// Number of consecutive matches of the characters of `p[..pi]` against
/// those of `t[..ti]`, both read from their ends leftwards.
pub open spec fn run_len(p: Seq<char>, t: Seq<char>, pi: int, ti: int) -> nat
    decreases pi,
{
    if pi <= 0 || ti <= 0 || !chars_match(t[ti - 1], p[pi - 1]) {
        0
    } else {
        1 + run_len(p, t, pi - 1, ti - 1)
    }
}

/// The runs the matcher finds while `p[..pn]` is left of the pattern and
/// `t[..tn]` of the label. A run is `(decisive, start, end)`, with `start..end`
/// a range of character indices of `t`.
pub open spec fn runs_from(p: Seq<char>, t: Seq<char>, pn: int, tn: int) -> Seq<(bool, int, int)>
    decreases tn,
{
    if pn <= 0 || tn <= 0 {
        Seq::empty()
    } else {
        let j = find_last(p[pn - 1], t, tn);
        if j < 0 || j >= tn {
            Seq::empty()
        } else {
            let k = 1 + run_len(p, t, pn - 1, j);
            if k >= pn {
                seq![(true, j + 1 - pn, j + 1)]
            } else if j + 1 - k <= 0 {
                Seq::empty()
            } else {
                seq![(false, j + 1 - k, j + 1)] + runs_from(p, t, pn - k, j - k)
            }
        }
    }
}

/// The runs of pattern `p` on label `t`, as character ranges.
pub open spec fn runs(p: Seq<char>, t: Seq<char>) -> Seq<(bool, int, int)> {
    runs_from(p, t, p.len() as int, t.len() as int)
}

/// The byte range of the characters `start..end` of `t`.
pub open spec fn range_of(t: Seq<char>, start: int, end: int) -> MatchRange {
    MatchRange {
        start: byte_offset(t, start) as usize,
        end: byte_offset(t, end) as usize,
        roffset: (byte_len(t) - byte_offset(t, end)) as usize,
    }
}

pub open spec fn outcome_of(t: Seq<char>, run: (bool, int, int)) -> MatchOutcome {
    if run.0 {
        MatchOutcome::Decisive(range_of(t, run.1, run.2))
    } else {
        MatchOutcome::Partial(range_of(t, run.1, run.2))
    }
}

/// The outcomes of the runs of `runs_from(p, t, pn, tn)`.
pub open spec fn outcomes_from(p: Seq<char>, t: Seq<char>, pn: int, tn: int) -> Seq<MatchOutcome> {
    runs_from(p, t, pn, tn).map_values(|r: (bool, int, int)| outcome_of(t, r))
}

/// The outcomes the matcher produces for pattern `p` on label `t`, in order.
pub open spec fn outcomes(p: Seq<char>, t: Seq<char>) -> Seq<MatchOutcome> {
    outcomes_from(p, t, p.len() as int, t.len() as int)
}

pub proof fn lemma_find_last(c: char, t: Seq<char>, tn: int)
    ensures
        -1 <= find_last(c, t, tn) < tn || (tn <= 0 && find_last(c, t, tn) == -1),
        find_last(c, t, tn) >= 0 ==> chars_match(t[find_last(c, t, tn)], c),
        forall|i: int| find_last(c, t, tn) < i < tn ==> !chars_match(#[trigger] t[i], c),
    decreases tn,
{
    if tn > 0 && !chars_match(t[tn - 1], c) {
        lemma_find_last(c, t, tn - 1);
    }
}

pub proof fn lemma_run_len_bound(p: Seq<char>, t: Seq<char>, pi: int, ti: int)
    ensures
        pi >= 0 ==> run_len(p, t, pi, ti) <= pi,
        ti >= 0 ==> run_len(p, t, pi, ti) <= ti,
    decreases pi,
{
    if pi > 0 && ti > 0 && chars_match(t[ti - 1], p[pi - 1]) {
        lemma_run_len_bound(p, t, pi - 1, ti - 1);
    }
}

/// Total number of characters that a sequence of runs covers.
pub open spec fn run_chars(rs: Seq<(bool, int, int)>) -> int
    decreases rs.len(),
{
    if rs.len() == 0 {
        0
    } else {
        (rs[0].2 - rs[0].1) + run_chars(rs.drop_first())
    }
}

/// Runs are non-empty ranges of `t[..tn]`, only the last one may be
/// decisive, and when it is, the runs cover as many characters as the
/// pattern part `p[..pn]` they were found for.
pub proof fn lemma_runs_shape(p: Seq<char>, t: Seq<char>, pn: int, tn: int)
    requires
        0 <= pn <= p.len(),
        0 <= tn <= t.len(),
    ensures
        forall|i: int|
            0 <= i < runs_from(p, t, pn, tn).len() ==> 0 <= (#[trigger] runs_from(p, t, pn, tn)[i]).1
                < runs_from(p, t, pn, tn)[i].2 <= tn,
        forall|i: int|
            0 <= i < runs_from(p, t, pn, tn).len() && (#[trigger] runs_from(p, t, pn, tn)[i]).0
                ==> i == runs_from(p, t, pn, tn).len() - 1,
        runs_from(p, t, pn, tn).len() > 0 && runs_from(p, t, pn, tn).last().0 ==> run_chars(
            runs_from(p, t, pn, tn),
        ) == pn,
    decreases tn,
{
    let rs = runs_from(p, t, pn, tn);
    if pn > 0 && tn > 0 {
        let j = find_last(p[pn - 1], t, tn);
        lemma_find_last(p[pn - 1], t, tn);
        if j >= 0 && j < tn {
            let k = 1 + run_len(p, t, pn - 1, j);
            lemma_run_len_bound(p, t, pn - 1, j);
            if k >= pn {
                assert(rs.drop_first() =~= Seq::<(bool, int, int)>::empty());
                assert(run_chars(rs.drop_first()) == 0);
            } else if j + 1 - k > 0 {
                let rest = runs_from(p, t, pn - k, j - k);
                lemma_runs_shape(p, t, pn - k, j - k);
                assert(rs.drop_first() =~= rest);
                assert forall|i: int| 0 < i < rs.len() implies rs[i] == rest[i - 1] by {}
                if rest.len() > 0 {
                    assert(rs.last() == rest.last());
                }
                assert(run_chars(rs) == k + run_chars(rest));
            }
        }
    }
}

/// Byte ranges of outcomes are well formed, and only the last outcome may be decisive.
pub proof fn lemma_outcomes_shape(p: Seq<char>, t: Seq<char>)
    requires
        is_label(t),
    ensures
        forall|i: int|
            0 <= i < outcomes(p, t).len() ==> {
                let r = (#[trigger] outcomes(p, t)[i]).range();
                r.start <= r.end && r.end + r.roffset == byte_len(t)
            },
        forall|i: int|
            0 <= i < outcomes(p, t).len() && (#[trigger] outcomes(p, t)[i] is Decisive) ==> i
                == outcomes(p, t).len() - 1,
{
    let rs = runs(p, t);
    lemma_runs_shape(p, t, p.len() as int, t.len() as int);
    lemma_byte_offset_full(t);
    assert forall|i: int| 0 <= i < outcomes(p, t).len() implies {
        let r = (#[trigger] outcomes(p, t)[i]).range();
        r.start <= r.end && r.end + r.roffset == byte_len(t)
    } by {
        lemma_byte_offset_mono(t, rs[i].1, rs[i].2);
        lemma_byte_offset_mono(t, rs[i].2, t.len() as int);
    }
}

/// Once the matcher emits a decisive outcome, the runs it has found cover,
/// together, exactly as many label characters as the query has.
pub proof fn lemma_decisive_covers_query(p: Seq<char>, t: Seq<char>)
    ensures
        outcomes(p, t).len() > 0 && outcomes(p, t).last() is Decisive ==> run_chars(runs(p, t))
            == p.len(),
        outcomes(p, t).len() == runs(p, t).len(),
{
    lemma_runs_shape(p, t, p.len() as int, t.len() as int);
}

proof fn lemma_run_len_suffix(p: Seq<char>, t: Seq<char>, m: int)
    requires
        0 <= m <= p.len() <= t.len(),
        forall|i: int| 0 <= i < p.len() ==> chars_match(#[trigger] t[t.len() - p.len() + i], p[i]),
    ensures
        run_len(p, t, m, t.len() - p.len() + m) == m,
    decreases m,
{
    if m > 0 {
        lemma_run_len_suffix(p, t, m - 1);
        assert(chars_match(t[t.len() - p.len() + (m - 1)], p[m - 1]));
    }
}

/// A query that matches the end of a label, character by character under
/// the case rule, gives one decisive outcome that ends at the label's end.
pub proof fn lemma_suffix_match(p: Seq<char>, t: Seq<char>)
    requires
        0 < p.len() <= t.len(),
        forall|i: int| 0 <= i < p.len() ==> chars_match(#[trigger] t[t.len() - p.len() + i], p[i]),
    ensures
        outcomes(p, t).len() == 1,
        outcomes(p, t)[0] is Decisive,
        outcomes(p, t)[0].range().roffset == 0,
{
    let n = p.len() as int;
    let tl = t.len() as int;
    assert(chars_match(t[tl - n + (n - 1)], p[n - 1]));
    assert(find_last(p[n - 1], t, tl) == tl - 1);
    lemma_run_len_suffix(p, t, n - 1);
    assert(runs(p, t) == seq![(true, tl - n, tl)]);
    lemma_byte_offset_full(t);
}

/// Step-by-step producer of the outcomes of one pattern on one label.
pub struct Matcher<'a> {
    pattern: &'a Vec<char>,
    target: &'a Vec<char>,
    target_len: usize,
    pn: usize,
    tn: usize,
    tbytes: usize,
}

impl<'a> Matcher<'a> {
    pub closed spec fn wf(&self) -> bool {
        &&& self.pn <= self.pattern@.len()
        &&& self.tn <= self.target@.len()
        &&& is_label(self.target@)
        &&& self.target_len == byte_len(self.target@)
        &&& self.tbytes == byte_offset(self.target@, self.tn as int)
    }

    /// The outcomes still to come.
    pub closed spec fn remaining(&self) -> Seq<MatchOutcome> {
        outcomes_from(self.pattern@, self.target@, self.pn as int, self.tn as int)
    }

    /// Produces the next outcome, or `None` once there is none left.
    pub fn next(&mut self) -> (r: Option<MatchOutcome>)
        requires
            old(self).wf(),
        ensures
            final(self).wf(),
            old(self).remaining().len() == 0 ==> r is None && final(self).remaining().len() == 0,
            old(self).remaining().len() > 0 ==> r == Some(old(self).remaining()[0])
                && final(self).remaining() == old(self).remaining().drop_first(),
    {
        let ghost p = self.pattern@;
        let ghost t = self.target@;
        let pn = self.pn;
        if pn == 0 {
            return None;
        }
        let c = self.pattern[pn - 1];
        let ghost tn0 = self.tn as int;
        let mut tn = self.tn;
        let mut tb = self.tbytes;
        proof {
            lemma_find_last(c, t, tn0);
        }
        loop
            invariant
                *self == *old(self),
                self.wf(),
                p == self.pattern@,
                t == self.target@,
                pn == self.pn,
                0 < pn <= p.len(),
                c == p[pn - 1],
                0 <= tn <= tn0,
                tn0 == self.tn,
                tb == byte_offset(t, tn as int),
                find_last(c, t, tn0) == find_last(c, t, tn as int),
            ensures
                *self == *old(self),
                self.wf(),
                p == self.pattern@,
                t == self.target@,
                pn == self.pn,
                tn0 == self.tn,
                0 < tn <= tn0,
                tb == byte_offset(t, tn as int),
                find_last(c, t, tn0) == tn - 1,
            decreases tn,
        {
            if tn == 0 {
                proof {
                    assert(outcomes_from(p, t, pn as int, tn0) =~= Seq::empty());
                }
                self.pn = 0;
                return None;
            }
            let ch = self.target[tn - 1];
            if eq_char(ch, c) {
                break ;
            }
            proof {
                lemma_byte_offset_step(t, tn - 1);
            }
            tb = tb - char_width(ch);
            tn = tn - 1;
        }
        let j = tn - 1;
        let end = tb;
        proof {
            lemma_byte_offset_step(t, j as int);
            lemma_byte_offset_mono(t, j + 1, t.len() as int);
            lemma_byte_offset_full(t);
            assert(find_last(c, t, tn0) == j);
        }
        tb = tb - char_width(self.target[j]);
        tn = j;
        let mut k: usize = 1;
        loop
            invariant
                *self == *old(self),
                self.wf(),
                p == self.pattern@,
                t == self.target@,
                pn == self.pn,
                0 < pn <= p.len(),
                tn0 == self.tn,
                j < tn0,
                find_last(p[pn - 1], t, tn0) == j,
                1 <= k <= pn,
                tn == j + 1 - k,
                tb == byte_offset(t, tn as int),
                end == byte_offset(t, j + 1),
                end <= self.target_len,
                1 + run_len(p, t, pn - 1, j as int) == k + run_len(p, t, pn - k, tn as int),
            decreases pn - k,
        {
            let target_len = self.target_len;
            if k == pn {
                let item = MatchRange { start: tb, end, roffset: target_len - end };
                proof {
                    let runs = runs_from(p, t, pn as int, tn0);
                    assert(runs == seq![(true, j + 1 - pn, j + 1)]);
                    assert(item == range_of(t, tn as int, j + 1));
                    assert(outcomes_from(p, t, pn as int, tn0) =~= seq![
                        MatchOutcome::Decisive(item),
                    ]);
                }
                self.pn = 0;
                return Some(MatchOutcome::Decisive(item));
            }
            if tn == 0 {
                proof {
                    assert(run_len(p, t, pn - k, 0) == 0);
                    assert(outcomes_from(p, t, pn as int, tn0) =~= Seq::empty());
                }
                self.pn = 0;
                return None;
            }
            let ch = self.target[tn - 1];
            let pc = self.pattern[pn - 1 - k];
            proof {
                lemma_byte_offset_step(t, tn - 1);
            }
            let nb = tb - char_width(ch);
            if eq_char(ch, pc) {
                k = k + 1;
                tn = tn - 1;
                tb = nb;
            } else {
                let item = MatchRange { start: tb, end, roffset: target_len - end };
                proof {
                    let runs = runs_from(p, t, pn as int, tn0);
                    let rest = runs_from(p, t, pn - k, tn - 1);
                    assert(runs == seq![(false, j + 1 - k, j + 1)] + rest);
                    assert(item == range_of(t, tn as int, j + 1));
                    assert(outcomes_from(p, t, pn as int, tn0).drop_first() =~= outcomes_from(
                        p,
                        t,
                        pn - k,
                        tn - 1,
                    ));
                }
                self.pn = pn - k;
                self.tn = tn - 1;
                self.tbytes = nb;
                return Some(MatchOutcome::Partial(item));
            }
        }
    }
}

} // verus!
