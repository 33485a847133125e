//! Ranking of a candidate snapshot against one query.
use vstd::prelude::*;

use crate::pattern::{MatchRange, Pattern, Target};
use crate::score::{
    bucket_priority, classify_target, priority, score_target, Bucket, Score, Scored,
};
use crate::text::byte_len;

verus! {

/// Lexicographic order of texts by code point (the order of their UTF-8 bytes).
pub open spec fn text_lt(a: Seq<char>, b: Seq<char>) -> bool
    decreases a.len(),
{
    if b.len() == 0 {
        false
    } else if a.len() == 0 {
        true
    } else if a[0] != b[0] {
        (a[0] as u32) < (b[0] as u32)
    } else {
        text_lt(a.drop_first(), b.drop_first())
    }
}

/// `text_lt` is irreflexive, asymmetric and total.
pub proof fn lemma_text_lt_strict(a: Seq<char>, b: Seq<char>)
    ensures
        !text_lt(a, a),
        text_lt(a, b) ==> !text_lt(b, a),
        a != b ==> text_lt(a, b) || text_lt(b, a),
    decreases a.len(),
{
    if a.len() > 0 {
        lemma_text_lt_strict(a.drop_first(), a.drop_first());
        if b.len() > 0 {
            vstd::utf8::char_u32_cast(a[0], a[0] as u32);
            vstd::utf8::char_u32_cast(b[0], b[0] as u32);
        }
        if b.len() > 0 && a[0] == b[0] {
            lemma_text_lt_strict(a.drop_first(), b.drop_first());
            if a.drop_first() == b.drop_first() {
                assert forall|i: int| 0 <= i < a.len() implies a[i] == b[i] by {
                    if i > 0 {
                        assert(a[i] == a.drop_first()[i - 1]);
                        assert(b[i] == b.drop_first()[i - 1]);
                    }
                }
                assert(a =~= b);
            }
        }
    } else if b.len() == 0 {
        assert(a =~= b);
    }
}

/// `text_lt` is transitive.
pub proof fn lemma_text_lt_trans(a: Seq<char>, b: Seq<char>, c: Seq<char>)
    requires
        text_lt(a, b),
        text_lt(b, c),
    ensures
        text_lt(a, c),
    decreases a.len(),
{
    if a.len() > 0 && a[0] == b[0] && b[0] == c[0] {
        lemma_text_lt_trans(a.drop_first(), b.drop_first(), c.drop_first());
    }
}

/// Three-way comparison of two texts by `text_lt`.
fn compare_text(a: &Vec<char>, b: &Vec<char>) -> (r: i8)
    ensures
        r < 0 <==> text_lt(a@, b@),
        r == 0 <==> a@ == b@,
        r > 0 <==> text_lt(b@, a@),
{
    let mut i: usize = 0;
    proof {
        assert(a@.skip(0) =~= a@);
        assert(b@.skip(0) =~= b@);
    }
    loop
        invariant
            i <= a@.len(),
            i <= b@.len(),
            forall|k: int| 0 <= k < i ==> a@[k] == b@[k],
            text_lt(a@, b@) == text_lt(a@.skip(i as int), b@.skip(i as int)),
            text_lt(b@, a@) == text_lt(b@.skip(i as int), a@.skip(i as int)),
        decreases a@.len() - i,
    {
        if i == a.len() || i == b.len() {
            proof {
                lemma_text_lt_strict(a@, b@);
                if a@.len() == b@.len() {
                    assert(a@ =~= b@);
                }
            }
            if i == a.len() && i == b.len() {
                return 0;
            } else if i == a.len() {
                return -1;
            } else {
                return 1;
            }
        }
        let x = a[i];
        let y = b[i];
        if x != y {
            proof {
                lemma_text_lt_strict(a@, b@);
            }
            if (x as u32) < (y as u32) {
                return -1;
            } else {
                return 1;
            }
        }
        proof {
            assert(a@.skip(i as int).drop_first() =~= a@.skip(i + 1));
            assert(b@.skip(i as int).drop_first() =~= b@.skip(i + 1));
        }
        i = i + 1;
    }
}

/// One entry of the candidate snapshot: an identity, unique within the
/// snapshot, and the candidate's normalized label.
pub struct Candidate {
    pub id: i64,
    pub label: Target,
}

impl Candidate {
    pub fn new(id: i64, label: Target) -> (r: Self)
        ensures
            r.id == id,
            r.label@ == label@,
    {
        Candidate { id, label }
    }
}

/// One entry of a ranking: the candidate's position in the snapshot, its
/// identity, its bucket and score, and the matched byte ranges of its label.
#[derive(Debug)]
pub struct Item {
    pub index: usize,
    pub id: i64,
    pub bucket: Bucket,
    pub score: Score,
    pub ranges: Vec<MatchRange>,
}

/// Entries are the same entry when they stand for the same candidate.
impl PartialEq for Item {
    fn eq(&self, other: &Item) -> (r: bool)
        ensures
            r == (self.id == other.id),
    {
        self.id == other.id
    }
}

impl vstd::std_specs::cmp::PartialEqSpecImpl for Item {
    open spec fn obeys_eq_spec() -> bool {
        true
    }

    open spec fn eq_spec(&self, other: &Item) -> bool {
        self.id == other.id
    }
}

/// `(index, id, bucket, score, ranges)` of an entry.
pub type EntryView = (usize, i64, Bucket, u16, Seq<MatchRange>);

impl View for Item {
    type V = EntryView;

    open spec fn view(&self) -> EntryView {
        (self.index, self.id, self.bucket, self.score.0, self.ranges@)
    }
}

/// The entry that candidate `x` of `c` gets for query `p`.
pub open spec fn entry_of(c: Seq<Candidate>, p: Seq<char>, x: int) -> EntryView {
    let k = classify_target(p, c[x].label@);
    (x as usize, c[x].id, k.0, k.1, k.2)
}

/// The order of a ranking: bucket priority, then score descending, then
/// label length in bytes, then label text, then identity, then position in
/// the snapshot.
pub open spec fn precedes(c: Seq<Candidate>, a: EntryView, b: EntryView) -> bool {
    let la = c[a.0 as int].label@;
    let lb = c[b.0 as int].label@;
    if bucket_priority(a.2) != bucket_priority(b.2) {
        bucket_priority(a.2) < bucket_priority(b.2)
    } else if a.3 != b.3 {
        a.3 > b.3
    } else if byte_len(la) != byte_len(lb) {
        byte_len(la) < byte_len(lb)
    } else if la != lb {
        text_lt(la, lb)
    } else if a.1 != b.1 {
        a.1 < b.1
    } else {
        a.0 < b.0
    }
}

/// `precedes` is a strict total order on entries of distinct positions.
pub proof fn lemma_precedes_order(c: Seq<Candidate>, a: EntryView, b: EntryView, d: EntryView)
    ensures
        !precedes(c, a, a),
        precedes(c, a, b) ==> !precedes(c, b, a),
        precedes(c, a, b) && precedes(c, b, d) ==> precedes(c, a, d),
        a.0 != b.0 ==> precedes(c, a, b) || precedes(c, b, a),
{
    let la = c[a.0 as int].label@;
    let lb = c[b.0 as int].label@;
    let ld = c[d.0 as int].label@;
    lemma_text_lt_strict(la, lb);
    lemma_text_lt_strict(lb, ld);
    lemma_text_lt_strict(la, ld);
    if text_lt(la, lb) && text_lt(lb, ld) {
        lemma_text_lt_trans(la, lb, ld);
    }
}

/// Some entry of `r` stands for candidate `x`.
pub open spec fn has_entry(r: Seq<Item>, x: int) -> bool {
    exists|k: int| 0 <= k < r.len() && (#[trigger] r[k])@.0 == x
}

/// `r` is the ranking of snapshot `c` for query `p`: one entry per
/// candidate, each with its classification, in strictly increasing order.
pub open spec fn is_ranking(c: Seq<Candidate>, p: Seq<char>, r: Seq<Item>) -> bool {
    &&& r.len() == c.len()
    &&& forall|k: int|
        0 <= k < r.len() ==> (#[trigger] r[k])@.0 < c.len() && r[k]@ == entry_of(
            c,
            p,
            r[k]@.0 as int,
        )
    &&& forall|x: int| 0 <= x < c.len() ==> #[trigger] has_entry(r, x)
    &&& forall|a: int, b: int|
        0 <= a < b < r.len() ==> #[trigger] precedes(c, r[a]@, r[b]@)
}

fn item_precedes(cands: &Vec<Candidate>, a: &Item, b: &Item) -> (r: bool)
    requires
        a.index < cands@.len(),
        b.index < cands@.len(),
    ensures
        r == precedes(cands@, a@, b@),
{
    let pa = priority(a.bucket);
    let pb = priority(b.bucket);
    if pa != pb {
        return pa < pb;
    }
    if a.score.0 != b.score.0 {
        return a.score.0 > b.score.0;
    }
    let la = &cands[a.index].label;
    let lb = &cands[b.index].label;
    let na = la.len();
    let nb = lb.len();
    if na != nb {
        return na < nb;
    }
    let o = compare_text(la.chars(), lb.chars());
    if o != 0 {
        return o < 0;
    }
    if a.id != b.id {
        return a.id < b.id;
    }
    a.index < b.index
}

/// Ranks every candidate of `cands` against `pattern`.
pub fn rank(cands: &Vec<Candidate>, pattern: &Pattern) -> (r: Vec<Item>)
    ensures
        is_ranking(cands@, pattern@, r@),
{
    let ghost c = cands@;
    let ghost p = pattern@;
    let n = cands.len();
    let mut out: Vec<Item> = Vec::new();
    let mut i: usize = 0;
    while i < n
        invariant
            c == cands@,
            p == pattern@,
            n == c.len(),
            i <= n,
            out@.len() == i,
            forall|k: int|
                0 <= k < out@.len() ==> (#[trigger] out@[k])@.0 < i && out@[k]@ == entry_of(
                    c,
                    p,
                    out@[k]@.0 as int,
                ),
            forall|x: int| 0 <= x < i ==> #[trigger] has_entry(out@, x),
            forall|a: int, b: int|
                0 <= a < b < out@.len() ==> #[trigger] precedes(c, out@[a]@, out@[b]@),
        decreases n - i,
    {
        let cand = &cands[i];
        let Scored { bucket, score, ranges } = score_target(pattern, &cand.label);
        let item = Item { index: i, id: cand.id, bucket, score, ranges };
        assert(item@ == entry_of(c, p, i as int));
        let mut pos: usize = 0;
        loop
            invariant
                c == cands@,
                pos <= out@.len(),
                item.index == i,
                i < n,
                n == c.len(),
                forall|k: int| 0 <= k < out@.len() ==> (#[trigger] out@[k])@.0 < i,
                forall|k: int| 0 <= k < pos ==> precedes(c, #[trigger] out@[k]@, item@),
            ensures
                pos <= out@.len(),
                forall|k: int| 0 <= k < pos ==> precedes(c, #[trigger] out@[k]@, item@),
                pos < out@.len() ==> precedes(c, item@, out@[pos as int]@),
            decreases out@.len() - pos,
        {
            if pos == out.len() {
                break ;
            }
            if item_precedes(cands, &item, &out[pos]) {
                break ;
            }
            proof {
                lemma_precedes_order(c, item@, out@[pos as int]@, item@);
            }
            pos = pos + 1;
        }
        let ghost old_out = out@;
        let ghost e = item@;
        out.insert(pos, item);
        proof {
            let q = pos as int;
            assert forall|k: int| 0 <= k < out@.len() implies (#[trigger] out@[k])@.0 < i + 1
                && out@[k]@ == entry_of(c, p, out@[k]@.0 as int) by {
                if k > q {
                    assert(out@[k] == old_out[k - 1]);
                } else if k < q {
                    assert(out@[k] == old_out[k]);
                }
            }
            assert forall|x: int| 0 <= x < i + 1 implies #[trigger] has_entry(out@, x) by {
                if x == i {
                    assert(out@[q]@.0 == x);
                } else {
                    assert(has_entry(old_out, x));
                    let k0 = choose|k: int| 0 <= k < old_out.len() && (#[trigger] old_out[k])@.0 == x;
                    if k0 < q {
                        assert(out@[k0] == old_out[k0]);
                    } else {
                        assert(out@[k0 + 1] == old_out[k0]);
                    }
                }
            }
            assert forall|a: int, b: int| 0 <= a < b < out@.len() implies #[trigger] precedes(
                c,
                out@[a]@,
                out@[b]@,
            ) by {
                if b < q {
                    assert(out@[a] == old_out[a] && out@[b] == old_out[b]);
                } else if b == q {
                    assert(out@[a] == old_out[a]);
                } else if a == q {
                    assert(out@[b] == old_out[b - 1]);
                    if b - 1 > q {
                        assert(precedes(c, old_out[q]@, old_out[b - 1]@));
                        lemma_precedes_order(c, e, old_out[q]@, old_out[b - 1]@);
                    }
                } else if a < q {
                    assert(out@[a] == old_out[a] && out@[b] == old_out[b - 1]);
                    if a < b - 1 {
                        assert(precedes(c, old_out[a]@, old_out[b - 1]@));
                    }
                } else {
                    assert(out@[a] == old_out[a - 1] && out@[b] == old_out[b - 1]);
                    assert(precedes(c, old_out[a - 1]@, old_out[b - 1]@));
                }
            }
        }
        i = i + 1;
    }
    out
}

proof fn lemma_same_prefix(c: Seq<Candidate>, p: Seq<char>, r1: Seq<Item>, r2: Seq<Item>, i: int)
    requires
        is_ranking(c, p, r1),
        is_ranking(c, p, r2),
        0 <= i <= r1.len(),
    ensures
        forall|k: int| 0 <= k < i ==> (#[trigger] r1[k])@ == r2[k]@,
    decreases i,
{
    if i > 0 {
        lemma_same_prefix(c, p, r1, r2, i - 1);
        let k = i - 1;
        let a = r1[k]@.0 as int;
        let b = r2[k]@.0 as int;
        if a != b {
            assert(has_entry(r2, a));
            let j = choose|j: int| 0 <= j < r2.len() && (#[trigger] r2[j])@.0 == a;
            assert(has_entry(r1, b));
            let j1 = choose|j: int| 0 <= j < r1.len() && (#[trigger] r1[j])@.0 == b;
            lemma_precedes_order(c, r1[k]@, r2[k]@, r1[k]@);
            if j < k {
                assert(r1[j]@ == r2[j]@);
                assert(precedes(c, r1[j]@, r1[k]@));
            } else if j1 < k {
                assert(r1[j1]@ == r2[j1]@);
                assert(precedes(c, r2[j1]@, r2[k]@));
            } else {
                assert(precedes(c, r2[k]@, r2[j]@));
                assert(precedes(c, r1[k]@, r1[j1]@));
            }
        }
    }
}

/// Ranking is deterministic: two rankings of one snapshot for one query
/// hold the same entries in the same order.
pub proof fn lemma_ranking_unique(c: Seq<Candidate>, p: Seq<char>, r1: Seq<Item>, r2: Seq<Item>)
    requires
        is_ranking(c, p, r1),
        is_ranking(c, p, r2),
    ensures
        r1.len() == r2.len(),
        forall|k: int| 0 <= k < r1.len() ==> (#[trigger] r1[k])@ == r2[k]@,
{
    lemma_same_prefix(c, p, r1, r2, r1.len() as int);
}

/// In a ranking, no entry of a lower-priority bucket comes before an entry
/// of a higher-priority bucket.
pub proof fn lemma_buckets_in_order(c: Seq<Candidate>, p: Seq<char>, r: Seq<Item>)
    requires
        is_ranking(c, p, r),
    ensures
        forall|a: int, b: int|
            0 <= a < b < r.len() ==> bucket_priority((#[trigger] r[a])@.2) <= bucket_priority(
                (#[trigger] r[b])@.2,
            ),
{
    assert forall|a: int, b: int| 0 <= a < b < r.len() implies bucket_priority(
        (#[trigger] r[a])@.2,
    ) <= bucket_priority((#[trigger] r[b])@.2) by {
        assert(precedes(c, r[a]@, r[b]@));
    }
}

/// Order of candidates `x` and `y` of `c` by label length in bytes, then
/// label text, then identity.
pub open spec fn label_order(c: Seq<Candidate>, x: int, y: int) -> bool {
    let lx = c[x].label@;
    let ly = c[y].label@;
    if byte_len(lx) != byte_len(ly) {
        byte_len(lx) < byte_len(ly)
    } else if lx != ly {
        text_lt(lx, ly)
    } else {
        c[x].id < c[y].id
    }
}

/// For an empty query, a ranking of a snapshot with distinct identities
/// holds every candidate once, with no range, and in label order.
pub proof fn lemma_empty_query(c: Seq<Candidate>, p: Seq<char>, r: Seq<Item>)
    requires
        p.len() == 0,
        forall|x: int, y: int| 0 <= x < y < c.len() ==> (#[trigger] c[x]).id != (#[trigger] c[y]).id,
        is_ranking(c, p, r),
    ensures
        r.len() == c.len(),
        forall|x: int| 0 <= x < c.len() ==> #[trigger] has_entry(r, x),
        forall|a: int, b: int| 0 <= a < b < r.len() ==> (#[trigger] r[a])@.0 != (#[trigger] r[b])@.0,
        forall|k: int|
            0 <= k < r.len() ==> (#[trigger] r[k])@.2 == Bucket::NoMatch && r[k]@.3 == 0
                && r[k]@.4.len() == 0,
        forall|a: int, b: int|
            0 <= a < b < r.len() ==> label_order(
                c,
                (#[trigger] r[a])@.0 as int,
                (#[trigger] r[b])@.0 as int,
            ),
{
    assert forall|a: int, b: int| 0 <= a < b < r.len() implies (#[trigger] r[a])@.0 != (
    #[trigger] r[b])@.0 && label_order(c, r[a]@.0 as int, r[b]@.0 as int) by {
        assert(precedes(c, r[a]@, r[b]@));
        lemma_precedes_order(c, r[a]@, r[b]@, r[a]@);
        let x = r[a]@.0 as int;
        let y = r[b]@.0 as int;
        if x < y {
            assert(c[x].id != c[y].id);
        } else if y < x {
            assert(c[y].id != c[x].id);
        }
    }
}

} // verus!
