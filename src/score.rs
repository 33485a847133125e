//! Reduction of one label's match outcomes to a bucket, a score and ranges.
use vstd::prelude::*;

use crate::pattern::{
    chars_match, lemma_outcomes_shape, lemma_suffix_match, outcomes, MatchOutcome, MatchRange, Pattern, Target,
};

verus! {

/// The best score; a candidate's score is this minus its penalty.
pub const MAX_SCORE: u16 = 65535;

/// A score: larger is better.
#[derive(Clone, Copy, Debug, PartialEq, Eq, Structural)]
pub struct Score(pub u16);

/// `MAX_SCORE - penalty`, or 0 where the penalty reaches `MAX_SCORE`.
pub open spec fn score_with_penalty(penalty: int) -> u16 {
    if penalty >= MAX_SCORE {
        0
    } else {
        (MAX_SCORE - penalty) as u16
    }
}

impl Score {
    pub fn with_penalty(penalty: usize) -> (r: Score)
        ensures
            r.0 == score_with_penalty(penalty as int),
    {
        if penalty >= MAX_SCORE as usize {
            Score(0)
        } else {
            Score(MAX_SCORE - penalty as u16)
        }
    }
}

/// The four classes of candidates, listed from the highest priority down.
#[derive(Clone, Copy, Debug, PartialEq, Eq, Structural)]
pub enum Bucket {
    /// The query matches the end of the label in one run.
    SuffixExact,
    /// The query matches elsewhere in the label in one run.
    SubstringExact,
    /// The query matches in several runs, right to left.
    FuzzySubsequence,
    /// The query does not match, or is empty.
    NoMatch,
}

/// Position of a bucket in the output: 0 comes first.
pub open spec fn bucket_priority(b: Bucket) -> int {
    match b {
        Bucket::SuffixExact => 0,
        Bucket::SubstringExact => 1,
        Bucket::FuzzySubsequence => 2,
        Bucket::NoMatch => 3,
    }
}

pub fn priority(b: Bucket) -> (r: u8)
    ensures
        r == bucket_priority(b),
{
    match b {
        Bucket::SuffixExact => 0,
        Bucket::SubstringExact => 1,
        Bucket::FuzzySubsequence => 2,
        Bucket::NoMatch => 3,
    }
}

/// The classification of one label.
#[derive(Debug)]
pub struct Scored {
    pub bucket: Bucket,
    pub score: Score,
    pub ranges: Vec<MatchRange>,
}

/// The ranges of a sequence of outcomes, in order.
pub open spec fn ranges_of(outs: Seq<MatchOutcome>) -> Seq<MatchRange> {
    outs.map_values(|o: MatchOutcome| o.range())
}

/// The bucket, score and ranges that a sequence of outcomes stands for.
pub open spec fn classify(outs: Seq<MatchOutcome>) -> (Bucket, u16, Seq<MatchRange>) {
    if outs.len() == 0 {
        (Bucket::NoMatch, 0, Seq::empty())
    } else {
        match outs[0] {
            MatchOutcome::Decisive(r) => {
                if r.roffset == 0 {
                    (Bucket::SuffixExact, MAX_SCORE, seq![r])
                } else {
                    (Bucket::SubstringExact, score_with_penalty(r.roffset as int), seq![r])
                }
            },
            MatchOutcome::Partial(_) => {
                match outs.last() {
                    MatchOutcome::Decisive(r) => (
                        Bucket::FuzzySubsequence,
                        score_with_penalty(r.roffset + (r.end - r.start)),
                        ranges_of(outs),
                    ),
                    MatchOutcome::Partial(_) => (Bucket::NoMatch, 0, Seq::empty()),
                }
            },
        }
    }
}

/// The classification of label `t` for query `p`.
pub open spec fn classify_target(p: Seq<char>, t: Seq<char>) -> (Bucket, u16, Seq<MatchRange>) {
    classify(outcomes(p, t))
}

impl Scored {
    pub open spec fn view_tuple(&self) -> (Bucket, u16, Seq<MatchRange>) {
        (self.bucket, self.score.0, self.ranges@)
    }
}

/// Runs the matcher of `pattern` on `target` and classifies its outcomes.
pub fn score_target(pattern: &Pattern, target: &Target) -> (r: Scored)
    ensures
        r.view_tuple() == classify_target(pattern@, target@),
{
    let ghost outs = outcomes(pattern@, target@);
    let mut m = pattern.test(target);
    let target_len = target.len();
    proof {
        lemma_outcomes_shape(pattern@, target@);
    }
    match m.next() {
        None => Scored { bucket: Bucket::NoMatch, score: Score(0), ranges: Vec::new() },
        Some(MatchOutcome::Decisive(r)) => {
            if r.roffset == 0 {
                Scored {
                    bucket: Bucket::SuffixExact,
                    score: Score(MAX_SCORE),
                    ranges: vec![r],
                }
            } else {
                Scored {
                    bucket: Bucket::SubstringExact,
                    score: Score::with_penalty(r.roffset),
                    ranges: vec![r],
                }
            }
        },
        Some(MatchOutcome::Partial(r)) => {
            let mut ranges: Vec<MatchRange> = vec![r];
            proof {
                assert(outs.drop_first() =~= outs.skip(1));
            }
            loop
                invariant
                    m.wf(),
                    outs == outcomes(pattern@, target@),
                    outs.len() > 0,
                    outs[0] is Partial,
                    1 <= ranges@.len() <= outs.len(),
                    forall|i: int| 0 <= i < ranges@.len() ==> ranges@[i] == (#[trigger] outs[i]).range(),
                    forall|i: int| 0 <= i < ranges@.len() ==> (#[trigger] outs[i]) is Partial,
                    m.remaining() == outs.skip(ranges@.len() as int),
                    forall|i: int|
                        0 <= i < outs.len() ==> {
                            let r = (#[trigger] outs[i]).range();
                            r.start <= r.end && r.end + r.roffset <= usize::MAX
                        },
                    forall|i: int|
                        0 <= i < outs.len() && (#[trigger] outs[i] is Decisive) ==> i == outs.len()
                            - 1,
                decreases m.remaining().len(),
            {
                let ghost n = ranges@.len() as int;
                match m.next() {
                    None => {
                        proof {
                            assert(outs.len() == n);
                            assert(outs.last() == outs[n - 1]);
                        }
                        return Scored { bucket: Bucket::NoMatch, score: Score(0), ranges: Vec::new() };
                    },
                    Some(MatchOutcome::Decisive(r)) => {
                        proof {
                            assert(outs[n] == MatchOutcome::Decisive(r));
                        }
                        ranges.push(r);
                        let score = Score::with_penalty(r.roffset + (r.end - r.start));
                        proof {
                            assert(outs.len() == n + 1);
                            assert(ranges@ =~= ranges_of(outs));
                        }
                        return Scored { bucket: Bucket::FuzzySubsequence, score, ranges };
                    },
                    Some(MatchOutcome::Partial(r)) => {
                        proof {
                            assert(outs[n] == MatchOutcome::Partial(r));
                            assert(outs.skip(n).drop_first() =~= outs.skip(n + 1));
                        }
                        ranges.push(r);
                    },
                }
            }
        },
    }
}

/// A non-empty query that matches a trailing run of a label, character by
/// character under the case rule, puts the label in `SuffixExact` with the
/// best score.
pub proof fn lemma_suffix_is_best(p: Seq<char>, t: Seq<char>)
    requires
        0 < p.len() <= t.len(),
        forall|i: int| 0 <= i < p.len() ==> chars_match(#[trigger] t[t.len() - p.len() + i], p[i]),
    ensures
        classify_target(p, t).0 == Bucket::SuffixExact,
        classify_target(p, t).1 == MAX_SCORE,
{
    lemma_suffix_match(p, t);
}

} // verus!
