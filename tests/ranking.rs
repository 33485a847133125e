use buffer_switcher::pattern::{MatchRange, Pattern, Target};
use buffer_switcher::rank::{rank, Candidate, Item};
use buffer_switcher::score::{score_target, Bucket, Score, MAX_SCORE};

fn snapshot(labels: &[(i64, &str)]) -> Vec<Candidate> {
    labels
        .iter()
        .map(|(id, label)| Candidate::new(*id, Target::from_str(label)))
        .collect()
}

fn labels_in_order<'a>(cands: &'a [Candidate], items: &[Item]) -> Vec<&'a str> {
    items
        .iter()
        .map(|item| cands[item.index].label.display_name())
        .collect()
}

#[test]
fn suffix_matches_rank_first_by_length() {
    let cands = snapshot(&[(1, "src/main.ext"), (2, "README.doc"), (3, "src/lib.ext")]);
    let items = rank(&cands, &Pattern::from_str("ext"));
    assert_eq!(
        labels_in_order(&cands, &items),
        vec!["src/lib.ext", "src/main.ext", "README.doc"]
    );
    assert_eq!(items[0].bucket, Bucket::SuffixExact);
    assert_eq!(items[0].score, Score(MAX_SCORE));
    assert_eq!(items[0].id, 3);
    assert_eq!(items[1].bucket, Bucket::SuffixExact);
    assert_eq!(items[1].ranges, vec![MatchRange { start: 9, end: 12, roffset: 0 }]);
    assert_eq!(items[2].bucket, Bucket::NoMatch);
    assert_eq!(items[2].score, Score(0));
    assert!(items[2].ranges.is_empty());
}

#[test]
fn fuzzy_score_subtracts_last_roffset_and_length() {
    let target = Target::from_str("abcdefgh");
    let scored = score_target(&Pattern::from_str("ac"), &target);
    assert_eq!(scored.bucket, Bucket::FuzzySubsequence);
    assert_eq!(scored.score, Score(MAX_SCORE - 8));
    assert_eq!(
        scored.ranges,
        vec![
            MatchRange { start: 2, end: 3, roffset: 5 },
            MatchRange { start: 0, end: 1, roffset: 7 },
        ]
    );
}

#[test]
fn lowercase_query_matches_uppercase_label() {
    let scored = score_target(&Pattern::from_str("abcd"), &Target::from_str("ABCD"));
    assert_eq!(scored.bucket, Bucket::SuffixExact);
    assert_eq!(scored.score, Score(MAX_SCORE));
    assert_eq!(scored.ranges, vec![MatchRange { start: 0, end: 4, roffset: 0 }]);
}

#[test]
fn uppercase_query_character_needs_exact_case() {
    let scored = score_target(&Pattern::from_str("Abh"), &Target::from_str("aBH"));
    assert_eq!(scored.bucket, Bucket::NoMatch);
    assert_eq!(scored.score, Score(0));
    assert!(scored.ranges.is_empty());
}

#[test]
fn substring_score_subtracts_roffset() {
    let scored = score_target(&Pattern::from_str("bc"), &Target::from_str("abcd"));
    assert_eq!(scored.bucket, Bucket::SubstringExact);
    assert_eq!(scored.score, Score(MAX_SCORE - 1));
    assert_eq!(scored.ranges, vec![MatchRange { start: 1, end: 3, roffset: 1 }]);
}

#[test]
fn empty_query_lists_everything_by_length_text_and_id() {
    let cands = snapshot(&[(5, "bb"), (4, "a"), (3, "ab"), (2, "c"), (1, "bb")]);
    let items = rank(&cands, &Pattern::from_str("\u{0}\u{1}"));
    assert_eq!(items.len(), 5);
    let ids: Vec<i64> = items.iter().map(|item| item.id).collect();
    assert_eq!(ids, vec![4, 2, 3, 1, 5]);
    for item in &items {
        assert_eq!(item.bucket, Bucket::NoMatch);
        assert_eq!(item.score, Score(0));
        assert!(item.ranges.is_empty());
    }
}

#[test]
fn empty_snapshot_gives_empty_ranking() {
    let items = rank(&Vec::new(), &Pattern::from_str("abc"));
    assert!(items.is_empty());
}

#[test]
fn buckets_come_in_priority_order() {
    let cands = snapshot(&[
        (1, "zzz"),
        (2, "a-x-b"),
        (3, "xab-long-tail"),
        (4, "the-ab"),
        (5, "ab-x"),
    ]);
    let items = rank(&cands, &Pattern::from_str("ab"));
    let buckets: Vec<Bucket> = items.iter().map(|item| item.bucket).collect();
    assert_eq!(
        buckets,
        vec![
            Bucket::SuffixExact,
            Bucket::SubstringExact,
            Bucket::SubstringExact,
            Bucket::FuzzySubsequence,
            Bucket::NoMatch,
        ]
    );
    let ids: Vec<i64> = items.iter().map(|item| item.id).collect();
    // "ab-x" ends two bytes before the label's end, "xab-long-tail" ten.
    assert_eq!(ids, vec![4, 5, 3, 2, 1]);
}

#[test]
fn ranking_twice_gives_the_same_output() {
    let cands = snapshot(&[(1, "src/a.ext"), (2, "src/b.ext"), (3, "lib/x.doc"), (4, "t")]);
    let pattern = Pattern::from_str("s.e");
    let first = rank(&cands, &pattern);
    let second = rank(&cands, &pattern);
    assert_eq!(first.len(), second.len());
    for (a, b) in first.iter().zip(second.iter()) {
        assert_eq!(a.index, b.index);
        assert_eq!(a.id, b.id);
        assert_eq!(a.bucket, b.bucket);
        assert_eq!(a.score, b.score);
        assert_eq!(a.ranges, b.ranges);
    }
}

#[test]
fn equal_labels_are_ordered_by_identity() {
    let cands = snapshot(&[(9, "x.ext"), (2, "x.ext"), (5, "x.ext")]);
    let items = rank(&cands, &Pattern::from_str("ext"));
    let ids: Vec<i64> = items.iter().map(|item| item.id).collect();
    assert_eq!(ids, vec![2, 5, 9]);
}

#[test]
fn score_with_penalty_saturates() {
    assert_eq!(Score::with_penalty(0), Score(MAX_SCORE));
    assert_eq!(Score::with_penalty(8), Score(65527));
    assert_eq!(Score::with_penalty(65535), Score(0));
    assert_eq!(Score::with_penalty(70000), Score(0));
    assert_eq!(Score::with_penalty(usize::MAX), Score(0));
}

#[test]
fn suffix_match_of_every_length_is_best() {
    let target = Target::from_str("Dir/Sub/File.Ext");
    for q in ["t", "xt", "ext", "File.Ext", "dir/sub/file.ext"] {
        let scored = score_target(&Pattern::from_str(q), &target);
        assert_eq!(scored.bucket, Bucket::SuffixExact, "query {q}");
        assert_eq!(scored.score, Score(MAX_SCORE));
        let total: usize = scored.ranges.iter().map(|r| r.end - r.start).sum();
        assert_eq!(total, q.len());
    }
}

#[test]
fn entries_are_equal_by_identity() {
    let cands = snapshot(&[(7, "a.ext"), (8, "b.doc")]);
    let by_ext = rank(&cands, &Pattern::from_str("ext"));
    let by_doc = rank(&cands, &Pattern::from_str("doc"));
    assert!(by_ext[0] == by_doc[1]);
    assert!(by_ext[0] != by_doc[0]);
    assert_ne!(by_ext[0].bucket, by_doc[1].bucket);
}
