use buffer_switcher::pattern::{MatchOutcome, MatchRange, Pattern, Target};

fn expect_matches(target: &str, pat: &str, expected: Vec<(std::ops::Range<usize>, usize)>) {
    let target = Target::from_str(target);
    let pat = Pattern::from_str(pat);

    let expected = expected
        .into_iter()
        .map(|(range, roffset)| MatchRange {
            start: range.start,
            end: range.end,
            roffset,
        })
        .collect::<Vec<_>>();

    let mut matches = Vec::new();
    let mut broken = false;
    let mut matcher = pat.test(&target);
    while let Some(outcome) = matcher.next() {
        match outcome {
            MatchOutcome::Partial(item) => {
                matches.push(item);
            }
            MatchOutcome::Decisive(item) => {
                matches.push(item);
                broken = true;
                break;
            }
        }
    }

    if broken {
        assert_eq!(expected, matches);
    } else {
        assert_eq!(expected, Vec::<MatchRange>::new());
    }
}

#[test]
fn no_matches() {
    expect_matches("", "", vec![]);
    expect_matches("foo", "", vec![]);
    expect_matches("", "foo", vec![]);

    expect_matches("abcd", "xyz", vec![]);
    expect_matches("abcd", "zbcd", vec![]);
    expect_matches("abcd", "zd", vec![]);
    expect_matches("abcd", "zabcd", vec![]);
    expect_matches("abcd", "zacd", vec![]);
}

#[test]
fn substr() {
    expect_matches("abcd", "d", vec![(3..4, 0)]);
    expect_matches("abcd", "cd", vec![(2..4, 0)]);
    expect_matches("abcd", "abcd", vec![(0..4, 0)]);

    expect_matches("abcd", "c", vec![(2..3, 1)]);
    expect_matches("abcd", "bc", vec![(1..3, 1)]);
    expect_matches("abcd", "ab", vec![(0..2, 2)]);

    // The scan starts at the rightmost 'c': "bc" at the end is one run,
    // then 'a' is found further left; the earlier "abc" is not looked for.
    expect_matches("abcdbc", "abc", vec![(4..6, 0), (0..1, 5)]);
}

#[test]
fn fuzzy() {
    expect_matches("abcdefgh", "ac", vec![(2..3, 5), (0..1, 7)]);
    expect_matches("abcdefgh", "cdfgh", vec![(5..8, 0), (2..4, 4)]);
    expect_matches("abcdefgh", "abch", vec![(7..8, 0), (0..3, 5)]);
}

#[test]
fn normalization() {
    expect_matches("ABCD", "abcd", vec![(0..4, 0)]);
    expect_matches("A\tB\0\u{3}CD", "a bcd", vec![(0..5, 0)]);
    expect_matches("ΑΒΗ", "αβη", vec![(0..("ΑΒΗ".len()), 0)]);

    expect_matches("aBH", "Abh", vec![]);
    expect_matches("ABH", "Abh", vec![(0..3, 0)]);
    expect_matches("αΒΗ", "Αβη", vec![]);
    expect_matches("ΑΒΗ", "Αβη", vec![(0..("ΑΒΗ".len()), 0)]);
}

#[test]
fn pattern_is_empty() {
    assert!(Pattern::from_str("").is_empty());
    assert!(Pattern::from_str("\0\0\0").is_empty());
    assert!(!Pattern::from_str("abc").is_empty());
}

#[test]
fn matcher_reports_partial_runs_before_giving_up() {
    let target = Target::from_str("abcd");
    let pat = Pattern::from_str("zbcd");
    let mut matcher = pat.test(&target);
    assert_eq!(
        matcher.next(),
        Some(MatchOutcome::Partial(MatchRange { start: 1, end: 4, roffset: 0 }))
    );
    assert_eq!(matcher.next(), None);
    assert_eq!(matcher.next(), None);
}

#[test]
fn ranges_are_byte_offsets() {
    // 'é' takes two bytes, so "xy" after it starts at byte 2.
    let target = Target::from_str("éxy");
    let pat = Pattern::from_str("xy");
    let mut matcher = pat.test(&target);
    assert_eq!(
        matcher.next(),
        Some(MatchOutcome::Decisive(MatchRange { start: 2, end: 4, roffset: 0 }))
    );
}
