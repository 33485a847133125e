use buffer_switcher::norm::{NormAlloc, NormInplace};
use buffer_switcher::pattern::{eq_char, Pattern, Target};
use buffer_switcher::text::{char_width, filter_char};

#[test]
fn whitespace_runs_collapse_to_one_space() {
    let t = Target::from_str("a \t\n b");
    assert_eq!(t.display_name(), "a b");
    let t = Target::from_str("a \u{0} b");
    assert_eq!(t.display_name(), "a b");
}

#[test]
fn control_characters_are_dropped_and_case_kept() {
    let t = Target::from_str("\u{1}Ab\u{7f}C\u{9f}");
    assert_eq!(t.display_name(), "AbC");
}

#[test]
fn unicode_whitespace_becomes_ascii_space() {
    let t = Target::from_str("a\u{3000}b\u{a0}c\u{85}d");
    assert_eq!(t.display_name(), "a b c d");
}

#[test]
fn empty_input_gives_empty_text() {
    let t = Target::from_str("");
    assert_eq!(t.display_name(), "");
    assert_eq!(t.len(), 0);
}

#[test]
fn label_length_is_in_bytes() {
    let t = Target::from_str("ΑΒΗ");
    assert_eq!(t.len(), 6);
    let t = Target::from_str("a\u{1F600}");
    assert_eq!(t.len(), 5);
}

#[test]
fn filter_char_maps_each_class() {
    assert_eq!(filter_char('\t'), Some(' '));
    assert_eq!(filter_char('\u{2028}'), Some(' '));
    assert_eq!(filter_char('\0'), None);
    assert_eq!(filter_char('\u{9f}'), None);
    assert_eq!(filter_char('x'), Some('x'));
}

#[test]
fn char_width_counts_utf8_bytes() {
    assert_eq!(char_width('a'), 1);
    assert_eq!(char_width('é'), 2);
    assert_eq!(char_width('€'), 3);
    assert_eq!(char_width('\u{1F600}'), 4);
}

#[test]
fn target_built_by_pieces() {
    let mut t = Target::with_capacity(8);
    t.push('~');
    t.push_str("/src\t\tmain.ext");
    assert_eq!(t.display_name(), "~/src main.ext");
    t.push(' ');
    t.push('\n');
    assert_eq!(t.display_name(), "~/src main.ext ");
}

#[test]
fn norm_alloc_char_indices() {
    let n = NormAlloc::from_str("aé\u{0}b");
    assert_eq!(n.as_str(), "aéb");
    assert_eq!(n.len(), 4);
    assert_eq!(n.char_indices(), vec![(0, 'a'), (1, 'é'), (3, 'b')]);
}

#[test]
fn norm_inplace_views_the_normalized_query() {
    let q = NormInplace::from_str("\u{1} a\t\tb \u{2}");
    assert!(!q.is_empty());
    assert_eq!(q.chars(), vec![' ', 'a', ' ', 'b', ' ']);
    assert!(NormInplace::from_str("\u{1}\u{2}").is_empty());
    assert!(!NormInplace::from_str("\u{1} ").is_empty());
}

#[test]
fn pattern_of_whitespace_is_not_empty() {
    assert!(!Pattern::from_str(" ").is_empty());
}

#[test]
fn case_rule_is_decided_by_the_pattern() {
    assert!(eq_char('A', 'a'));
    assert!(eq_char('a', 'a'));
    assert!(!eq_char('a', 'A'));
    assert!(eq_char('A', 'A'));
    assert!(eq_char('Σ', 'σ'));
    assert!(!eq_char('b', 'a'));
}

#[test]
fn owned_and_viewed_normal_forms_agree() {
    for raw in ["", " x\t\ty ", "\u{0}a\u{85}\u{2029}b", "ΑΒΗ  \u{1}"] {
        let owned = NormAlloc::from_str(raw);
        let viewed: String = NormInplace::from_str(raw).chars().into_iter().collect();
        assert_eq!(owned.as_str(), viewed);
    }
}
