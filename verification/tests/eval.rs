use asr_core::eval::{compute_cer_counts, compute_wer_counts, match_timed_words, normalize_text};

fn wer(reference: &str, hypothesis: &str) -> f64 {
    let c = compute_wer_counts(reference, hypothesis);
    if c.ref_words == 0 {
        c.hyp_words as f64
    } else {
        c.distance as f64 / c.ref_words as f64
    }
}

fn cer(reference: &str, hypothesis: &str) -> f64 {
    let c = compute_cer_counts(reference, hypothesis);
    if c.ref_chars == 0 {
        c.hyp_chars as f64
    } else {
        c.edits as f64 / c.ref_chars as f64
    }
}

struct Timed {
    word: &'static str,
    start: f64,
}

fn tw(word: &'static str, start: f64) -> Timed {
    Timed { word, start }
}

/// (matched, mae, median, max) of start deltas, or `None` statistics when nothing matched.
fn accuracy(predicted: &[Timed], reference: &[Timed]) -> (usize, Option<f64>, Option<f64>, Option<f64>) {
    let p: Vec<String> = predicted.iter().map(|t| t.word.to_string()).collect();
    let r: Vec<String> = reference.iter().map(|t| t.word.to_string()).collect();
    let pairs = match_timed_words(&p, &r);
    if pairs.is_empty() {
        return (0, None, None, None);
    }
    let mut d: Vec<f64> = pairs
        .iter()
        .map(|(i, j)| (predicted[*i].start - reference[*j].start).abs())
        .collect();
    let sum: f64 = d.iter().sum();
    let max = d.iter().cloned().fold(f64::MIN, f64::max);
    d.sort_by(|a, b| a.partial_cmp(b).unwrap());
    let k = d.len();
    let median = if k % 2 == 1 { d[k / 2] } else { (d[k / 2 - 1] + d[k / 2]) / 2.0 };
    (k, Some(sum / k as f64), Some(median), Some(max))
}

#[test]
fn normalize_strips_punct_and_case() {
    assert_eq!(normalize_text("Hello, World!"), "hello world");
    assert_eq!(normalize_text("  multiple   spaces  "), "multiple spaces");
}

#[test]
fn wer_perfect_match_is_zero() {
    let c = compute_wer_counts("the quick brown fox", "the quick brown fox");
    assert_eq!(wer("the quick brown fox", "the quick brown fox"), 0.0);
    assert_eq!(c.ref_words, 4);
    assert_eq!((c.substitutions, c.insertions, c.deletions), (0, 0, 0));
}

#[test]
fn wer_counts_sub_ins_del() {
    let c = compute_wer_counts("a b c d", "a x c d e");
    assert_eq!(c.substitutions, 1);
    assert_eq!(c.insertions, 1);
    assert_eq!(c.deletions, 0);
    assert_eq!(c.ref_words, 4);
    assert!((wer("a b c d", "a x c d e") - 0.5).abs() < 1e-9);
}

#[test]
fn wer_empty_reference() {
    let c = compute_wer_counts("", "two words");
    assert_eq!(c.insertions, 2);
    assert_eq!(wer("", "two words"), 2.0);
}

#[test]
fn cer_korean_chars() {
    let c = compute_cer_counts("안녕하세요", "안뇽하세요");
    assert_eq!(c.ref_chars, 5);
    assert_eq!(c.edits, 1);
    assert!((cer("안녕하세요", "안뇽하세요") - 0.2).abs() < 1e-9);
}

#[test]
fn timestamp_accuracy_greedy() {
    let reference = vec![tw("the", 0.0), tw("cat", 1.0), tw("sat", 2.0)];
    let predicted = vec![tw("the", 0.1), tw("cat", 1.2), tw("sat", 1.9)];
    let (n, mae, median, max) = accuracy(&predicted, &reference);
    assert_eq!(n, 3);
    assert!((mae.unwrap() - 0.4 / 3.0).abs() < 1e-9);
    assert!((median.unwrap() - 0.1).abs() < 1e-9);
    assert!((max.unwrap() - 0.2).abs() < 1e-9);
}

#[test]
fn timestamp_accuracy_no_match() {
    let reference = vec![tw("alpha", 0.0)];
    let predicted = vec![tw("zzz", 0.0)];
    let (n, mae, _, _) = accuracy(&predicted, &reference);
    assert_eq!(n, 0);
    assert!(mae.is_none());
}

#[test]
fn wer_parts_add_up_to_distance() {
    let c = compute_wer_counts("one two three four five", "one too three five six seven");
    assert_eq!(c.distance, c.substitutions + c.insertions + c.deletions);
    assert_eq!(c.distance, 4);
}

#[test]
fn wer_prefers_substitution_on_ties() {
    let c = compute_wer_counts("a b", "c d");
    assert_eq!((c.distance, c.substitutions, c.insertions, c.deletions), (2, 2, 0, 0));
    let c = compute_wer_counts("a b c", "a");
    assert_eq!((c.distance, c.substitutions, c.insertions, c.deletions), (2, 0, 0, 2));
}

#[test]
fn wer_normalises_before_counting() {
    let c = compute_wer_counts("Hello, WORLD!", "hello world");
    assert_eq!(c.distance, 0);
}

#[test]
fn cer_ignores_whitespace() {
    let c = compute_cer_counts("오늘 회의", "오늘회의");
    assert_eq!(c.edits, 0);
    assert_eq!((c.ref_chars, c.hyp_chars), (4, 4));
    let c = compute_cer_counts("", "ab");
    assert_eq!((c.edits, c.ref_chars, c.hyp_chars), (2, 0, 2));
}

#[test]
fn greedy_match_looks_three_ahead() {
    let p: Vec<String> = vec!["d".into(), "a".into()];
    let r: Vec<String> = vec!["a".into(), "b".into(), "c".into(), "d".into()];
    // "d" is four ahead of the cursor: out of reach; then "a" matches at 0.
    assert_eq!(match_timed_words(&p, &r), vec![(1, 0)]);
    let p: Vec<String> = vec!["c".into(), "d".into(), "...".into()];
    assert_eq!(match_timed_words(&p, &r), vec![(0, 2), (1, 3)]);
}

#[test]
fn normalised_text_is_canonical() {
    for t in ["  Hello,   World!! ", "Don't—stop_me-now", "", "...", "안녕 하세요?\tHi\n"] {
        let r = normalize_text(t);
        assert_eq!(normalize_text(&r), r);
        assert_eq!(r.trim(), r);
        assert!(!r.contains("  "));
        assert!(r.chars().all(|c| c == ' ' || c.is_alphanumeric() || c == '_' || c == '-' || c == '\''));
    }
}

#[test]
fn deletions_minus_insertions_is_the_length_difference() {
    for (r, h) in [("a b c d", "a x c d e"), ("one two three", "two"), ("", "x y"), ("p q", "")] {
        let c = compute_wer_counts(r, h);
        assert_eq!(c.deletions as i64 - c.insertions as i64, c.ref_words as i64 - c.hyp_words as i64);
    }
}

#[test]
fn whitespace_matches_the_standard_library() {
    for u in 0u32..=0x10FFFF {
        if let Some(c) = char::from_u32(u) {
            assert_eq!(asr_core::text::char_is_whitespace(c), c.is_whitespace(), "U+{u:04X}");
            if c.is_whitespace() {
                assert!(!c.is_alphanumeric(), "U+{u:04X}");
            }
        }
    }
}
