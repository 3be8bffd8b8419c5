use asr_core::cleanup::{
    clean_transcript_text, collapse_immediate_repeats, is_noise_punct, is_short_filler_word,
    likely_repetitive_hallucination, normalize_word_for_overlap, normalized_words,
};
use asr_core::window::{
    longest_recent_match, plan_window, suffix_prefix_overlap, transcript_words, words_to_text, WindowStep,
};

#[test]
fn repeated_filler_is_filtered() {
    let text = "아, 아, 아, 아, 아, 아, 아, 아, 아, 아, 아, 아";
    assert_eq!(clean_transcript_text(text), "");
}

#[test]
fn short_filler_is_filtered() {
    assert_eq!(clean_transcript_text("아"), "");
    assert_eq!(clean_transcript_text("아, 어"), "");
}

#[test]
fn normal_text_is_kept() {
    let text = "오늘 회의에서는 Q5 모델 성능을 테스트합니다.";
    assert_eq!(clean_transcript_text(text), text);
}

#[test]
fn sentence_with_filler_prefix_is_kept() {
    let text = "아 오늘 회의에서는 성능을 테스트합니다.";
    assert_eq!(clean_transcript_text(text), text);
}

#[test]
fn recent_match_finds_duplicate_phrase() {
    let committed = ["이번", "스프린트", "할", "일", "나누고", "QA랑"]
        .into_iter()
        .map(normalize_word_for_overlap)
        .collect::<Vec<_>>();
    let words = transcript_words("이번 스프린트 할 일 나누고 QA랑 데모");
    assert_eq!(longest_recent_match(&committed, &words, 0), 6);
}

#[test]
fn overlap_normalisation() {
    assert_eq!(normalize_word_for_overlap("Hello,"), "hello");
    assert_eq!(normalize_word_for_overlap("QA랑"), "qa랑");
    assert_eq!(normalize_word_for_overlap("..."), "");
    assert_eq!(normalized_words("Hi, there ... you"), vec!["hi", "there", "you"]);
}

#[test]
fn noise_punctuation_and_fillers() {
    assert!(is_noise_punct(','));
    assert!(is_noise_punct('…'));
    assert!(!is_noise_punct('a'));
    assert!(is_short_filler_word("아"));
    assert!(is_short_filler_word("음"));
    assert!(!is_short_filler_word("음,"));
    assert!(!is_short_filler_word("오늘"));
}

#[test]
fn repeats_collapse_to_one() {
    assert_eq!(collapse_immediate_repeats("네 네 네 네 알겠습니다"), "네 알겠습니다");
    assert_eq!(collapse_immediate_repeats("네 네 네 알겠습니다"), "네 네 네 알겠습니다");
    assert_eq!(collapse_immediate_repeats("a b a b"), "a b a b");
}

#[test]
fn hallucination_detector() {
    assert!(likely_repetitive_hallucination("아, 아, 아, 아, 아, 아, 아, 아, 아, 아, 아, 아"));
    assert!(!likely_repetitive_hallucination("오늘 회의에서는 Q5 모델 성능을 테스트합니다."));
}

#[test]
fn window_words_round_trip() {
    let words = transcript_words("  Hello,   world ... again ");
    assert_eq!(words.len(), 3);
    assert_eq!(words[0].text, "Hello,");
    assert_eq!(words[0].norm, "hello");
    assert_eq!(words_to_text(&words), "Hello, world again");
}

#[test]
fn overlap_of_committed_tail_and_window_head() {
    let committed: Vec<String> = vec!["a".into(), "b".into(), "c".into()];
    let words = transcript_words("b c d");
    assert_eq!(suffix_prefix_overlap(&committed, &words), 2);
    let words = transcript_words("x y");
    assert_eq!(suffix_prefix_overlap(&committed, &words), 0);
}

fn strs(v: &[&str]) -> Vec<String> {
    v.iter().map(|x| x.to_string()).collect()
}

#[test]
fn window_plan_commits_after_the_overlap_and_holds_back() {
    let mut committed = strs(&["x", "y"]);
    let words = transcript_words("Y, z w");
    let plan = plan_window(&mut committed, &words, false, false, 1);
    assert_eq!(plan.steps, vec![WindowStep::Commit(1)]);
    assert_eq!(plan.buffer_start, 2);
    assert_eq!(committed, strs(&["x", "y", "z"]));
}

#[test]
fn window_plan_skips_long_repeats() {
    let mut committed = strs(&["a", "b", "c", "d", "x"]);
    let words = transcript_words("q a b c d e");
    let plan = plan_window(&mut committed, &words, false, true, 1);
    assert_eq!(plan.steps, vec![WindowStep::Commit(0), WindowStep::Skip(4), WindowStep::Commit(5)]);
    assert_eq!(plan.buffer_start, 6);
    assert_eq!(committed, strs(&["a", "b", "c", "d", "x", "q", "e"]));
}

#[test]
fn window_plan_waits_when_a_fresh_window_does_not_overlap() {
    let mut committed = strs(&["a"]);
    let words = transcript_words("b c");
    let plan = plan_window(&mut committed, &words, true, false, 1);
    assert!(plan.steps.is_empty());
    assert_eq!(plan.buffer_start, 0);
    assert_eq!(committed, strs(&["a"]));
    // the final window is taken in regardless
    let plan = plan_window(&mut committed, &words, true, true, 1);
    assert_eq!(plan.steps, vec![WindowStep::Commit(0), WindowStep::Commit(1)]);
    assert_eq!(plan.buffer_start, 2);
}

#[test]
fn window_plan_keeps_everything_pending_inside_the_overlap() {
    let mut committed = strs(&["a", "b"]);
    let words = transcript_words("a b c");
    let plan = plan_window(&mut committed, &words, false, false, 1);
    assert!(plan.steps.is_empty());
    assert_eq!(plan.buffer_start, 2);
    assert_eq!(committed, strs(&["a", "b"]));
}

#[test]
fn folding_twice_changes_nothing() {
    for t in ["네 네 네 네 알겠습니다", "a a a a a b b b b c", "x, X x. x y", "a b", "a a a b b b b a"] {
        let once = collapse_immediate_repeats(t);
        assert_eq!(collapse_immediate_repeats(&once), once);
    }
    assert_eq!(collapse_immediate_repeats("a  a"), "a  a");
}
