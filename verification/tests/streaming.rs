use asr_core::backend::AsrProfile;
use asr_core::streaming::{
    iter_samples_for_model, step_gate, token_texts, ChunkAction, EndpointDetector, EndpointLimits, FrameAction,
    IterScheduler, PrefixCommitter, StepGate, WindowOptions, FRAME,
};

fn s(v: &[&str]) -> Vec<String> {
    v.iter().map(|x| x.to_string()).collect()
}

#[test]
fn committer_commits_agreed_prefix() {
    let mut c = PrefixCommitter::new();
    assert_eq!(c.observe(s(&["the", "cat"])), (0, 0));
    assert_eq!(c.observe(s(&["the", "cat", "sat"])), (0, 2));
    assert_eq!(c.committed_count(), 2);
    // a shorter agreement never takes back what is committed
    assert_eq!(c.observe(s(&["a", "cat", "sat", "down"])), (2, 2));
    assert_eq!(c.observe(s(&["a", "cat", "sat", "down", "now"])), (2, 4));
    assert_eq!(c.pending(), (4, 5));
    assert_eq!(c.buffer_text(), "now");
    c.reset();
    assert_eq!(c.committed_count(), 0);
    assert!(c.last_words().is_empty());
    assert_eq!(c.pending(), (0, 0));
}

#[test]
fn token_texts_are_spaced() {
    let w = s(&["hello", "big", "world"]);
    assert_eq!(token_texts(&w, 0, 3), s(&["hello", " big", " world"]));
    assert_eq!(token_texts(&w, 1, 3), s(&[" big", " world"]));
}

#[test]
fn window_options() {
    let b = WindowOptions::balanced();
    assert_eq!((b.target_window_samples, b.max_window_samples), (192_000, 320_000));
    let r = WindowOptions::for_profile(AsrProfile::RealtimeQ5);
    assert_eq!((r.target_window_samples, r.max_window_samples), (128_000, 192_000));
    assert_eq!(WindowOptions::for_profile(AsrProfile::Auto), b);
    let w = b.with_window_secs(6);
    assert_eq!((w.target_window_samples, w.max_window_samples), (96_000, 160_000));
    let w = w.with_max_window_secs(9);
    assert_eq!(w.max_window_samples, 144_000);
    assert!(b.should_reset(320_000, false));
    assert!(b.should_reset(192_000, true));
    assert!(!b.should_reset(192_000, false));
}

#[test]
fn step_gates() {
    assert_eq!(step_gate(7_999, true), StepGate::TooShort);
    assert_eq!(step_gate(8_000, false), StepGate::Quiet);
    assert_eq!(step_gate(8_000, true), StepGate::Decode);
}

fn limits() -> EndpointLimits {
    EndpointLimits { hangover: 2 * FRAME, min_utt: 3 * FRAME, max_utt: 100 * FRAME, max_pre_roll: FRAME, keep_trail: FRAME }
}

#[test]
fn endpoint_finalizes_after_hangover() {
    let mut d = EndpointDetector::new(limits());
    assert_eq!(d.on_frame(false), FrameAction::PreRoll { drop_front: 0 });
    assert_eq!(d.on_frame(false), FrameAction::PreRoll { drop_front: FRAME });
    assert_eq!(d.on_frame(true), FrameAction::Start);
    assert_eq!(d.on_frame(true), FrameAction::Extend);
    assert_eq!(d.on_frame(true), FrameAction::Extend);
    assert_eq!(d.on_frame(false), FrameAction::Extend);
    // pre-roll + 3 speech + 2 silent frames; one silent frame of trail is kept
    assert_eq!(d.on_frame(false), FrameAction::Finalize { end: Some(5 * FRAME) });
    assert_eq!(d.flush(10), None);
}

#[test]
fn endpoint_drops_short_utterances_and_flushes() {
    let mut d = EndpointDetector::new(limits());
    assert_eq!(d.on_frame(true), FrameAction::Start);
    assert_eq!(d.on_frame(false), FrameAction::Extend);
    assert_eq!(d.on_frame(false), FrameAction::Finalize { end: None });
    assert_eq!(d.on_frame(true), FrameAction::Start);
    assert_eq!(d.on_frame(true), FrameAction::Extend);
    assert_eq!(d.on_frame(true), FrameAction::Extend);
    assert_eq!(d.flush(100), Some(Some(3 * FRAME + 100)));
}

#[test]
fn endpoint_caps_utterance_length() {
    let l = EndpointLimits { hangover: 10 * FRAME, min_utt: 0, max_utt: 3 * FRAME, max_pre_roll: 0, keep_trail: 0 };
    let mut d = EndpointDetector::new(l);
    assert_eq!(d.on_frame(true), FrameAction::Start);
    assert_eq!(d.on_frame(true), FrameAction::Extend);
    assert_eq!(d.on_frame(true), FrameAction::Finalize { end: Some(3 * FRAME) });
}

#[test]
fn inference_cadence() {
    assert_eq!(iter_samples_for_model("ggml-Large-v3"), 32_000);
    assert_eq!(iter_samples_for_model("SenseVoice"), 32_000);
    assert_eq!(iter_samples_for_model("ggml-base"), 16_000);
    let mut s = IterScheduler::new(16_000);
    assert_eq!(s.on_chunk(8_000, false), ChunkAction::Wait);
    assert_eq!(s.on_chunk(8_000, false), ChunkAction::SkipSilent);
    assert_eq!(s.on_chunk(10_000, true), ChunkAction::Wait);
    assert_eq!(s.on_chunk(10_000, false), ChunkAction::Decode { audio_samples: 20_000 });
    assert_eq!(s.on_chunk(4_000, true), ChunkAction::Wait);
    s.reset();
    assert_eq!(s.on_chunk(16_000, false), ChunkAction::SkipSilent);
}
