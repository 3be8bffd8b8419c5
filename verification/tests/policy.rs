use asr_core::capture::{choose_encoding, mixer_step, AudioSource, CaptureControl, FormatHint, MixStep, SampleEncoding};
use asr_core::policy::{agreed_prefix_len, drop_repeated_head, ngram_drop, prompt_text, take_agreed, weighted_tokens};
use asr_core::session::{apply_committed, SessionHandle};
use std::sync::atomic::{AtomicBool, Ordering};
use std::sync::Arc;

fn s(v: &[&str]) -> Vec<String> {
    v.iter().map(|x| x.to_string()).collect()
}

#[derive(Clone, Debug)]
struct Tok {
    start: f64,
    end: f64,
    text: String,
}

fn tk(start: f64, end: f64, text: &str) -> Tok {
    Tok { start, end, text: text.to_string() }
}

fn texts(v: &[Tok]) -> Vec<String> {
    v.iter().map(|t| t.text.clone()).collect()
}

/// Hypothesis bookkeeping around the library's agreement decisions; token
/// times are handled here.
#[derive(Default)]
struct Hypothesis {
    committed_in_buffer: Vec<Tok>,
    buffer: Vec<Tok>,
    new: Vec<Tok>,
    last_committed_time: f64,
}

impl Hypothesis {
    fn insert(&mut self, toks: Vec<Tok>, offset: f64) {
        let lct = self.last_committed_time;
        self.new = toks
            .into_iter()
            .map(|mut t| {
                t.start += offset;
                t.end += offset;
                t
            })
            .filter(|t| t.start > lct - 0.1)
            .collect();
        if let Some(first) = self.new.first() {
            if (first.start - lct).abs() < 1.0 && !self.committed_in_buffer.is_empty() {
                let nt = texts(&self.new);
                drop_repeated_head(&mut self.new, &texts(&self.committed_in_buffer), &nt);
            }
        }
    }

    fn flush(&mut self) -> Vec<Tok> {
        let nt = texts(&self.new);
        let committed = take_agreed(&mut self.new, &nt, &texts(&self.buffer));
        if let Some(last) = committed.last() {
            self.last_committed_time = last.end;
        }
        self.buffer = std::mem::take(&mut self.new);
        self.committed_in_buffer.extend(committed.iter().cloned());
        committed
    }
}

#[test]
fn local_agreement_commits_only_agreed_prefix() {
    let mut h = Hypothesis::default();
    h.insert(vec![tk(0.0, 0.3, "the"), tk(0.3, 0.6, "cat")], 0.0);
    let c1 = h.flush();
    assert!(c1.is_empty());
    h.insert(vec![tk(0.0, 0.3, "the"), tk(0.3, 0.6, "cat"), tk(0.6, 0.9, "sat")], 0.0);
    let c2 = h.flush();
    let text: Vec<&str> = c2.iter().map(|t| t.text.as_str()).collect();
    assert_eq!(text, vec!["the", "cat"], "확정은 합의된 the cat 만");
    h.insert(
        vec![tk(0.0, 0.3, "the"), tk(0.3, 0.6, "cat"), tk(0.6, 0.9, "sat"), tk(0.9, 1.2, "down")],
        0.0,
    );
    let c3 = h.flush();
    let text3: Vec<&str> = c3.iter().map(|t| t.text.as_str()).collect();
    assert_eq!(text3, vec!["sat"]);
}

#[test]
fn agreed_prefix_lengths() {
    assert_eq!(agreed_prefix_len(&s(&["the", "cat", "down"]), &s(&["the", "cat", "sat"])), 2);
    assert_eq!(agreed_prefix_len(&s(&["down"]), &s(&["the"])), 0);
    assert_eq!(agreed_prefix_len(&s(&["a", "b"]), &s(&["a", "b", "c"])), 2);
}

#[test]
fn agreed_tokens_are_split_off() {
    let mut toks = vec![1, 2, 3];
    let got = take_agreed(&mut toks, &s(&["a", "b", "c"]), &s(&["a", "b", "x"]));
    assert_eq!(got, vec![1, 2]);
    assert_eq!(toks, vec![3]);
    let mut toks = vec![7, 8, 9];
    drop_repeated_head(&mut toks, &s(&["x", "cat", "sat"]), &s(&["cat", "sat", "down"]));
    assert_eq!(toks, vec![9]);
}

#[test]
fn repeated_head_is_dropped() {
    // the committed tail "cat sat" is repeated at the head of the new tokens
    assert_eq!(ngram_drop(&s(&["the", "cat", "sat"]), &s(&["cat", "sat", "down"])), 2);
    assert_eq!(ngram_drop(&s(&["the"]), &s(&["cat"])), 0);
}

#[test]
fn utterance_tokens_are_weighted() {
    let t = weighted_tokens("hello 안녕 ...");
    assert_eq!(t.len(), 3);
    assert_eq!((t[0].text.as_str(), t[0].weight), ("hello", 5));
    assert_eq!((t[1].text.as_str(), t[1].weight), (" 안녕", 2));
    assert_eq!((t[2].text.as_str(), t[2].weight), (" ...", 1));
}

#[test]
fn prompt_takes_trailing_words_up_to_the_budget() {
    assert_eq!(prompt_text(&s(&["a", "b", "c"]), " "), "a b c");
    assert_eq!(prompt_text(&s(&["a", "b", "c"]), ""), "abc");
    assert_eq!(prompt_text(&vec![], " "), "");
    // each word costs 100 bytes + 1: two words reach the budget
    let long: Vec<String> = (0..4).map(|i| format!("{i}").repeat(100)).collect();
    let p = prompt_text(&long, " ");
    assert_eq!(p, format!("{} {}", "2".repeat(100), "3".repeat(100)));
    // multi-byte characters count by their UTF-8 length (3 bytes each here)
    let ko: Vec<String> = vec!["가".repeat(10), "나".repeat(70)];
    assert_eq!(prompt_text(&ko, " "), "나".repeat(70));
}

#[test]
fn mixer_decisions() {
    assert_eq!(mixer_step(1600, 2000, false, false, true), MixStep::Mix(1600));
    assert_eq!(mixer_step(5000, 3000, true, true, false), MixStep::Mix(3000));
    assert_eq!(mixer_step(100, 2000, true, true, false), MixStep::Finish);
    assert_eq!(mixer_step(100, 2000, true, false, false), MixStep::Wait);
    assert_eq!(mixer_step(100, 2000, false, false, true), MixStep::Poll);
}

#[test]
fn sample_encodings() {
    let f = FormatHint { bits_per_channel: None, bytes_per_frame: Some(4), is_float: None };
    assert_eq!(choose_encoding(&f, 2), SampleEncoding::I16);
    assert_eq!(choose_encoding(&f, 1), SampleEncoding::F32);
    let f = FormatHint { bits_per_channel: Some(16), bytes_per_frame: None, is_float: Some(true) };
    assert_eq!(choose_encoding(&f, 2), SampleEncoding::F32);
    let f = FormatHint { bits_per_channel: Some(16), bytes_per_frame: None, is_float: None };
    assert_eq!(choose_encoding(&f, 2), SampleEncoding::I16);
    assert_eq!(SampleEncoding::F32.other(), SampleEncoding::I16);
    assert_ne!(SampleEncoding::F32.label(), SampleEncoding::I16.label());
    assert_ne!(AudioSource::Mic, AudioSource::System);
}

#[test]
fn stopping_a_session_signals_every_capture() {
    let (tx1, rx1) = std::sync::mpsc::channel::<()>();
    let (tx2, rx2) = std::sync::mpsc::channel::<()>();
    let flag = Arc::new(AtomicBool::new(true));
    let h = SessionHandle::new(vec![CaptureControl::new(tx1), CaptureControl::new(tx2)], flag.clone());
    assert_eq!(h.capture_count(), 2);
    h.stop();
    assert!(!flag.load(Ordering::Relaxed));
    assert_eq!(rx1.try_recv(), Ok(()));
    assert_eq!(rx2.try_recv(), Ok(()));
}

#[test]
fn transcript_log_updates() {
    let mut log = vec![1, 2];
    apply_committed(&mut log, vec![3], false);
    assert_eq!(log, vec![1, 2, 3]);
    apply_committed(&mut log, vec![], false);
    assert_eq!(log, vec![1, 2, 3]);
    apply_committed(&mut log, vec![9], true);
    assert_eq!(log, vec![9]);
}
