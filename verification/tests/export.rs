use asr_core::export::{format_srt_time, render_srt, srt_cues, to_txt, TimedCue};

struct Tok {
    start: f64,
    end: f64,
    text: &'static str,
}

fn tok(start: f64, end: f64, text: &'static str) -> Tok {
    Tok { start, end, text }
}

fn ms(t: f64) -> u64 {
    (t.max(0.0) * 1000.0).round() as u64
}

/// The SubRip document of timed tokens: long pauses are decided here, the
/// grouping and the rendering by the library.
fn srt_of(toks: &[Tok]) -> String {
    let texts: Vec<String> = toks.iter().map(|t| t.text.to_string()).collect();
    let breaks: Vec<bool> = (0..toks.len())
        .map(|i| i + 1 < toks.len() && toks[i + 1].start - toks[i].end > 0.8)
        .collect();
    let cues: Vec<TimedCue> = srt_cues(&texts, &breaks)
        .into_iter()
        .map(|c| TimedCue { start_ms: ms(toks[c.first].start), end_ms: ms(toks[c.last].end), text: c.text })
        .collect();
    render_srt(&cues)
}

#[test]
fn txt_joins_and_trims() {
    let toks = vec![tok(0.0, 0.5, " Hello"), tok(0.5, 1.0, " world.")];
    let texts: Vec<String> = toks.iter().map(|t| t.text.to_string()).collect();
    assert_eq!(to_txt(&texts), "Hello world.");
}

#[test]
fn srt_splits_on_gap_and_punct() {
    let toks = vec![tok(0.0, 0.5, "Hello"), tok(0.5, 1.0, " world."), tok(3.0, 3.5, " Next")];
    let srt = srt_of(&toks);
    assert!(srt.contains("1\n00:00:00,000 --> 00:00:01,000\nHello world."), "{srt}");
    assert!(srt.contains("Next"), "{srt}");
}

#[test]
fn srt_time_format() {
    assert_eq!(format_srt_time(ms(3661.5)), "01:01:01,500");
}

#[test]
fn srt_time_fields() {
    assert_eq!(format_srt_time(0), "00:00:00,000");
    assert_eq!(format_srt_time(59_999), "00:00:59,999");
    assert_eq!(format_srt_time(360_000_000), "100:00:00,000");
}

#[test]
fn cues_close_at_eight_tokens_breaks_and_end() {
    let texts: Vec<String> = (0..10).map(|i| format!(" w{i}")).collect();
    let breaks = vec![false; 10];
    let cues = srt_cues(&texts, &breaks);
    assert_eq!(cues.len(), 2);
    assert_eq!((cues[0].first, cues[0].last), (0, 7));
    assert_eq!(cues[0].text, "w0 w1 w2 w3 w4 w5 w6 w7");
    assert_eq!((cues[1].first, cues[1].last), (8, 9));
    let mut breaks = vec![false; 10];
    breaks[2] = true;
    let cues = srt_cues(&texts, &breaks);
    assert_eq!((cues[0].first, cues[0].last), (0, 2));
    assert_eq!((cues[1].first, cues[1].last), (3, 9));
}

#[test]
fn blank_cues_are_dropped() {
    let texts: Vec<String> = vec!["  ".into(), ".".into(), " a?".into()];
    let cues = srt_cues(&texts, &vec![false, false, false]);
    // "  " and "." close together at the full stop; " a?" closes itself.
    assert_eq!(cues.len(), 2);
    assert_eq!(cues[0].text, ".");
    assert_eq!(cues[1].text, "a?");
    let cues = srt_cues(&vec!["   ".to_string()], &vec![false]);
    assert!(cues.is_empty());
}

#[test]
fn rendering_numbers_cues_from_one() {
    let cues = vec![
        TimedCue { start_ms: 0, end_ms: 1500, text: "a".into() },
        TimedCue { start_ms: 1500, end_ms: 62_000, text: "b".into() },
    ];
    assert_eq!(
        render_srt(&cues),
        "1\n00:00:00,000 --> 00:00:01,500\na\n\n2\n00:00:01,500 --> 00:01:02,000\nb\n\n"
    );
    assert_eq!(render_srt(&vec![]), "");
}
