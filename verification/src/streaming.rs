//! Commit policies and the decision state machines of live transcription:
//! word-prefix agreement between consecutive whole-window transcripts,
//! window sizing, utterance endpointing over voice-activity frames, and the
//! inference cadence of a session.

use vstd::prelude::*;
use crate::backend::{spec_effective_profile, AsrProfile};
use crate::text::{
    chars_of, join_with_spaces, join_words, push_str, string_of, string_views, views,
};

verus! {

/// Samples per second of the audio every stage works on.
pub const SAMPLE_RATE: usize = 16000;

/// Length of the common prefix of `a` and `b`, counting from `i`.
pub open spec fn lcp_from(a: Seq<Seq<char>>, b: Seq<Seq<char>>, i: int) -> int
    decreases a.len() - i,
{
    if 0 <= i && i < a.len() && i < b.len() && a[i] == b[i] {
        lcp_from(a, b, i + 1)
    } else {
        i
    }
}

/// Length of the longest common prefix of `a` and `b`.
pub open spec fn lcp(a: Seq<Seq<char>>, b: Seq<Seq<char>>) -> int {
    lcp_from(a, b, 0)
}

pub proof fn lemma_lcp_from(a: Seq<Seq<char>>, b: Seq<Seq<char>>, i: int)
    requires
        0 <= i <= a.len(),
        i <= b.len(),
        forall|k: int| 0 <= k < i ==> a[k] == b[k],
    ensures
        i <= lcp_from(a, b, i) <= a.len(),
        lcp_from(a, b, i) <= b.len(),
        forall|k: int| 0 <= k < lcp_from(a, b, i) ==> a[k] == b[k],
    decreases a.len() - i,
{
    if i < a.len() && i < b.len() && a[i] == b[i] {
        lemma_lcp_from(a, b, i + 1);
    }
}

/// Word-prefix agreement between consecutive transcripts of a growing
/// window: a word is committed once two consecutive transcripts agree on it
/// and on every word before it.
pub struct PrefixCommitter {
    committed_n: usize,
    last_words: Vec<String>,
}

impl PrefixCommitter {
    /// How many words of the window are committed.
    pub closed spec fn committed(&self) -> nat {
        self.committed_n as nat
    }

    /// The words of the latest transcript.
    pub closed spec fn last(&self) -> Seq<Seq<char>> {
        string_views(self.last_words@)
    }

    /// A committer for an empty window.
    pub fn new() -> (c: Self)
        ensures
            c.committed() == 0,
            c.last() == Seq::<Seq<char>>::empty(),
    {
        let c = PrefixCommitter { committed_n: 0, last_words: Vec::new() };
        assert(c.last() =~= Seq::<Seq<char>>::empty());
        c
    }

    /// The words of the latest transcript.
    pub fn last_words(&self) -> (w: &Vec<String>)
        ensures
            string_views(w@) == self.last(),
    {
        &self.last_words
    }

    /// How many words of the window are committed.
    pub fn committed_count(&self) -> (n: usize)
        ensures
            n == self.committed(),
    {
        self.committed_n
    }

    /// Takes in a new transcript of the window. Returns the range of its
    /// words that become committed now: from the old committed count up to
    /// the common prefix with the previous transcript, when that is longer;
    /// an empty range otherwise.
    pub fn observe(&mut self, words: Vec<String>) -> (r: (usize, usize))
        ensures
            ({
                let p = lcp(old(self).last(), string_views(words@));
                &&& r.0 == old(self).committed()
                &&& r.1 == if p > old(self).committed() { p } else { old(self).committed() as int }
                &&& final(self).committed() == r.1
                &&& final(self).last() == string_views(words@)
            }),
            r.0 <= r.1,
            r.1 > r.0 ==> r.1 <= words@.len(),
            forall|k: int| r.0 <= k < r.1 ==> #[trigger] string_views(words@)[k] == old(self).last()[k],
    {
        let ghost a = string_views(self.last_words@);
        let ghost b = string_views(words@);
        let mut p: usize = 0;
        while p < self.last_words.len() && p < words.len() && self.last_words[p] == words[p]
            invariant
                p <= self.last_words.len(),
                p <= words.len(),
                a == string_views(self.last_words@),
                b == string_views(words@),
                lcp(a, b) == lcp_from(a, b, p as int),
                forall|k: int| 0 <= k < p ==> a[k] == b[k],
            decreases words.len() - p,
        {
            assert(a[p as int] == self.last_words@[p as int]@);
            assert(b[p as int] == words@[p as int]@);
            p += 1;
        }
        proof {
            if p < self.last_words.len() && p < words.len() {
                assert(a[p as int] == self.last_words@[p as int]@);
                assert(b[p as int] == words@[p as int]@);
            }
            lemma_lcp_from(a, b, p as int);
        }
        let lo = self.committed_n;
        let hi = if p > lo {
            p
        } else {
            lo
        };
        self.committed_n = hi;
        self.last_words = words;
        (lo, hi)
    }

    /// The range of words still uncommitted when the window ends: from the
    /// committed count to the end of the latest transcript, or an empty
    /// range at its end when nothing is left.
    pub fn pending(&self) -> (r: (usize, usize))
        ensures
            self.last().len() > self.committed() ==> r == (self.committed() as usize, self.last().len() as usize),
            self.last().len() <= self.committed() ==> r.0 == r.1 && r.1 == self.last().len(),
    {
        let total = self.last_words.len();
        if total > self.committed_n {
            (self.committed_n, total)
        } else {
            (total, total)
        }
    }

    /// The uncommitted words of the latest transcript joined by spaces.
    pub fn buffer_text(&self) -> (s: String)
        ensures
            s@ == join_words(self.last().skip(
                if self.committed() < self.last().len() { self.committed() as int } else { self.last().len() as int },
            )),
    {
        let total = self.last_words.len();
        let from = if self.committed_n < total {
            self.committed_n
        } else {
            total
        };
        let mut ws: Vec<Vec<char>> = Vec::new();
        let mut i = from;
        while i < total
            invariant
                from <= i <= total == self.last_words.len(),
                views(ws@) == self.last().subrange(from as int, i as int),
            decreases total - i,
        {
            let ghost before = ws@;
            let c = chars_of(self.last_words[i].as_str());
            ws.push(c);
            assert(ws@ =~= before.push(c));
            assert(c@ == self.last()[i as int]);
            assert(views(ws@) =~= views(before).push(self.last()[i as int]));
            assert(self.last().subrange(from as int, i + 1) =~= self.last().subrange(from as int, i as int).push(self.last()[i as int]));
            assert(views(ws@) =~= self.last().subrange(from as int, i + 1));
            i += 1;
        }
        assert(self.last().subrange(from as int, total as int) =~= self.last().skip(from as int));
        string_of(&join_with_spaces(&ws))
    }

    /// Forgets the window.
    pub fn reset(&mut self)
        ensures
            final(self).committed() == 0,
            final(self).last() == Seq::<Seq<char>>::empty(),
    {
        self.committed_n = 0;
        self.last_words = Vec::new();
        assert(self.last() =~= Seq::<Seq<char>>::empty());
    }
}

/// The text of the token for word `j` of a transcript: the word, with a
/// leading space for every word but the first.
pub open spec fn spec_token_text(w: Seq<Seq<char>>, j: int) -> Seq<char> {
    if j > 0 {
        seq![' '] + w[j]
    } else {
        w[j]
    }
}

/// Token texts for the words `lo..hi` of `words`.
pub fn token_texts(words: &Vec<String>, lo: usize, hi: usize) -> (r: Vec<String>)
    requires
        lo <= hi <= words.len(),
    ensures
        r@.len() == hi - lo,
        forall|k: int| 0 <= k < hi - lo ==> #[trigger] r@[k]@ == spec_token_text(string_views(words@), lo + k),
{
    let mut r: Vec<String> = Vec::new();
    let mut j = lo;
    while j < hi
        invariant
            lo <= j <= hi <= words.len(),
            r@.len() == j - lo,
            forall|k: int| 0 <= k < j - lo ==> #[trigger] r@[k]@ == spec_token_text(string_views(words@), lo + k),
        decreases hi - j,
    {
        proof {
            reveal_strlit(" ");
        }
        let t = if j > 0 {
            let mut s = " ".to_string();
            push_str(&mut s, words[j].as_str());
            s
        } else {
            words[j].clone()
        };
        assert(t@ == spec_token_text(string_views(words@), j as int));
        r.push(t);
        j += 1;
    }
    r
}


/// Fewer samples than this (half a second) are never transcribed.
pub const MIN_DECODE_SAMPLES: usize = 8000;
/// Length of the buffer tail judged for silence (0.4 s).
pub const SILENCE_TAIL_SAMPLES: usize = 6400;
/// Active speech shorter than this (0.25 s) does not wake the decoder.
pub const MIN_ACTIVE_SAMPLES: usize = 4000;
/// Frame length of the activity measure (20 ms).
pub const ENERGY_FRAME_SAMPLES: usize = 320;

/// Window sizes, in samples, of the whole-window re-transcribing processor.
#[derive(Clone, Copy, Debug, PartialEq, Eq, Structural)]
pub struct WindowOptions {
    pub target_window_samples: usize,
    pub max_window_samples: usize,
    pub silence_tail_samples: usize,
    pub min_active_samples: usize,
    pub energy_frame_samples: usize,
}

impl WindowOptions {
    /// Options for a target and a maximum window length in seconds.
    pub fn from_secs(target: usize, max: usize) -> (o: Self)
        requires
            target * SAMPLE_RATE <= usize::MAX,
            max * SAMPLE_RATE <= usize::MAX,
        ensures
            o.target_window_samples == target * SAMPLE_RATE,
            o.max_window_samples == max * SAMPLE_RATE,
            o.silence_tail_samples == SILENCE_TAIL_SAMPLES,
            o.min_active_samples == MIN_ACTIVE_SAMPLES,
            o.energy_frame_samples == ENERGY_FRAME_SAMPLES,
    {
        WindowOptions {
            target_window_samples: target * SAMPLE_RATE,
            max_window_samples: max * SAMPLE_RATE,
            silence_tail_samples: SILENCE_TAIL_SAMPLES,
            min_active_samples: MIN_ACTIVE_SAMPLES,
            energy_frame_samples: ENERGY_FRAME_SAMPLES,
        }
    }

    /// The balanced windows: 12 s target, 20 s maximum.
    pub fn balanced() -> (o: Self)
        ensures
            o == Self::spec_from_secs(12, 20),
    {
        Self::from_secs(12, 20)
    }

    /// The low-latency windows: 8 s target, 12 s maximum.
    pub fn realtime_q5() -> (o: Self)
        ensures
            o == Self::spec_from_secs(8, 12),
    {
        Self::from_secs(8, 12)
    }

    /// The options `from_secs` builds.
    pub open spec fn spec_from_secs(target: nat, max: nat) -> Self {
        WindowOptions {
            target_window_samples: (target * SAMPLE_RATE) as usize,
            max_window_samples: (max * SAMPLE_RATE) as usize,
            silence_tail_samples: SILENCE_TAIL_SAMPLES,
            min_active_samples: MIN_ACTIVE_SAMPLES,
            energy_frame_samples: ENERGY_FRAME_SAMPLES,
        }
    }

    /// The windows for a configuration: low latency for the resolved
    /// `RealtimeQ5` profile, balanced otherwise.
    pub fn for_profile(profile: AsrProfile) -> (o: Self)
        ensures
            profile == AsrProfile::RealtimeQ5 ==> o == Self::spec_from_secs(8, 12),
            profile != AsrProfile::RealtimeQ5 ==> o == Self::spec_from_secs(12, 20),
    {
        match profile {
            AsrProfile::RealtimeQ5 => Self::realtime_q5(),
            _ => Self::balanced(),
        }
    }

    /// A target window of `sec` seconds, with the maximum at five thirds of it.
    pub fn with_window_secs(self, sec: usize) -> (o: Self)
        requires
            sec * SAMPLE_RATE * 5 <= usize::MAX,
        ensures
            o == (WindowOptions {
                target_window_samples: (sec * SAMPLE_RATE) as usize,
                max_window_samples: (sec * SAMPLE_RATE * 5 / 3) as usize,
                ..self
            }),
    {
        let t = sec * SAMPLE_RATE;
        WindowOptions { target_window_samples: t, max_window_samples: t * 5 / 3, ..self }
    }

    /// A maximum window of `sec` seconds.
    pub fn with_max_window_secs(self, sec: usize) -> (o: Self)
        requires
            sec * SAMPLE_RATE <= usize::MAX,
        ensures
            o == (WindowOptions { max_window_samples: (sec * SAMPLE_RATE) as usize, ..self }),
    {
        WindowOptions { max_window_samples: sec * SAMPLE_RATE, ..self }
    }

    /// Whether a window of `n` samples is closed: it reached the maximum,
    /// or it reached the target and its tail is silent.
    pub fn should_reset(&self, n: usize, tail_silent: bool) -> (r: bool)
        ensures
            r == (n >= self.max_window_samples || (n >= self.target_window_samples && tail_silent)),
    {
        n >= self.max_window_samples || (n >= self.target_window_samples && tail_silent)
    }
}

/// What the re-transcribing processor does with its window on one step.
#[derive(Clone, Copy, Debug, PartialEq, Eq, Structural)]
pub enum StepGate {
    /// Under half a second of audio: wait for more.
    TooShort,
    /// Too little active speech: skip the decoder.
    Quiet,
    /// Transcribe the window.
    Decode,
}

/// What happens to a window of `audio_len` samples on one step.
pub fn step_gate(audio_len: usize, enough_signal: bool) -> (g: StepGate)
    ensures
        audio_len < MIN_DECODE_SAMPLES ==> g == StepGate::TooShort,
        audio_len >= MIN_DECODE_SAMPLES && !enough_signal ==> g == StepGate::Quiet,
        audio_len >= MIN_DECODE_SAMPLES && enough_signal ==> g == StepGate::Decode,
{
    if audio_len < MIN_DECODE_SAMPLES {
        StepGate::TooShort
    } else if !enough_signal {
        StepGate::Quiet
    } else {
        StepGate::Decode
    }
}

/// Samples in one voice-activity frame (32 ms).
pub const FRAME: usize = 512;

/// Endpointing thresholds, in samples.
#[derive(Clone, Copy, Debug, PartialEq, Eq, Structural)]
pub struct EndpointLimits {
    /// Trailing silence that ends an utterance.
    pub hangover: usize,
    /// Utterances shorter than this after trimming are dropped.
    pub min_utt: usize,
    /// Utterances this long are ended regardless.
    pub max_utt: usize,
    /// Silence kept in front of an utterance.
    pub max_pre_roll: usize,
    /// Trailing silence kept when an utterance ends.
    pub keep_trail: usize,
}

impl EndpointLimits {
    /// Whether the limits leave room for the counters never to overflow.
    pub open spec fn fits(self) -> bool {
        self.max_utt + self.max_pre_roll + 2 * FRAME <= usize::MAX
    }
}

/// What to do with one voice-activity frame.
#[derive(Clone, Copy, Debug, PartialEq, Eq, Structural)]
pub enum FrameAction {
    /// Silence outside an utterance: append the frame to the pre-roll and
    /// drop this many samples from its front.
    PreRoll { drop_front: usize },
    /// Speech begins: the utterance is the pre-roll followed by the frame.
    Start,
    /// The frame extends the utterance.
    Extend,
    /// The frame extends the utterance, which then ends: transcribe its
    /// first `end` samples when `Some`, drop it when `None` (too short).
    Finalize { end: Option<usize> },
}

/// Utterance endpointing over voice-activity decisions, one frame at a time.
pub struct EndpointDetector {
    limits: EndpointLimits,
    in_speech: bool,
    utt_len: usize,
    trailing_silence: usize,
    pre_roll_len: usize,
}

/// The samples of an utterance of `utt_len` samples that are kept when it
/// ends: trailing silence beyond `keep_trail` is trimmed; `None` when what
/// is left is shorter than `min_utt`.
pub open spec fn spec_utterance_end(l: EndpointLimits, utt_len: int, trailing: int) -> Option<usize> {
    let over: int = if trailing > l.keep_trail { trailing - l.keep_trail } else { 0 };
    let trim: int = if over < utt_len { over } else { utt_len };
    let end = utt_len - trim;
    if end < l.min_utt {
        None
    } else {
        Some(end as usize)
    }
}

impl EndpointDetector {
    /// Whether speech is in progress.
    pub closed spec fn speaking(&self) -> bool {
        self.in_speech
    }

    /// Samples of the utterance in progress.
    pub closed spec fn utterance_len(&self) -> nat {
        self.utt_len as nat
    }

    /// Consecutive silent samples at the end of the utterance.
    pub closed spec fn trailing(&self) -> nat {
        self.trailing_silence as nat
    }

    /// Samples held in the pre-roll.
    pub closed spec fn pre_roll(&self) -> nat {
        self.pre_roll_len as nat
    }

    /// The thresholds.
    pub closed spec fn limits_of(&self) -> EndpointLimits {
        self.limits
    }

    /// The detector's invariant.
    pub closed spec fn wf(&self) -> bool {
        &&& self.limits.fits()
        &&& self.pre_roll_len <= self.limits.max_pre_roll
        &&& self.trailing_silence <= self.utt_len
        &&& !self.in_speech ==> self.utt_len == 0 && self.trailing_silence == 0
        &&& self.in_speech ==> (self.utt_len < self.limits.max_utt || self.utt_len
            <= self.limits.max_pre_roll + FRAME)
        &&& self.in_speech ==> self.pre_roll_len == 0
    }

    /// A detector outside any utterance.
    pub fn new(limits: EndpointLimits) -> (d: Self)
        requires
            limits.fits(),
        ensures
            d.wf(),
            d.limits_of() == limits,
            !d.speaking(),
            d.utterance_len() == 0,
            d.pre_roll() == 0,
    {
        EndpointDetector {
            limits,
            in_speech: false,
            utt_len: 0,
            trailing_silence: 0,
            pre_roll_len: 0,
        }
    }

    /// Ends the utterance in progress: the kept length, then back to silence.
    fn finish(&mut self) -> (end: Option<usize>)
        requires
            old(self).limits.fits(),
        ensures
            end == spec_utterance_end(old(self).limits, old(self).utt_len as int, old(self).trailing_silence as int),
            final(self).limits == old(self).limits,
            !final(self).in_speech,
            final(self).utt_len == 0,
            final(self).trailing_silence == 0,
            final(self).pre_roll_len == 0,
            final(self).wf(),
    {
        let over = if self.trailing_silence > self.limits.keep_trail {
            self.trailing_silence - self.limits.keep_trail
        } else {
            0
        };
        let trim = if over < self.utt_len {
            over
        } else {
            self.utt_len
        };
        let end = self.utt_len - trim;
        self.in_speech = false;
        self.utt_len = 0;
        self.trailing_silence = 0;
        self.pre_roll_len = 0;
        if end < self.limits.min_utt {
            None
        } else {
            Some(end)
        }
    }

    /// Takes one frame with its voice-activity decision. Outside speech a
    /// silent frame rolls the pre-roll (capped at `max_pre_roll`) and a
    /// speech frame starts an utterance holding the pre-roll and the frame.
    /// Inside speech the frame extends the utterance; a speech frame clears
    /// the trailing silence, a silent one adds to it; the utterance ends
    /// once the trailing silence reaches `hangover` or its length reaches
    /// `max_utt`.
    pub fn on_frame(&mut self, speech: bool) -> (a: FrameAction)
        requires
            old(self).wf(),
        ensures
            final(self).wf(),
            final(self).limits_of() == old(self).limits_of(),
            !old(self).speaking() && !speech ==> ({
                let total = old(self).pre_roll() + FRAME;
                let cap = old(self).limits_of().max_pre_roll;
                &&& a == (FrameAction::PreRoll { drop_front: if total > cap { (total - cap) as usize } else { 0 } })
                &&& final(self).pre_roll() == if total > cap { cap as int } else { total }
                &&& !final(self).speaking()
            }),
            !old(self).speaking() && speech ==> ({
                &&& a == FrameAction::Start
                &&& final(self).speaking()
                &&& final(self).utterance_len() == old(self).pre_roll() + FRAME
                &&& final(self).trailing() == 0
                &&& final(self).pre_roll() == 0
            }),
            old(self).speaking() ==> ({
                let len = old(self).utterance_len() + FRAME;
                let tr = if speech { 0 } else { old(self).trailing() + FRAME };
                let l = old(self).limits_of();
                if tr >= l.hangover || len >= l.max_utt {
                    &&& a == (FrameAction::Finalize { end: spec_utterance_end(l, len, tr) })
                    &&& !final(self).speaking()
                    &&& final(self).utterance_len() == 0
                    &&& final(self).pre_roll() == 0
                } else {
                    &&& a == FrameAction::Extend
                    &&& final(self).speaking()
                    &&& final(self).utterance_len() == len
                    &&& final(self).trailing() == tr
                }
            }),
    {
        if !self.in_speech {
            if speech {
                self.utt_len = self.pre_roll_len + FRAME;
                self.pre_roll_len = 0;
                self.trailing_silence = 0;
                self.in_speech = true;
                FrameAction::Start
            } else {
                let total = self.pre_roll_len + FRAME;
                let cap = self.limits.max_pre_roll;
                if total > cap {
                    self.pre_roll_len = cap;
                    FrameAction::PreRoll { drop_front: total - cap }
                } else {
                    self.pre_roll_len = total;
                    FrameAction::PreRoll { drop_front: 0 }
                }
            }
        } else {
            self.utt_len = self.utt_len + FRAME;
            if speech {
                self.trailing_silence = 0;
            } else {
                self.trailing_silence = self.trailing_silence + FRAME;
            }
            if self.trailing_silence >= self.limits.hangover || self.utt_len >= self.limits.max_utt {
                let end = self.finish();
                FrameAction::Finalize { end }
            } else {
                FrameAction::Extend
            }
        }
    }

    /// Ends the stream: an utterance in progress takes the `tail` samples
    /// that did not fill a frame and ends (its kept length, or `None` when
    /// too short); without one, nothing happens (`None` outside).
    pub fn flush(&mut self, tail: usize) -> (r: Option<Option<usize>>)
        requires
            old(self).wf(),
            tail < FRAME,
        ensures
            final(self).wf(),
            final(self).limits_of() == old(self).limits_of(),
            !final(self).speaking(),
            old(self).speaking() ==> r == Some(
                spec_utterance_end(
                    old(self).limits_of(),
                    old(self).utterance_len() + tail,
                    old(self).trailing() as int,
                ),
            ),
            !old(self).speaking() ==> r is None && final(self).pre_roll() == old(self).pre_roll(),
    {
        if self.in_speech {
            self.utt_len = self.utt_len + tail;
            Some(self.finish())
        } else {
            None
        }
    }
}

/// When a session runs inference.
#[derive(Clone, Copy, Debug, PartialEq, Eq, Structural)]
pub enum ChunkAction {
    /// Keep collecting audio.
    Wait,
    /// A full interval passed without speech: skip inference.
    SkipSilent,
    /// Run inference over an interval of this many samples.
    Decode { audio_samples: usize },
}

/// The inference cadence of a session: one inference per interval of
/// `iter_samples` samples, skipped when the interval held no speech.
pub struct IterScheduler {
    iter_samples: usize,
    since_iter: usize,
    speech_in_window: bool,
}

/// Whether a model is heavy enough to infer every two seconds rather than
/// every second: its lower-case id contains `large`, `turbo` or `qwen`, or
/// is `sensevoice`.
pub open spec fn spec_is_heavy_model(model_id: Seq<char>) -> bool {
    let m = crate::text::lowercase_of(model_id);
    crate::text::contains_sub(m, "large"@) || crate::text::contains_sub(m, "turbo"@)
        || crate::text::contains_sub(m, "qwen"@) || m == "sensevoice"@
}

/// Samples per inference interval for a model.
pub fn iter_samples_for_model(model_id: &str) -> (n: usize)
    ensures
        spec_is_heavy_model(model_id@) ==> n == 2 * SAMPLE_RATE,
        !spec_is_heavy_model(model_id@) ==> n == SAMPLE_RATE,
{
    let low = crate::text::str_to_lowercase(model_id);
    let m = chars_of(low.as_str());
    let heavy = crate::text::contains_chars(&m, &chars_of("large"))
        || crate::text::contains_chars(&m, &chars_of("turbo"))
        || crate::text::contains_chars(&m, &chars_of("qwen"))
        || crate::text::chars_eq(&m, &chars_of("sensevoice"));
    if heavy {
        2 * SAMPLE_RATE
    } else {
        SAMPLE_RATE
    }
}

impl IterScheduler {
    /// Samples per interval.
    pub closed spec fn interval(&self) -> nat {
        self.iter_samples as nat
    }

    /// Samples collected in the current interval.
    pub closed spec fn collected(&self) -> nat {
        self.since_iter as nat
    }

    /// Whether the current interval held speech.
    pub closed spec fn heard_speech(&self) -> bool {
        self.speech_in_window
    }

    /// The scheduler's invariant: an interval never stays full.
    pub closed spec fn wf(&self) -> bool {
        self.since_iter < self.iter_samples
    }

    /// A scheduler at the start of an interval.
    pub fn new(iter_samples: usize) -> (s: Self)
        requires
            iter_samples > 0,
        ensures
            s.wf(),
            s.interval() == iter_samples,
            s.collected() == 0,
            !s.heard_speech(),
    {
        IterScheduler { iter_samples, since_iter: 0, speech_in_window: false }
    }

    /// Forgets the current interval.
    pub fn reset(&mut self)
        ensures
            final(self).interval() == old(self).interval(),
            final(self).collected() == 0,
            !final(self).heard_speech(),
            old(self).interval() > 0 ==> final(self).wf(),
    {
        self.since_iter = 0;
        self.speech_in_window = false;
    }

    /// Takes a chunk of `len` samples with its speech decision (`true` when
    /// no voice detector is in use). Once the interval is full it is closed:
    /// skipped when no chunk in it held speech, otherwise decoded with the
    /// number of samples collected.
    pub fn on_chunk(&mut self, len: usize, speech: bool) -> (a: ChunkAction)
        requires
            old(self).wf(),
            len <= usize::MAX - old(self).interval(),
        ensures
            final(self).wf(),
            final(self).interval() == old(self).interval(),
            ({
                let total = old(self).collected() + len;
                let heard = old(self).heard_speech() || speech;
                if total < old(self).interval() {
                    &&& a == ChunkAction::Wait
                    &&& final(self).collected() == total
                    &&& final(self).heard_speech() == heard
                } else if !heard {
                    &&& a == ChunkAction::SkipSilent
                    &&& final(self).collected() == 0
                    &&& !final(self).heard_speech()
                } else {
                    &&& a == (ChunkAction::Decode { audio_samples: total as usize })
                    &&& final(self).collected() == 0
                    &&& !final(self).heard_speech()
                }
            }),
    {
        self.since_iter = self.since_iter + len;
        if speech {
            self.speech_in_window = true;
        }
        if self.since_iter >= self.iter_samples {
            let total = self.since_iter;
            self.since_iter = 0;
            if !self.speech_in_window {
                ChunkAction::SkipSilent
            } else {
                self.speech_in_window = false;
                ChunkAction::Decode { audio_samples: total }
            }
        } else {
            ChunkAction::Wait
        }
    }
}

} // verus!
