//! Engine-specific helpers: SenseVoice meta-tag removal, Qwen3-ASR model
//! variants and language names, and which engine a model id selects.

use vstd::prelude::*;
use crate::text::{chars_eq, chars_of, string_of, trim_chars, trim_ws};

verus! {

/// The text of `s` outside `<|...|>` meta tags, when a tag is open iff `in_tag`.
pub open spec fn untagged_from(s: Seq<char>, in_tag: bool) -> Seq<char>
    decreases s.len(),
{
    if s.len() == 0 {
        seq![]
    } else if in_tag {
        if s[0] == '|' && s.len() > 1 && s[1] == '>' {
            untagged_from(s.skip(2), false)
        } else {
            untagged_from(s.drop_first(), true)
        }
    } else if s[0] == '<' && s.len() > 1 && s[1] == '|' {
        untagged_from(s.skip(2), true)
    } else {
        seq![s[0]] + untagged_from(s.drop_first(), false)
    }
}

/// SenseVoice output with its `<|..|>` meta tags removed, then trimmed.
pub open spec fn spec_strip_tags(s: Seq<char>) -> Seq<char> {
    trim_ws(untagged_from(s, false))
}

/// Removes SenseVoice meta tags such as `<|en|><|NEUTRAL|>` and trims.
pub fn strip_tags(s: &str) -> (r: String)
    ensures
        r@ == spec_strip_tags(s@),
{
    let v = chars_of(s);
    let mut out: Vec<char> = Vec::new();
    let mut in_tag = false;
    let mut i: usize = 0;
    assert(v@.skip(0) =~= v@);
    while i < v.len()
        invariant
            i <= v.len(),
            untagged_from(v@, false) == out@ + untagged_from(v@.skip(i as int), in_tag),
        decreases v.len() - i,
    {
        let ghost rest = v@.skip(i as int);
        let c = v[i];
        assert(rest[0] == c);
        let has_next = i + 1 < v.len();
        if has_next {
            assert(rest[1] == v@[i + 1]);
        }
        if !in_tag && c == '<' && has_next && v[i + 1] == '|' {
            assert(rest.skip(2) =~= v@.skip(i + 2));
            in_tag = true;
            i += 2;
        } else if in_tag {
            if c == '|' && has_next && v[i + 1] == '>' {
                assert(rest.skip(2) =~= v@.skip(i + 2));
                in_tag = false;
                i += 2;
            } else {
                assert(rest.drop_first() =~= v@.skip(i + 1));
                i += 1;
            }
        } else {
            let ghost o = out@;
            out.push(c);
            assert(rest.drop_first() =~= v@.skip(i + 1));
            assert(o + (seq![c] + untagged_from(v@.skip(i + 1), false)) =~= out@ + untagged_from(
                v@.skip(i + 1),
                false,
            ));
            i += 1;
        }
    }
    assert(out@ + untagged_from(v@.skip(i as int), in_tag) =~= out@);
    string_of(&trim_chars(&out))
}

/// A Qwen3-ASR model variant: its repository and the files it needs.
pub struct QwenModelSpec {
    pub repo: &'static str,
    pub files: &'static [&'static str],
}

/// Qwen3-ASR-0.6B (one safetensors file).
pub fn qwen_06b() -> (m: QwenModelSpec)
    ensures
        m.repo@ == "Qwen/Qwen3-ASR-0.6B"@,
        m.files@.len() == 5,
        m.files@[0]@ == "config.json"@,
        m.files@[1]@ == "generation_config.json"@,
        m.files@[2]@ == "model.safetensors"@,
        m.files@[3]@ == "vocab.json"@,
        m.files@[4]@ == "merges.txt"@,
{
    QwenModelSpec {
    repo: "Qwen/Qwen3-ASR-0.6B",
    files: &[
        "config.json",
        "generation_config.json",
        "model.safetensors",
        "vocab.json",
        "merges.txt",
    ],
    }
}

/// Qwen3-ASR-1.7B (sharded safetensors with an index).
pub fn qwen_17b() -> (m: QwenModelSpec)
    ensures
        m.repo@ == "Qwen/Qwen3-ASR-1.7B"@,
        m.files@.len() == 7,
        m.files@[0]@ == "config.json"@,
        m.files@[1]@ == "generation_config.json"@,
        m.files@[2]@ == "model.safetensors.index.json"@,
        m.files@[3]@ == "model-00001-of-00002.safetensors"@,
        m.files@[4]@ == "model-00002-of-00002.safetensors"@,
        m.files@[5]@ == "vocab.json"@,
        m.files@[6]@ == "merges.txt"@,
{
    QwenModelSpec {
    repo: "Qwen/Qwen3-ASR-1.7B",
    files: &[
        "config.json",
        "generation_config.json",
        "model.safetensors.index.json",
        "model-00001-of-00002.safetensors",
        "model-00002-of-00002.safetensors",
        "vocab.json",
        "merges.txt",
    ],
    }
}

/// The language name Qwen expects for an ISO code, or `None` (detect).
pub open spec fn spec_lang_name(lang: Seq<char>) -> Option<Seq<char>> {
    if lang == "ko"@ {
        Some("Korean"@)
    } else if lang == "en"@ {
        Some("English"@)
    } else if lang == "ja"@ {
        Some("Japanese"@)
    } else if lang == "zh"@ {
        Some("Chinese"@)
    } else {
        None
    }
}

/// Maps `ko`, `en`, `ja`, `zh` to the names Qwen expects; other codes
/// give `None` (automatic detection).
pub fn lang_name(lang: &str) -> (r: Option<&'static str>)
    ensures
        r is None <==> spec_lang_name(lang@) is None,
        r matches Some(n) ==> spec_lang_name(lang@) == Some(n@),
{
    let v = chars_of(lang);
    if chars_eq(&v, &chars_of("ko")) {
        Some("Korean")
    } else if chars_eq(&v, &chars_of("en")) {
        Some("English")
    } else if chars_eq(&v, &chars_of("ja")) {
        Some("Japanese")
    } else if chars_eq(&v, &chars_of("zh")) {
        Some("Chinese")
    } else {
        None
    }
}

/// The speech engine a model id selects.
#[derive(Clone, Copy, Debug, PartialEq, Eq, Structural)]
pub enum EngineKind {
    SenseVoice,
    Qwen17B,
    Qwen06B,
    Whisper,
}

/// Whether `s` starts with `p`.
pub open spec fn starts_with(s: Seq<char>, p: Seq<char>) -> bool {
    p.len() <= s.len() && s.take(p.len() as int) == p
}

/// The engine for a model id: `sensevoice` is SenseVoice; `qwen-1.7b` and
/// `qwen3-asr-1.7b` the large Qwen; `qwen` or ids starting with
/// `qwen3-asr` the small Qwen; anything else Whisper.
pub open spec fn spec_engine_for(model_id: Seq<char>) -> EngineKind {
    if model_id == "sensevoice"@ {
        EngineKind::SenseVoice
    } else if model_id == "qwen-1.7b"@ || model_id == "qwen3-asr-1.7b"@ {
        EngineKind::Qwen17B
    } else if model_id == "qwen"@ || starts_with(model_id, "qwen3-asr"@) {
        EngineKind::Qwen06B
    } else {
        EngineKind::Whisper
    }
}

/// Whether `s` starts with `p`.
pub fn starts_with_chars(s: &Vec<char>, p: &Vec<char>) -> (r: bool)
    ensures
        r == starts_with(s@, p@),
{
    if p.len() > s.len() {
        return false;
    }
    let mut i: usize = 0;
    while i < p.len()
        invariant
            i <= p.len() <= s.len(),
            forall|k: int| 0 <= k < i ==> s@[k] == p@[k],
        decreases p.len() - i,
    {
        if s[i] != p[i] {
            assert(s@.take(p.len() as int)[i as int] != p@[i as int]);
            return false;
        }
        i += 1;
    }
    assert(s@.take(p.len() as int) =~= p@);
    true
}

/// The engine a model id selects (see `spec_engine_for`).
pub fn engine_for(model_id: &str) -> (k: EngineKind)
    ensures
        k == spec_engine_for(model_id@),
{
    let v = chars_of(model_id);
    if chars_eq(&v, &chars_of("sensevoice")) {
        EngineKind::SenseVoice
    } else if chars_eq(&v, &chars_of("qwen-1.7b")) || chars_eq(&v, &chars_of("qwen3-asr-1.7b")) {
        EngineKind::Qwen17B
    } else if chars_eq(&v, &chars_of("qwen")) || starts_with_chars(&v, &chars_of("qwen3-asr")) {
        EngineKind::Qwen06B
    } else {
        EngineKind::Whisper
    }
}

/// The backend label reported with resource metrics: the realtime profile
/// first, then ids starting with `qwen`, then `sensevoice`, else `whisper`.
pub fn metrics_backend_label(realtime_q5: bool, model_id: &str) -> (r: &'static str)
    ensures
        realtime_q5 ==> r@ == "whisper_realtime_q5"@,
        !realtime_q5 && starts_with(model_id@, "qwen"@) ==> r@ == "qwen"@,
        !realtime_q5 && !starts_with(model_id@, "qwen"@) && model_id@ == "sensevoice"@ ==> r@ == "sensevoice"@,
        !realtime_q5 && !starts_with(model_id@, "qwen"@) && model_id@ != "sensevoice"@ ==> r@ == "whisper"@,
{
    let v = chars_of(model_id);
    if realtime_q5 {
        "whisper_realtime_q5"
    } else if starts_with_chars(&v, &chars_of("qwen")) {
        "qwen"
    } else if chars_eq(&v, &chars_of("sensevoice")) {
        "sensevoice"
    } else {
        "whisper"
    }
}

} // verus!
