//! Backend configuration: decoding profiles, the configuration that picks
//! one, runtime capabilities and the error kinds a backend reports.

use vstd::prelude::*;
use crate::cleanup::{ascii_lowercase, ascii_lowercase_chars};
use crate::text::{chars_of, contains_chars, contains_sub, push_str};

verus! {

/// Decoding profile of a backend.
#[derive(Clone, Copy, Debug, PartialEq, Eq, Structural)]
pub enum AsrProfile {
    /// Pick the safest profile from the model id.
    Auto,
    /// The historical decoding behaviour.
    Balanced,
    /// Low-latency profile for the Q5_0 large-v3-turbo model.
    RealtimeQ5,
}

impl AsrProfile {
    /// The default profile, `Auto`.
    pub fn default_profile() -> (p: AsrProfile)
        ensures
            p == AsrProfile::Auto,
    {
        AsrProfile::Auto
    }
}

/// Backend configuration: model, language (`None` = detect) and profile.
#[derive(Clone, Debug)]
pub struct AsrConfig {
    pub model_id: String,
    pub language: Option<String>,
    pub profile: AsrProfile,
}

impl Default for AsrConfig {
    fn default() -> (c: Self)
        ensures
            c.model_id@ == "mlx-community/whisper-large-v3-turbo"@,
            c.language is None,
            c.profile == AsrProfile::Auto,
    {
        AsrConfig {
            model_id: "mlx-community/whisper-large-v3-turbo".to_string(),
            language: None,
            profile: AsrProfile::Auto,
        }
    }
}

/// Whether a model id names the Q5_0 large-v3-turbo model: its ASCII
/// lower-case form contains both `large-v3-turbo` and `q5_0`.
pub open spec fn spec_is_q5_turbo(model_id: Seq<char>) -> bool {
    contains_sub(ascii_lowercase(model_id), "large-v3-turbo"@) && contains_sub(
        ascii_lowercase(model_id),
        "q5_0"@,
    )
}

/// The profile a configuration resolves to: `Auto` becomes `RealtimeQ5` for
/// the Q5_0 turbo model and `Balanced` otherwise; explicit profiles stay.
pub open spec fn spec_effective_profile(profile: AsrProfile, model_id: Seq<char>) -> AsrProfile {
    match profile {
        AsrProfile::Auto => if spec_is_q5_turbo(model_id) {
            AsrProfile::RealtimeQ5
        } else {
            AsrProfile::Balanced
        },
        p => p,
    }
}

/// Whether `model_id` names the Q5_0 large-v3-turbo model.
pub fn is_q5_turbo(model_id: &str) -> (r: bool)
    ensures
        r == spec_is_q5_turbo(model_id@),
{
    let m = ascii_lowercase_chars(&chars_of(model_id));
    contains_chars(&m, &chars_of("large-v3-turbo")) && contains_chars(&m, &chars_of("q5_0"))
}

impl AsrConfig {
    /// The profile this configuration resolves to.
    pub fn effective_profile(&self) -> (p: AsrProfile)
        ensures
            p == spec_effective_profile(self.profile, self.model_id@),
    {
        match self.profile {
            AsrProfile::Auto => if is_q5_turbo(self.model_id.as_str()) {
                AsrProfile::RealtimeQ5
            } else {
                AsrProfile::Balanced
            },
            p => p,
        }
    }
}

/// What a backend can provide at run time.
#[derive(Clone, Copy, Debug)]
pub struct BackendCaps {
    /// Without word timestamps the prefix policy falls back to segments.
    pub provides_word_timestamps: bool,
    /// Whether early commit on token probability is possible.
    pub provides_probability: bool,
    /// Whether the backend re-transcribes its own buffer.
    pub self_streaming: bool,
    /// Tokenizer family, to tell token schemes apart on a backend swap.
    pub tokenizer_id: &'static str,
}

/// The capabilities of a whole-window re-transcribing backend with the
/// given tokenizer name.
pub fn self_streaming_caps(tokenizer_id: &'static str) -> (c: BackendCaps)
    ensures
        !c.provides_word_timestamps,
        !c.provides_probability,
        c.self_streaming,
        c.tokenizer_id == tokenizer_id,
{
    BackendCaps {
        provides_word_timestamps: false,
        provides_probability: false,
        self_streaming: true,
        tokenizer_id,
    }
}

/// Errors a backend reports.
#[derive(Debug)]
pub enum AsrError {
    NotReady,
    BackendDied,
    ModelMissing(String),
    Inference(String),
    Cancelled,
}

impl AsrError {
    /// The human-readable message of the error.
    pub fn message(&self) -> (m: String)
        ensures
            m@ == match self {
                AsrError::NotReady => "backend not ready"@,
                AsrError::BackendDied => "sidecar died"@,
                AsrError::ModelMissing(s) => "model not found offline: "@ + s@,
                AsrError::Inference(s) => "inference failed: "@ + s@,
                AsrError::Cancelled => "cancelled"@,
            },
    {
        match self {
            AsrError::NotReady => "backend not ready".to_string(),
            AsrError::BackendDied => "sidecar died".to_string(),
            AsrError::ModelMissing(s) => {
                let mut m = "model not found offline: ".to_string();
                push_str(&mut m, s.as_str());
                m
            },
            AsrError::Inference(s) => {
                let mut m = "inference failed: ".to_string();
                push_str(&mut m, s.as_str());
                m
            },
            AsrError::Cancelled => "cancelled".to_string(),
        }
    }
}

} // verus!
