//! Decoder settings per profile: timestamps, context, token limits, the
//! CoreML requirement and GPU use for whisper.cpp decoding.

use vstd::prelude::*;
use crate::backend::AsrProfile;

verus! {

/// The switches a deployment sets for decoding.
#[derive(Clone, Copy, Debug, PartialEq, Eq, Structural)]
pub struct DecodeEnvironment {
    /// Decoder threads.
    pub threads: i32,
    /// Whether the GPU is used outside the live Q5 profile.
    pub use_gpu: bool,
    /// Whether the live Q5 profile uses the GPU.
    pub realtime_use_gpu: bool,
    /// Whether the Q5 profiles use a CoreML encoder.
    pub q5_use_coreml: bool,
    /// Whether a missing CoreML encoder is tolerated.
    pub allow_q5_without_coreml: bool,
    /// Audio context of the windowed Q5 decoder without CoreML.
    pub windowed_audio_ctx: i32,
}

/// The integer and boolean decoding settings.
#[derive(Clone, Copy, Debug, PartialEq, Eq, Structural)]
pub struct DecodeSettings {
    pub n_threads: i32,
    pub token_timestamps: bool,
    pub no_timestamps: bool,
    pub single_segment: bool,
    pub no_context: bool,
    pub audio_ctx: Option<i32>,
    pub max_tokens: Option<i32>,
    pub n_max_text_ctx: Option<i32>,
    pub require_coreml_encoder: bool,
    pub use_gpu: bool,
}

/// The settings of the historical decoding behaviour: token timestamps,
/// no limits, the deployment's thread count and GPU switch.
pub open spec fn spec_default_settings(env: DecodeEnvironment) -> DecodeSettings {
    DecodeSettings {
        n_threads: env.threads,
        token_timestamps: true,
        no_timestamps: false,
        single_segment: false,
        no_context: false,
        audio_ctx: None,
        max_tokens: None,
        n_max_text_ctx: None,
        require_coreml_encoder: false,
        use_gpu: env.use_gpu,
    }
}

/// The low-latency settings shared by the Q5 profiles: one segment without
/// timestamps or carried context, the given audio context and token limit,
/// CoreML required when it is used and not waived, GPU per the live switch.
pub open spec fn spec_q5_settings(env: DecodeEnvironment, audio_ctx: i32, max_tokens: i32) -> DecodeSettings {
    DecodeSettings {
        token_timestamps: false,
        no_timestamps: true,
        single_segment: true,
        no_context: true,
        audio_ctx: Some(audio_ctx),
        max_tokens: Some(max_tokens),
        n_max_text_ctx: Some(0),
        require_coreml_encoder: env.q5_use_coreml && !env.allow_q5_without_coreml,
        use_gpu: env.realtime_use_gpu,
        ..spec_default_settings(env)
    }
}

impl DecodeSettings {
    /// The historical settings (see `spec_default_settings`).
    pub fn default_for(env: DecodeEnvironment) -> (s: Self)
        ensures
            s == spec_default_settings(env),
    {
        DecodeSettings {
            n_threads: env.threads,
            token_timestamps: true,
            no_timestamps: false,
            single_segment: false,
            no_context: false,
            audio_ctx: None,
            max_tokens: None,
            n_max_text_ctx: None,
            require_coreml_encoder: false,
            use_gpu: env.use_gpu,
        }
    }

    /// The settings for a resolved profile: the live Q5 profile decodes at
    /// most 64 tokens with an audio context of 1024 under CoreML and 512
    /// otherwise; other profiles keep the historical settings.
    pub fn for_profile(profile: AsrProfile, env: DecodeEnvironment) -> (s: Self)
        ensures
            profile == AsrProfile::RealtimeQ5 ==> s == spec_q5_settings(
                env,
                if env.q5_use_coreml { 1024i32 } else { 512i32 },
                64,
            ),
            profile != AsrProfile::RealtimeQ5 ==> s == spec_default_settings(env),
    {
        match profile {
            AsrProfile::RealtimeQ5 => {
                let ctx: i32 = if env.q5_use_coreml { 1024 } else { 512 };
                DecodeSettings {
                    token_timestamps: false,
                    no_timestamps: true,
                    single_segment: true,
                    no_context: true,
                    audio_ctx: Some(ctx),
                    max_tokens: Some(64),
                    n_max_text_ctx: Some(0),
                    require_coreml_encoder: env.q5_use_coreml && !env.allow_q5_without_coreml,
                    use_gpu: env.realtime_use_gpu,
                    ..Self::default_for(env)
                }
            },
            _ => Self::default_for(env),
        }
    }

    /// The settings of the windowed Q5 decoder: at most 96 tokens, an audio
    /// context of 1024 under CoreML and the deployment's windowed context
    /// otherwise.
    pub fn for_windowed_q5(env: DecodeEnvironment) -> (s: Self)
        ensures
            s == spec_q5_settings(env, if env.q5_use_coreml { 1024i32 } else { env.windowed_audio_ctx }, 96),
    {
        let ctx: i32 = if env.q5_use_coreml { 1024 } else { env.windowed_audio_ctx };
        DecodeSettings {
            token_timestamps: false,
            no_timestamps: true,
            single_segment: true,
            no_context: true,
            audio_ctx: Some(ctx),
            max_tokens: Some(96),
            n_max_text_ctx: Some(0),
            require_coreml_encoder: env.q5_use_coreml && !env.allow_q5_without_coreml,
            use_gpu: env.realtime_use_gpu,
            ..Self::default_for(env)
        }
    }
}

} // verus!
