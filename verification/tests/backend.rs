use asr_core::decode::DecodeSettings;
use asr_core::backend::{is_q5_turbo, self_streaming_caps, AsrConfig, AsrError, AsrProfile};
use asr_core::engines::{engine_for, lang_name, metrics_backend_label, qwen_06b, qwen_17b, strip_tags, EngineKind};
use asr_core::sidecar::SidecarSpawn;
use asr_core::whisper::{
    coreml_encoder_path, flag_or, ggml_download_url, ggml_file_name, hf_resolve_url, is_q5_turbo_model_path,
    language_for_profile, normalized_language, parse_flag, strip_ggml_quant_suffix,
};

#[test]
fn auto_uses_realtime_profile_for_q5_turbo() {
    let cfg = AsrConfig {
        model_id: "ggml-large-v3-turbo-q5_0".into(),
        ..AsrConfig::default()
    };
    assert_eq!(cfg.effective_profile(), AsrProfile::RealtimeQ5);
}

#[test]
fn explicit_balanced_overrides_q5_turbo_detection() {
    let cfg = AsrConfig {
        model_id: "ggml-large-v3-turbo-q5_0".into(),
        profile: AsrProfile::Balanced,
        ..AsrConfig::default()
    };
    assert_eq!(cfg.effective_profile(), AsrProfile::Balanced);
}

#[test]
fn q5_coreml_path_uses_unquantized_turbo_stem() {
    assert_eq!(
        coreml_encoder_path("/models/ggml-large-v3-turbo-q5_0.bin"),
        "/models/ggml-large-v3-turbo-encoder.mlmodelc"
    );
}

#[test]
fn default_config_and_profiles() {
    let cfg = AsrConfig::default();
    assert_eq!(cfg.model_id, "mlx-community/whisper-large-v3-turbo");
    assert!(cfg.language.is_none());
    assert_eq!(cfg.profile, AsrProfile::Auto);
    assert_eq!(cfg.effective_profile(), AsrProfile::Balanced);
    assert!(is_q5_turbo("GGML-LARGE-V3-TURBO-Q5_0"));
    assert!(!is_q5_turbo("ggml-large-v3-turbo"));
}

#[test]
fn caps_and_error_messages() {
    let c = self_streaming_caps("whisper");
    assert!(c.self_streaming && !c.provides_word_timestamps && !c.provides_probability);
    assert_eq!(c.tokenizer_id, "whisper");
    assert_eq!(AsrError::NotReady.message(), "backend not ready");
    assert_eq!(AsrError::BackendDied.message(), "sidecar died");
    assert_eq!(AsrError::ModelMissing("x".into()).message(), "model not found offline: x");
    assert_eq!(AsrError::Inference("boom".into()).message(), "inference failed: boom");
    assert_eq!(AsrError::Cancelled.message(), "cancelled");
}

#[test]
fn coreml_path_edge_cases() {
    // no quantisation suffix: the stem stays
    assert_eq!(coreml_encoder_path("/m/ggml-base.bin"), "/m/ggml-base-encoder.mlmodelc");
    // a bare file name has an empty parent
    assert_eq!(coreml_encoder_path("ggml-small-q8_0.bin"), "ggml-small-encoder.mlmodelc");
    // the root has no parent
    assert_eq!(coreml_encoder_path("/"), "ggml-encoder.mlmodelc");
}

#[test]
fn quant_suffix_stripping() {
    assert_eq!(strip_ggml_quant_suffix("ggml-large-v3-turbo-q5_0"), "ggml-large-v3-turbo");
    assert_eq!(strip_ggml_quant_suffix("ggml-base-q8_0"), "ggml-base");
    assert_eq!(strip_ggml_quant_suffix("ggml-base"), "ggml-base");
    assert_eq!(strip_ggml_quant_suffix("-qx_0"), "-qx_0");
}

#[test]
fn q5_model_path_looks_at_the_file_name_only() {
    assert!(is_q5_turbo_model_path("/models/ggml-large-v3-turbo-q5_0.bin"));
    assert!(!is_q5_turbo_model_path("/large-v3-turbo-q5_0/ggml-base.bin"));
}

#[test]
fn ggml_names_and_urls() {
    assert_eq!(ggml_file_name("ggml-base"), "ggml-base.bin");
    assert_eq!(ggml_file_name("ggml-base.bin"), "ggml-base.bin");
    assert_eq!(
        ggml_download_url("ggml-base.bin"),
        "https://huggingface.co/ggerganov/whisper.cpp/resolve/main/ggml-base.bin"
    );
    assert_eq!(
        hf_resolve_url("Qwen/Qwen3-ASR-0.6B", "vocab.json"),
        "https://huggingface.co/Qwen/Qwen3-ASR-0.6B/resolve/main/vocab.json"
    );
}

#[test]
fn languages() {
    assert_eq!(normalized_language(Some("  ko ".into())), Some("ko".into()));
    assert_eq!(normalized_language(Some("AUTO".into())), None);
    assert_eq!(normalized_language(Some("   ".into())), None);
    assert_eq!(normalized_language(None), None);
    assert_eq!(language_for_profile(AsrProfile::RealtimeQ5, Some("ko".into())), None);
    assert_eq!(language_for_profile(AsrProfile::Balanced, Some("ko".into())), Some("ko".into()));
}

#[test]
fn boolean_settings() {
    assert_eq!(parse_flag("YES"), Some(true));
    assert_eq!(parse_flag("off"), Some(false));
    assert_eq!(parse_flag("maybe"), None);
    assert!(flag_or(Some("1"), false));
    assert!(!flag_or(Some("0"), true));
    assert!(flag_or(Some("maybe"), true));
    assert!(!flag_or(None, false));
}

#[test]
fn sensevoice_tags_are_removed() {
    assert_eq!(strip_tags("<|en|><|NEUTRAL|><|Speech|> Hello there "), "Hello there");
    assert_eq!(strip_tags("no tags"), "no tags");
    assert_eq!(strip_tags("<|unterminated"), "");
}

#[test]
fn qwen_variants_and_languages() {
    assert_eq!(qwen_06b().repo, "Qwen/Qwen3-ASR-0.6B");
    assert_eq!(qwen_06b().files.len(), 5);
    assert_eq!(qwen_17b().repo, "Qwen/Qwen3-ASR-1.7B");
    assert_eq!(qwen_17b().files.len(), 7);
    assert_eq!(lang_name("ko"), Some("Korean"));
    assert_eq!(lang_name("zh"), Some("Chinese"));
    assert_eq!(lang_name("fr"), None);
}

#[test]
fn engine_selection() {
    assert_eq!(engine_for("sensevoice"), EngineKind::SenseVoice);
    assert_eq!(engine_for("qwen3-asr-1.7b"), EngineKind::Qwen17B);
    assert_eq!(engine_for("qwen3-asr-0.6b"), EngineKind::Qwen06B);
    assert_eq!(engine_for("qwen"), EngineKind::Qwen06B);
    assert_eq!(engine_for("ggml-base"), EngineKind::Whisper);
    assert_eq!(metrics_backend_label(true, "qwen"), "whisper_realtime_q5");
    assert_eq!(metrics_backend_label(false, "qwen3-asr"), "qwen");
    assert_eq!(metrics_backend_label(false, "sensevoice"), "sensevoice");
    assert_eq!(metrics_backend_label(false, "ggml-base"), "whisper");
}

#[test]
fn sidecar_dev_launch() {
    let s = SidecarSpawn::dev_venv("/work/sidecar");
    assert_eq!(s.program, "/work/sidecar/.venv/bin/python");
    assert_eq!(s.args, vec!["-m".to_string(), "stt_mlx.main".to_string()]);
    assert_eq!(s.cwd, "/work/sidecar");
    assert_eq!(s.env, vec![("HF_HOME".to_string(), "/work/sidecar/.hf-cache".to_string())]);
}

fn env(coreml: bool, allow: bool) -> asr_core::decode::DecodeEnvironment {
    asr_core::decode::DecodeEnvironment {
        threads: 4,
        use_gpu: false,
        realtime_use_gpu: true,
        q5_use_coreml: coreml,
        allow_q5_without_coreml: allow,
        windowed_audio_ctx: 768,
    }
}

#[test]
fn decode_settings_per_profile() {
    let d = DecodeSettings::for_profile(AsrProfile::Balanced, env(false, false));
    assert_eq!(d, DecodeSettings::default_for(env(false, false)));
    assert!(d.token_timestamps && !d.no_timestamps && !d.use_gpu && d.n_threads == 4);
    assert_eq!((d.audio_ctx, d.max_tokens, d.n_max_text_ctx), (None, None, None));
    let q = DecodeSettings::for_profile(AsrProfile::RealtimeQ5, env(false, false));
    assert!(!q.token_timestamps && q.no_timestamps && q.single_segment && q.no_context && q.use_gpu);
    assert_eq!((q.audio_ctx, q.max_tokens, q.n_max_text_ctx), (Some(512), Some(64), Some(0)));
    assert!(!q.require_coreml_encoder);
    let q = DecodeSettings::for_profile(AsrProfile::RealtimeQ5, env(true, false));
    assert_eq!(q.audio_ctx, Some(1024));
    assert!(q.require_coreml_encoder);
    assert!(!DecodeSettings::for_profile(AsrProfile::RealtimeQ5, env(true, true)).require_coreml_encoder);
    let w = DecodeSettings::for_windowed_q5(env(false, false));
    assert_eq!((w.audio_ctx, w.max_tokens), (Some(768), Some(96)));
    assert_eq!(DecodeSettings::for_windowed_q5(env(true, false)).audio_ctx, Some(1024));
}
