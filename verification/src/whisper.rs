//! Naming and option helpers around whisper.cpp models: quantisation
//! suffixes, CoreML encoder paths, model file names and download URLs,
//! language selection and boolean flags.

use vstd::prelude::*;
use crate::backend::{spec_is_q5_turbo, is_q5_turbo, AsrProfile};
use crate::cleanup::{ascii_lowercase, ascii_lowercase_chars};
use crate::text::{chars_eq, chars_of, push_str, slice_chars, string_of, trim_chars, trim_ws};

verus! {

/// How `Path::parent` renders the parent of the path spelled `p` (`None`
/// at a root or for an empty path).
pub uninterp spec fn path_parent(p: Seq<char>) -> Option<Seq<char>>;

/// How `Path::file_stem` renders the final component of `p` without its
/// extension (`None` when there is no file name).
pub uninterp spec fn path_file_stem(p: Seq<char>) -> Option<Seq<char>>;

/// How `Path::file_name` renders the final component of `p`.
pub uninterp spec fn path_file_name(p: Seq<char>) -> Option<Seq<char>>;

/// How `Path::join` spells `name` appended to `base`.
pub uninterp spec fn path_joined(base: Seq<char>, name: Seq<char>) -> Seq<char>;

/// `Path::parent` of the path spelled `p`, rendered as text.
#[verifier::external_body]
fn parent_of(p: &str) -> (r: Option<String>)
    ensures
        r is None <==> path_parent(p@) is None,
        r matches Some(x) ==> path_parent(p@) == Some(x@),
{
    match std::path::Path::new(p).parent() {
        Some(q) => Some(q.to_string_lossy().into_owned()),
        None => None,
    }
}

/// `Path::file_stem` of the path spelled `p`, rendered as text.
#[verifier::external_body]
fn file_stem_of(p: &str) -> (r: Option<String>)
    ensures
        r is None <==> path_file_stem(p@) is None,
        r matches Some(x) ==> path_file_stem(p@) == Some(x@),
{
    match std::path::Path::new(p).file_stem() {
        Some(q) => Some(q.to_string_lossy().into_owned()),
        None => None,
    }
}

/// `Path::file_name` of the path spelled `p`, rendered as text.
#[verifier::external_body]
fn file_name_of(p: &str) -> (r: Option<String>)
    ensures
        r is None <==> path_file_name(p@) is None,
        r matches Some(x) ==> path_file_name(p@) == Some(x@),
{
    match std::path::Path::new(p).file_name() {
        Some(q) => Some(q.to_string_lossy().into_owned()),
        None => None,
    }
}

/// `Path::join` of `base` and `name`, rendered as text.
#[verifier::external_body]
pub(crate) fn join_path(base: &str, name: &str) -> (r: String)
    ensures
        r@ == path_joined(base@, name@),
{
    std::path::Path::new(base).join(name).to_string_lossy().into_owned()
}

/// Whether `c` is an ASCII digit.
pub open spec fn is_digit(c: char) -> bool {
    '0' <= c && c <= '9'
}

/// A model stem without a trailing `-q<digit>_<digit>` quantisation suffix.
pub open spec fn spec_strip_quant(stem: Seq<char>) -> Seq<char> {
    let n = stem.len() as int;
    if n >= 5 && stem[n - 5] == '-' && stem[n - 4] == 'q' && is_digit(stem[n - 3]) && stem[n - 2]
        == '_' && is_digit(stem[n - 1]) {
        stem.take(n - 5)
    } else {
        stem
    }
}

/// `stem` without a trailing quantisation suffix such as `-q5_0`.
pub fn strip_ggml_quant_suffix(stem: &str) -> (r: String)
    ensures
        r@ == spec_strip_quant(stem@),
{
    let v = chars_of(stem);
    let n = v.len();
    if n >= 5 && v[n - 5] == '-' && v[n - 4] == 'q' && '0' <= v[n - 3] && v[n - 3] <= '9' && v[n
        - 2] == '_' && '0' <= v[n - 1] && v[n - 1] <= '9' {
        let t = slice_chars(&v, 0, n - 5);
        assert(t@ =~= v@.take(n - 5));
        string_of(&t)
    } else {
        string_of(&v)
    }
}

/// The CoreML encoder directory name for a model stem.
pub open spec fn spec_encoder_name(stem: Seq<char>) -> Seq<char> {
    spec_strip_quant(stem) + "-encoder.mlmodelc"@
}

/// The CoreML encoder that belongs next to a model file: the parent
/// directory joined with the unquantised stem and `-encoder.mlmodelc`
/// (stem `ggml` when the path has none); `ggml-encoder.mlmodelc` for a
/// path without a parent.
pub open spec fn spec_coreml_encoder_path(model_path: Seq<char>) -> Seq<char> {
    match path_parent(model_path) {
        None => "ggml-encoder.mlmodelc"@,
        Some(parent) => {
            let stem = match path_file_stem(model_path) {
                Some(s) => s,
                None => "ggml"@,
            };
            path_joined(parent, spec_encoder_name(stem))
        },
    }
}

/// The CoreML encoder path for the model at `model_path`.
pub fn coreml_encoder_path(model_path: &str) -> (r: String)
    ensures
        r@ == spec_coreml_encoder_path(model_path@),
{
    match parent_of(model_path) {
        None => "ggml-encoder.mlmodelc".to_string(),
        Some(parent) => {
            let stem = match file_stem_of(model_path) {
                Some(s) => s,
                None => "ggml".to_string(),
            };
            let mut name = strip_ggml_quant_suffix(stem.as_str());
            push_str(&mut name, "-encoder.mlmodelc");
            join_path(parent.as_str(), name.as_str())
        },
    }
}

/// Whether the file named by `path` is the Q5_0 large-v3-turbo model.
pub open spec fn spec_is_q5_turbo_path(path: Seq<char>) -> bool {
    match path_file_name(path) {
        Some(name) => spec_is_q5_turbo(name),
        None => false,
    }
}

/// Whether `path` names the Q5_0 large-v3-turbo model file.
pub fn is_q5_turbo_model_path(path: &str) -> (r: bool)
    ensures
        r == spec_is_q5_turbo_path(path@),
{
    match file_name_of(path) {
        Some(name) => is_q5_turbo(name.as_str()),
        None => false,
    }
}

/// The ggml file name for a model id: the id itself when it ends in
/// `.bin`, otherwise the id with `.bin` appended.
pub open spec fn spec_ggml_file_name(model_id: Seq<char>) -> Seq<char> {
    if model_id.len() >= 4 && model_id.skip(model_id.len() - 4) == ".bin"@ {
        model_id
    } else {
        model_id + ".bin"@
    }
}

/// The ggml model file name for `model_id`.
pub fn ggml_file_name(model_id: &str) -> (r: String)
    ensures
        r@ == spec_ggml_file_name(model_id@),
{
    let v = chars_of(model_id);
    let suffix = chars_of(".bin");
    if v.len() >= 4 {
        let tail = slice_chars(&v, v.len() - 4, v.len());
        assert(tail@ =~= v@.skip(v.len() - 4));
        if chars_eq(&tail, &suffix) {
            return string_of(&v);
        }
    }
    let mut s = string_of(&v);
    push_str(&mut s, ".bin");
    s
}

/// Where a ggml model file is downloaded from.
pub fn ggml_download_url(file_name: &str) -> (r: String)
    ensures
        r@ == "https://huggingface.co/ggerganov/whisper.cpp/resolve/main/"@ + file_name@,
{
    let mut s = "https://huggingface.co/ggerganov/whisper.cpp/resolve/main/".to_string();
    push_str(&mut s, file_name);
    s
}

/// Where a file of a Hugging Face repository is downloaded from.
pub fn hf_resolve_url(repo: &str, file_name: &str) -> (r: String)
    ensures
        r@ == "https://huggingface.co/"@ + repo@ + "/resolve/main/"@ + file_name@,
{
    let mut s = "https://huggingface.co/".to_string();
    push_str(&mut s, repo);
    push_str(&mut s, "/resolve/main/");
    push_str(&mut s, file_name);
    s
}

/// A requested language: trimmed, and `None` when empty or `auto` in any
/// ASCII case.
pub open spec fn spec_normalized_language(lang: Option<Seq<char>>) -> Option<Seq<char>> {
    match lang {
        None => None,
        Some(s) => {
            let t = trim_ws(s);
            if t.len() == 0 || ascii_lowercase(t) == "auto"@ {
                None
            } else {
                Some(t)
            }
        },
    }
}

/// The view of an optional string.
pub open spec fn opt_view(o: Option<String>) -> Option<Seq<char>> {
    match o {
        Some(s) => Some(s@),
        None => None,
    }
}

/// The language to request from the decoder (see `spec_normalized_language`).
pub fn normalized_language(lang: Option<String>) -> (r: Option<String>)
    ensures
        opt_view(r) == spec_normalized_language(opt_view(lang)),
{
    match lang {
        None => None,
        Some(s) => {
            let t = trim_chars(&chars_of(s.as_str()));
            if t.len() == 0 {
                return None;
            }
            let low = ascii_lowercase_chars(&t);
            if chars_eq(&low, &chars_of("auto")) {
                None
            } else {
                Some(string_of(&t))
            }
        },
    }
}

/// The language for a profile: always detected for `RealtimeQ5`,
/// otherwise the normalised request.
pub fn language_for_profile(profile: AsrProfile, lang: Option<String>) -> (r: Option<String>)
    ensures
        profile == AsrProfile::RealtimeQ5 ==> r is None,
        profile != AsrProfile::RealtimeQ5 ==> opt_view(r) == spec_normalized_language(opt_view(lang)),
{
    if profile == AsrProfile::RealtimeQ5 {
        None
    } else {
        normalized_language(lang)
    }
}

/// A boolean setting spelled `v`: `1`, `true`, `yes`, `on` are true and
/// `0`, `false`, `no`, `off` false, in any ASCII case; anything else is
/// not a boolean.
pub open spec fn spec_parse_flag(v: Seq<char>) -> Option<bool> {
    let l = ascii_lowercase(v);
    if l == "1"@ || l == "true"@ || l == "yes"@ || l == "on"@ {
        Some(true)
    } else if l == "0"@ || l == "false"@ || l == "no"@ || l == "off"@ {
        Some(false)
    } else {
        None
    }
}

/// Reads a boolean setting (see `spec_parse_flag`).
pub fn parse_flag(v: &str) -> (r: Option<bool>)
    ensures
        r == spec_parse_flag(v@),
{
    let l = ascii_lowercase_chars(&chars_of(v));
    if chars_eq(&l, &chars_of("1")) || chars_eq(&l, &chars_of("true")) || chars_eq(
        &l,
        &chars_of("yes"),
    ) || chars_eq(&l, &chars_of("on")) {
        Some(true)
    } else if chars_eq(&l, &chars_of("0")) || chars_eq(&l, &chars_of("false")) || chars_eq(
        &l,
        &chars_of("no"),
    ) || chars_eq(&l, &chars_of("off")) {
        Some(false)
    } else {
        None
    }
}


/// A boolean setting read from an optional raw value: the parsed value
/// when there is one that parses (see `spec_parse_flag`), otherwise
/// `default`.
pub open spec fn spec_flag_or(raw: Option<Seq<char>>, default: bool) -> bool {
    match raw {
        Some(v) => match spec_parse_flag(v) {
            Some(b) => b,
            None => default,
        },
        None => default,
    }
}

/// Reads a boolean setting with a default (see `spec_flag_or`).
pub fn flag_or(raw: Option<&str>, default: bool) -> (r: bool)
    ensures
        r == spec_flag_or(
            match raw {
                Some(v) => Some(v@),
                None => None,
            },
            default,
        ),
{
    match raw {
        Some(v) => match parse_flag(v) {
            Some(b) => b,
            None => default,
        },
        None => default,
    }
}

} // verus!
