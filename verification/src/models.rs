//! The model catalogue: what can be installed, what is installed, and the
//! checks around a download.

use vstd::prelude::*;
use crate::export::{decimal, decimal_chars};
use crate::text::{chars_eq, chars_of, push_char, push_str};

verus! {

/// One downloadable file: where it comes from and where it goes under
/// the models root.
#[derive(Clone, Copy, Debug)]
pub struct ModelFile {
    pub url: &'static str,
    pub rel: &'static str,
    /// The expected size in bytes (0: trust the server's length).
    pub bytes: u64,
}

/// One entry of the catalogue.
#[derive(Clone, Debug)]
pub struct ModelEntry {
    pub id: &'static str,
    pub label: &'static str,
    /// The file (or directory) whose presence means the model is installed.
    pub probe: &'static str,
    pub approx_mb: u32,
    /// The files fetched automatically (none: the model is placed by hand).
    pub files: Vec<ModelFile>,
}

/// The installation state of one model.
#[derive(Clone, Debug)]
pub struct ModelStatus {
    pub id: String,
    pub label: String,
    pub present: bool,
    pub approx_mb: u32,
    /// Whether the model can be downloaded automatically.
    pub downloadable: bool,
}

fn model_file(url: &'static str, rel: &'static str, bytes: u64) -> (f: ModelFile)
    ensures
        f.url == url,
        f.rel == rel,
        f.bytes == bytes,
{
    ModelFile { url, rel, bytes }
}

/// The catalogue: the Whisper large-v3-turbo Q5 model and Qwen3-ASR 0.6B,
/// both downloadable, then SenseVoice and the diarisation models, which
/// are placed by hand.
pub fn catalog() -> (c: Vec<ModelEntry>)
    ensures
        c.len() == 4,
        c@[0].id@ == "ggml-large-v3-turbo-q5_0"@,
        c@[0].label@ == "Whisper large-v3-turbo Q5 (기본)"@,
        c@[0].probe@ == "ggml/ggml-large-v3-turbo-q5_0.bin"@,
        c@[0].approx_mb == 547,
        c@[0].files.len() == 1,
        c@[0].files@[0].url@
            == "https://huggingface.co/ggerganov/whisper.cpp/resolve/main/ggml-large-v3-turbo-q5_0.bin"@,
        c@[0].files@[0].rel@ == "ggml/ggml-large-v3-turbo-q5_0.bin"@,
        c@[0].files@[0].bytes == 574_041_195,
        c@[1].id@ == "qwen"@,
        c@[1].label@ == "Qwen3-ASR 0.6B"@,
        c@[1].probe@ == "qwen/model.safetensors"@,
        c@[1].approx_mb == 1789,
        c@[1].files.len() == 5,
        c@[1].files@[0].url@ == "https://huggingface.co/Qwen/Qwen3-ASR-0.6B/resolve/main/config.json"@,
        c@[1].files@[0].rel@ == "qwen/config.json"@,
        c@[1].files@[0].bytes == 0,
        c@[1].files@[1].url@
            == "https://huggingface.co/Qwen/Qwen3-ASR-0.6B/resolve/main/generation_config.json"@,
        c@[1].files@[1].rel@ == "qwen/generation_config.json"@,
        c@[1].files@[1].bytes == 0,
        c@[1].files@[2].url@
            == "https://huggingface.co/Qwen/Qwen3-ASR-0.6B/resolve/main/model.safetensors"@,
        c@[1].files@[2].rel@ == "qwen/model.safetensors"@,
        c@[1].files@[2].bytes == 1_876_091_704,
        c@[1].files@[3].url@ == "https://huggingface.co/Qwen/Qwen3-ASR-0.6B/resolve/main/vocab.json"@,
        c@[1].files@[3].rel@ == "qwen/vocab.json"@,
        c@[1].files@[3].bytes == 0,
        c@[1].files@[4].url@ == "https://huggingface.co/Qwen/Qwen3-ASR-0.6B/resolve/main/merges.txt"@,
        c@[1].files@[4].rel@ == "qwen/merges.txt"@,
        c@[1].files@[4].bytes == 0,
        c@[2].id@ == "sensevoice"@,
        c@[2].label@ == "SenseVoice 다국어"@,
        c@[2].probe@ == "sense/model.onnx"@,
        c@[2].approx_mb == 228,
        c@[2].files.len() == 0,
        c@[3].id@ == "diar"@,
        c@[3].label@ == "화자분리(pyannote + CAM++)"@,
        c@[3].probe@ == "diar/sherpa-onnx-pyannote-segmentation-3-0"@,
        c@[3].approx_mb == 35,
        c@[3].files.len() == 0,
{
    let mut whisper_files: Vec<ModelFile> = Vec::new();
    whisper_files.push(
        model_file(
            "https://huggingface.co/ggerganov/whisper.cpp/resolve/main/ggml-large-v3-turbo-q5_0.bin",
            "ggml/ggml-large-v3-turbo-q5_0.bin",
            574_041_195,
        ),
    );
    let mut qwen_files: Vec<ModelFile> = Vec::new();
    qwen_files.push(
        model_file(
            "https://huggingface.co/Qwen/Qwen3-ASR-0.6B/resolve/main/config.json",
            "qwen/config.json",
            0,
        ),
    );
    qwen_files.push(
        model_file(
            "https://huggingface.co/Qwen/Qwen3-ASR-0.6B/resolve/main/generation_config.json",
            "qwen/generation_config.json",
            0,
        ),
    );
    qwen_files.push(
        model_file(
            "https://huggingface.co/Qwen/Qwen3-ASR-0.6B/resolve/main/model.safetensors",
            "qwen/model.safetensors",
            1_876_091_704,
        ),
    );
    qwen_files.push(
        model_file(
            "https://huggingface.co/Qwen/Qwen3-ASR-0.6B/resolve/main/vocab.json",
            "qwen/vocab.json",
            0,
        ),
    );
    qwen_files.push(
        model_file(
            "https://huggingface.co/Qwen/Qwen3-ASR-0.6B/resolve/main/merges.txt",
            "qwen/merges.txt",
            0,
        ),
    );
    let mut c: Vec<ModelEntry> = Vec::new();
    c.push(
        ModelEntry {
            id: "ggml-large-v3-turbo-q5_0",
            label: "Whisper large-v3-turbo Q5 (기본)",
            probe: "ggml/ggml-large-v3-turbo-q5_0.bin",
            approx_mb: 547,
            files: whisper_files,
        },
    );
    c.push(
        ModelEntry {
            id: "qwen",
            label: "Qwen3-ASR 0.6B",
            probe: "qwen/model.safetensors",
            approx_mb: 1789,
            files: qwen_files,
        },
    );
    c.push(
        ModelEntry {
            id: "sensevoice",
            label: "SenseVoice 다국어",
            probe: "sense/model.onnx",
            approx_mb: 228,
            files: Vec::new(),
        },
    );
    c.push(
        ModelEntry {
            id: "diar",
            label: "화자분리(pyannote + CAM++)",
            probe: "diar/sherpa-onnx-pyannote-segmentation-3-0",
            approx_mb: 35,
            files: Vec::new(),
        },
    );
    c
}

/// The status of a catalogue entry, given whether its probe exists.
pub fn model_status(entry: &ModelEntry, present: bool) -> (s: ModelStatus)
    ensures
        s.id@ == entry.id@,
        s.label@ == entry.label@,
        s.present == present,
        s.approx_mb == entry.approx_mb,
        s.downloadable == (entry.files.len() > 0),
{
    ModelStatus {
        id: entry.id.to_string(),
        label: entry.label.to_string(),
        present,
        approx_mb: entry.approx_mb,
        downloadable: entry.files.len() > 0,
    }
}

/// The status of every entry, in catalogue order, given which probes exist.
pub fn statuses(entries: &Vec<ModelEntry>, present: &Vec<bool>) -> (r: Vec<ModelStatus>)
    requires
        present.len() == entries.len(),
    ensures
        r.len() == entries.len(),
        forall|k: int|
            0 <= k < entries.len() ==> {
                &&& (#[trigger] r[k]).id@ == entries[k].id@
                &&& r[k].label@ == entries[k].label@
                &&& r[k].present == present[k]
                &&& r[k].approx_mb == entries[k].approx_mb
                &&& r[k].downloadable == (entries[k].files.len() > 0)
            },
{
    let mut r: Vec<ModelStatus> = Vec::new();
    for k in 0..entries.len()
        invariant
            present.len() == entries.len(),
            r.len() == k,
            forall|t: int|
                0 <= t < k ==> {
                    &&& (#[trigger] r[t]).id@ == entries[t].id@
                    &&& r[t].label@ == entries[t].label@
                    &&& r[t].present == present[t]
                    &&& r[t].approx_mb == entries[t].approx_mb
                    &&& r[t].downloadable == (entries[t].files.len() > 0)
                },
    {
        r.push(model_status(&entries[k], present[k]));
    }
    r
}

/// Why a model cannot be (or was not) downloaded.
#[derive(Clone, Debug)]
pub enum ModelError {
    /// No catalogue entry has this id.
    Unknown(String),
    /// The entry (named by its label) has no automatic download.
    ManualOnly(String),
    /// A file ended short of or beyond its expected size.
    Incomplete { rel: String, received: u64, total: u64 },
}

/// The first position from `k` on whose entry has the id `id`, or -1.
pub open spec fn find_from(es: Seq<ModelEntry>, id: Seq<char>, k: int) -> int
    decreases es.len() - k,
{
    if k < 0 || k >= es.len() {
        -1
    } else if es[k].id@ == id {
        k
    } else {
        find_from(es, id, k + 1)
    }
}

proof fn lemma_find_from(es: Seq<ModelEntry>, id: Seq<char>, k: int)
    requires
        0 <= k,
    ensures
        find_from(es, id, k) == -1 || (k <= find_from(es, id, k) < es.len() && es[find_from(
            es,
            id,
            k,
        )].id@ == id),
    decreases es.len() - k,
{
    if k < es.len() && es[k].id@ != id {
        lemma_find_from(es, id, k + 1);
    }
}

/// Which entry a download of `id` fetches: the first entry with that id;
/// an unknown id and an entry without automatic download are refused.
pub fn plan_download(entries: &Vec<ModelEntry>, id: &str) -> (r: Result<usize, ModelError>)
    ensures
        find_from(entries@, id@, 0) == -1 ==> (r matches Err(ModelError::Unknown(x)) && x@ == id@),
        find_from(entries@, id@, 0) >= 0 ==> {
            let e = entries@[find_from(entries@, id@, 0)];
            &&& e.files.len() == 0 ==> (r matches Err(ModelError::ManualOnly(l)) && l@ == e.label@)
            &&& e.files.len() > 0 ==> r == Ok::<usize, ModelError>(
                find_from(entries@, id@, 0) as usize,
            )
        },
{
    let want = chars_of(id);
    let mut k: usize = 0;
    while k < entries.len()
        invariant
            want@ == id@,
            k <= entries.len(),
            find_from(entries@, id@, 0) == find_from(entries@, id@, k as int),
        decreases entries.len() - k,
    {
        if chars_eq(&chars_of(entries[k].id), &want) {
            if entries[k].files.len() == 0 {
                return Err(ModelError::ManualOnly(entries[k].label.to_string()));
            }
            return Ok(k);
        }
        k += 1;
    }
    Err(ModelError::Unknown(id.to_string()))
}

/// Progress is reported every four million bytes, and when the expected
/// total (if known) is reached.
pub open spec fn spec_should_report(received: u64, last_report: u64, total: u64) -> bool {
    received - last_report >= 4_000_000 || (total > 0 && received >= total)
}

/// Whether a download that has `received` bytes, last reported at
/// `last_report`, reports its progress now.
pub fn should_report_progress(received: u64, last_report: u64, total: u64) -> (r: bool)
    requires
        last_report <= received,
    ensures
        r == spec_should_report(received, last_report, total),
{
    received - last_report >= 4_000_000 || (total > 0 && received >= total)
}

/// A finished download is accepted unless a known total (non-zero)
/// differs from what was received.
pub fn check_download(rel: &str, received: u64, total: u64) -> (r: Result<(), ModelError>)
    ensures
        (total > 0 && received != total) ==> (r matches Err(
            ModelError::Incomplete { rel: x, received: a, total: b },
        ) && x@ == rel@ && a == received && b == total),
        !(total > 0 && received != total) ==> r is Ok,
{
    if total > 0 && received != total {
        Err(ModelError::Incomplete { rel: rel.to_string(), received, total })
    } else {
        Ok(())
    }
}

impl ModelError {
    /// The message shown to the user.
    pub fn message(&self) -> (m: String)
        ensures
            self matches ModelError::Unknown(id) ==> m@ == "알 수 없는 모델: "@ + id@,
            self matches ModelError::ManualOnly(label) ==> m@ == label@
                + " 은(는) 자동 다운로드 미지원입니다(수동 배치 필요)."@,
            self matches ModelError::Incomplete { rel, received, total } ==> m@ == rel@
                + " 다운로드 손상: "@ + decimal(received as nat) + "/"@ + decimal(total as nat)
                + "B. 다시 시도하세요."@,
    {
        match self {
            ModelError::Unknown(id) => {
                let mut m = "알 수 없는 모델: ".to_string();
                push_str(&mut m, id.as_str());
                m
            },
            ModelError::ManualOnly(label) => {
                let mut m = label.clone();
                push_str(&mut m, " 은(는) 자동 다운로드 미지원입니다(수동 배치 필요).");
                m
            },
            ModelError::Incomplete { rel, received, total } => {
                let mut m = rel.clone();
                push_str(&mut m, " 다운로드 손상: ");
                push_digits(&mut m, *received);
                push_str(&mut m, "/");
                push_digits(&mut m, *total);
                push_str(&mut m, "B. 다시 시도하세요.");
                m
            },
        }
    }
}

/// Appends the decimal digits of `n` to `s`.
fn push_digits(s: &mut String, n: u64)
    ensures
        final(s)@ == old(s)@ + decimal(n as nat),
{
    let d = decimal_chars(n);
    let ghost base = s@;
    let mut k: usize = 0;
    while k < d.len()
        invariant
            k <= d.len(),
            s@ == base + d@.take(k as int),
        decreases d.len() - k,
    {
        push_char(s, d[k]);
        assert(d@.take(k + 1) =~= d@.take(k as int).push(d@[k as int]));
        k += 1;
    }
    assert(d@.take(d.len() as int) =~= d@);
}

} // verus!
