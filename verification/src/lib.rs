//! Verified core of an on-device meeting transcription pipeline: text
//! normalisation, word alignment helpers, error-rate counting, timestamp
//! repair, streaming commit policies, decoder settings, the model
//! catalogue, and the small decision state machines that drive them.

pub mod text;
pub mod wordtime;
pub mod eval;
pub mod cleanup;
pub mod window;
pub mod backend;
pub mod streaming;
pub mod whisper;
pub mod engines;
pub mod export;
pub mod capture;
pub mod session;
pub mod policy;
pub mod timestamps;
pub mod sidecar;
pub mod models;
pub mod decode;
