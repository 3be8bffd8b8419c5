//! How the speech-recognition sidecar process is launched.

use vstd::prelude::*;
use crate::whisper::{join_path, path_joined};

verus! {

/// How to start the sidecar: program, arguments, working directory and
/// extra environment variables.
#[derive(Clone)]
pub struct SidecarSpawn {
    pub program: String,
    pub args: Vec<String>,
    pub cwd: String,
    pub env: Vec<(String, String)>,
}

impl SidecarSpawn {
    /// The development launch: the Python of the project-local virtual
    /// environment under `sidecar_dir` running `stt_mlx.main` as a module,
    /// with the Hugging Face cache kept inside `sidecar_dir`.
    pub fn dev_venv(sidecar_dir: &str) -> (s: Self)
        ensures
            s.program@ == path_joined(sidecar_dir@, ".venv/bin/python"@),
            s.args@.len() == 2,
            s.args@[0]@ == "-m"@,
            s.args@[1]@ == "stt_mlx.main"@,
            s.cwd@ == sidecar_dir@,
            s.env@.len() == 1,
            s.env@[0].0@ == "HF_HOME"@,
            s.env@[0].1@ == path_joined(sidecar_dir@, ".hf-cache"@),
    {
        let program = join_path(sidecar_dir, ".venv/bin/python");
        let mut args: Vec<String> = Vec::new();
        args.push("-m".to_string());
        args.push("stt_mlx.main".to_string());
        let mut env: Vec<(String, String)> = Vec::new();
        env.push(("HF_HOME".to_string(), join_path(sidecar_dir, ".hf-cache")));
        SidecarSpawn { program, args, cwd: sidecar_dir.to_string(), env }
    }
}

} // verus!
