use vstd::prelude::*;

use crate::text::str_eq;

verus! {

/// Parameters of a blockize request.
#[derive(Debug)]
pub struct BlockizeParams {
    pub sv_files: Vec<String>,
}

/// Parameters of a slice request: static, or dynamic at a time of a waveform.
#[derive(Debug)]
pub struct SliceParams {
    pub sv_files: Vec<String>,
    pub signal: String,
    pub vcd: Option<String>,
    pub time: Option<i64>,
    pub min_time: Option<i64>,
    pub static_slice: bool,
    pub clock: Option<String>,
    pub clk_step: Option<i64>,
}

/// Parameters of a coverage request.
#[derive(Debug)]
pub struct CoverageParams {
    pub sv_files: Vec<String>,
    pub vcd: String,
    pub time: i64,
}

/// Parameters of a waveform value request.
#[derive(Debug)]
pub struct WaveParams {
    pub vcd: String,
    pub signal: String,
    pub time: i64,
}

/// The methods the editor backend answers.
#[derive(Debug, Clone, Copy, PartialEq, Eq, Structural)]
pub enum BackendMethod {
    Initialize,
    Shutdown,
    Blockize,
    Slice,
    Coverage,
    Wave,
}

/// The method a request names; none for a method the backend does not know.
pub open spec fn method_named(method: Seq<char>) -> Option<BackendMethod> {
    if method == "initialize"@ {
        Some(BackendMethod::Initialize)
    } else if method == "shutdown"@ {
        Some(BackendMethod::Shutdown)
    } else if method == "blockize"@ {
        Some(BackendMethod::Blockize)
    } else if method == "slice"@ {
        Some(BackendMethod::Slice)
    } else if method == "coverage"@ {
        Some(BackendMethod::Coverage)
    } else if method == "wave"@ {
        Some(BackendMethod::Wave)
    } else {
        None
    }
}

/// The method a request names (see `method_named`).
pub fn backend_method(method: &str) -> (r: Option<BackendMethod>)
    ensures
        r == method_named(method@),
{
    if str_eq(method, "initialize") {
        Some(BackendMethod::Initialize)
    } else if str_eq(method, "shutdown") {
        Some(BackendMethod::Shutdown)
    } else if str_eq(method, "blockize") {
        Some(BackendMethod::Blockize)
    } else if str_eq(method, "slice") {
        Some(BackendMethod::Slice)
    } else if str_eq(method, "coverage") {
        Some(BackendMethod::Coverage)
    } else if str_eq(method, "wave") {
        Some(BackendMethod::Wave)
    } else {
        None
    }
}

/// How a slice request is to be answered.
#[derive(Debug)]
pub enum SliceMode {
    Static,
    Dynamic { vcd: String, time: i64, min_time: i64 },
}

/// Why a dynamic slice request cannot be answered: the first of waveform,
/// time and minimum time that it leaves out.
pub open spec fn missing_dynamic_part(params: SliceParams) -> Option<Seq<char>> {
    if params.vcd is None {
        Some("vcd required for dynamic slice"@)
    } else if params.time is None {
        Some("time required for dynamic slice"@)
    } else if params.min_time is None {
        Some("min_time required for dynamic slice"@)
    } else {
        None
    }
}

/// How to answer a slice request: a static slice when asked for one; else a
/// dynamic slice, which needs a waveform, a time and a minimum time (the
/// error names the first one missing).
pub fn slice_mode(params: &SliceParams) -> (r: Result<SliceMode, String>)
    ensures
        params.static_slice ==> r matches Ok(SliceMode::Static),
        !params.static_slice ==> match missing_dynamic_part(*params) {
            Some(msg) => r matches Err(e) && e@ == msg,
            None => r matches Ok(SliceMode::Dynamic { vcd, time, min_time }) && Some(vcd) == params.vcd && Some(time)
                == params.time && Some(min_time) == params.min_time,
        },
{
    if params.static_slice {
        return Ok(SliceMode::Static);
    }
    let vcd = match &params.vcd {
        Some(v) => v.clone(),
        None => {
            return Err(String::from_str("vcd required for dynamic slice"));
        },
    };
    let time = match params.time {
        Some(t) => t,
        None => {
            return Err(String::from_str("time required for dynamic slice"));
        },
    };
    let min_time = match params.min_time {
        Some(m) => m,
        None => {
            return Err(String::from_str("min_time required for dynamic slice"));
        },
    };
    Ok(SliceMode::Dynamic { vcd, time, min_time })
}

} // verus!
