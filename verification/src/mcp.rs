use vstd::prelude::*;

use crate::text::str_eq;

verus! {

/// The tools that the analysis server offers.
#[derive(Debug, Clone, Copy, PartialEq, Eq, Structural)]
pub enum McpTool {
    Blockize,
    SliceStatic,
    SliceDynamic,
    CreateSliceJsonStatic,
    CreateSliceJsonDynamic,
    QuerySignalDrivers,
    QueryBlockDrivers,
    BlocksQuery,
    CoverageReport,
    WaveValue,
    WaveSignalSearch,
}

/// The name a tool is called by.
pub open spec fn tool_name(t: McpTool) -> Seq<char> {
    match t {
        McpTool::Blockize => "blockize"@,
        McpTool::SliceStatic => "slice_static"@,
        McpTool::SliceDynamic => "slice_dynamic"@,
        McpTool::CreateSliceJsonStatic => "create_slice_json_static"@,
        McpTool::CreateSliceJsonDynamic => "create_slice_json_dynamic"@,
        McpTool::QuerySignalDrivers => "query_signal_drivers"@,
        McpTool::QueryBlockDrivers => "query_block_drivers"@,
        McpTool::BlocksQuery => "blocks_query"@,
        McpTool::CoverageReport => "coverage_report"@,
        McpTool::WaveValue => "wave_value"@,
        McpTool::WaveSignalSearch => "wave_signal_search"@,
    }
}

/// The tool called `name`, if any.
pub fn mcp_tool(name: &str) -> (r: Option<McpTool>)
    ensures
        match r {
            Some(t) => tool_name(t) == name@,
            None => forall|t: McpTool| tool_name(t) != name@,
        },
{
    if str_eq(name, "blockize") {
        Some(McpTool::Blockize)
    } else if str_eq(name, "slice_static") {
        Some(McpTool::SliceStatic)
    } else if str_eq(name, "slice_dynamic") {
        Some(McpTool::SliceDynamic)
    } else if str_eq(name, "create_slice_json_static") {
        Some(McpTool::CreateSliceJsonStatic)
    } else if str_eq(name, "create_slice_json_dynamic") {
        Some(McpTool::CreateSliceJsonDynamic)
    } else if str_eq(name, "query_signal_drivers") {
        Some(McpTool::QuerySignalDrivers)
    } else if str_eq(name, "query_block_drivers") {
        Some(McpTool::QueryBlockDrivers)
    } else if str_eq(name, "blocks_query") {
        Some(McpTool::BlocksQuery)
    } else if str_eq(name, "coverage_report") {
        Some(McpTool::CoverageReport)
    } else if str_eq(name, "wave_value") {
        Some(McpTool::WaveValue)
    } else if str_eq(name, "wave_signal_search") {
        Some(McpTool::WaveSignalSearch)
    } else {
        None
    }
}

/// The text of the error for a call of a tool that does not exist.
pub fn unknown_tool_message(name: &str) -> (r: String)
    ensures
        r@ == "unknown tool: "@ + name@,
{
    let mut out = String::from_str("unknown tool: ");
    out.append(name);
    out
}

/// The text of the error for arguments that do not make a request of `tool`.
pub fn invalid_request_message(tool: &str, reason: &str) -> (r: String)
    ensures
        r@ == "invalid "@ + tool@ + " request: "@ + reason@,
{
    let mut out = String::from_str("invalid ");
    out.append(tool);
    out.append(" request: ");
    out.append(reason);
    out
}

/// The number of matches a waveform signal search returns when the request
/// sets none.
pub fn search_limit(limit: Option<usize>) -> (r: usize)
    ensures
        r == match limit {
            Some(n) => n,
            None => 5,
        },
{
    match limit {
        Some(n) => n,
        None => 5,
    }
}

} // verus!
