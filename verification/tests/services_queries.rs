use std::path::PathBuf;

use sva_core::backend::{backend_method, slice_mode, BackendMethod, SliceMode, SliceParams};
use sva_core::mcp::{invalid_request_message, mcp_tool, search_limit, unknown_tool_message, McpTool};
use sva_core::error::FuzzyMatch;
use sva_core::services::{
    normalize_block_type, normalize_circuit_type, matching_blocks, query_slice_block_drivers, query_slice_signal_drivers, BlockQueryView,
    BlocksQueryRequest,
};
use sva_core::types::{
    BlockId, BlockJson, SignalNode, StableSliceEdgeJson, StableSliceGraphJson, StableSliceNodeJson,
};

fn block_json(id: u64) -> BlockJson {
    BlockJson {
        id: BlockId(id),
        scope: "TOP.dut".to_string(),
        block_type: "Assign".to_string(),
        source_file: "design.sv".to_string(),
        line_start: id as usize,
        line_end: id as usize,
        ast_line_start: id as usize,
        ast_line_end: id as usize,
        code_snippet: format!("assign b{id} = a{id};"),
    }
}

fn distance_one_driver_graph() -> StableSliceGraphJson {
    StableSliceGraphJson {
        target: "d".to_string(),
        start_time: None,
        nodes: vec![
            StableSliceNodeJson::Block { id: 0, block_id: BlockId(1), time: None },
            StableSliceNodeJson::Block { id: 1, block_id: BlockId(2), time: None },
            StableSliceNodeJson::Block { id: 2, block_id: BlockId(3), time: None },
            StableSliceNodeJson::Block { id: 3, block_id: BlockId(4), time: None },
        ],
        edges: vec![
            StableSliceEdgeJson { from: 0, to: 2, signal: Some(SignalNode::named("a")) },
            StableSliceEdgeJson { from: 1, to: 2, signal: Some(SignalNode::named("b")) },
            StableSliceEdgeJson { from: 2, to: 3, signal: Some(SignalNode::named("c")) },
        ],
        blocks: vec![block_json(1), block_json(2), block_json(3), block_json(4)],
    }
}

#[test]
fn slice_signal_query_can_override_artifact_target_with_requested_signal() {
    let graph = distance_one_driver_graph();
    let response =
        query_slice_signal_drivers("slice-static-d.json".to_string(), &graph, Some("c".to_string()));
    let signal_names = response.signals.iter().map(|signal| signal.name.as_str()).collect::<Vec<_>>();
    assert_eq!(response.target, "c");
    assert_eq!(signal_names, vec!["a", "b"]);
}

#[test]
fn slice_signal_query_defaults_to_the_artifact_target() {
    let graph = distance_one_driver_graph();
    let response = query_slice_signal_drivers("slice-static-d.json".to_string(), &graph, None);
    let signal_names = response.signals.iter().map(|signal| signal.name.as_str()).collect::<Vec<_>>();
    assert_eq!(response.slice_json, "slice-static-d.json");
    assert_eq!(response.target, "d");
    assert_eq!(signal_names, vec!["c"]);
}

#[test]
fn slice_block_query_reads_artifact_and_returns_direct_driver_block() {
    let graph = distance_one_driver_graph();
    let response = query_slice_block_drivers("slice-static-d.json".to_string(), &graph, None);
    let block_ids = response.blocks.iter().map(|block| block.id.0).collect::<Vec<_>>();
    assert_eq!(response.target, "d");
    assert_eq!(block_ids, vec![4]);
}

#[test]
fn slice_block_query_can_override_artifact_target_with_requested_signal() {
    let graph = distance_one_driver_graph();
    let response =
        query_slice_block_drivers("slice-static-d.json".to_string(), &graph, Some("c".to_string()));
    let block_ids = response.blocks.iter().map(|block| block.id.0).collect::<Vec<_>>();
    assert_eq!(response.target, "c");
    assert_eq!(block_ids, vec![3]);
}

fn view(id: u64, block_type: &str, circuit_type: &str, ins: &[&str], outs: &[&str]) -> BlockQueryView {
    BlockQueryView {
        id,
        block_type: block_type.to_string(),
        circuit_type: circuit_type.to_string(),
        module_scope: "TOP.a.b".to_string(),
        source_file: "/tmp/project/rtl/child.sv".to_string(),
        input_signals: ins.iter().map(|s| s.to_string()).collect(),
        output_signals: outs.iter().map(|s| s.to_string()).collect(),
    }
}

#[test]
fn blocks_query_matches_cli_filters() {
    let views = vec![
        view(7, "Always", "Sequential", &["TOP.a.b.in0", "TOP.a.b.in1"], &["TOP.a.b.out0", "TOP.a.b.out1"]),
        view(8, "Assign", "Combinational", &["TOP.a.b.in0"], &["TOP.a.b.out2"]),
    ];
    let req = BlocksQueryRequest {
        input: PathBuf::from("blocks.json"),
        block_id: None,
        output_signals: vec!["TOP.a.b.out0".to_string(), "TOP.a.b.out1".to_string()],
        input_signals: vec!["TOP.a.b.in0".to_string(), "TOP.a.b.in1".to_string()],
        scope: Some("TOP.a".to_string()),
        block_type: Some("always".to_string()),
        circuit_type: Some("sequential".to_string()),
        source_file: Some("rtl/child.sv".to_string()),
    };
    let matched = matching_blocks(&views, &req);
    assert_eq!(matched.len(), 1);
    assert_eq!(views[matched[0]].id, 7);
    assert_eq!(views[matched[0]].module_scope, "TOP.a.b");
}

#[test]
fn blocks_query_scope_needs_a_whole_scope_segment() {
    let views = vec![view(7, "Always", "Sequential", &[], &[])];
    let mut req = BlocksQueryRequest { scope: Some("TOP.a.bb".to_string()), ..Default::default() };
    assert!(matching_blocks(&views, &req).is_empty());
    req.scope = Some("TOP.a.b".to_string());
    assert_eq!(matching_blocks(&views, &req), vec![0]);
    req.block_id = Some(8);
    assert!(matching_blocks(&views, &req).is_empty());
}

fn slice_params(static_slice: bool, vcd: Option<&str>, time: Option<i64>, min_time: Option<i64>) -> SliceParams {
    SliceParams {
        sv_files: vec!["a.sv".to_string()],
        signal: "TOP.y".to_string(),
        vcd: vcd.map(|s| s.to_string()),
        time,
        min_time,
        static_slice,
        clock: None,
        clk_step: None,
    }
}

#[test]
fn backend_routes_known_methods_only() {
    assert_eq!(backend_method("slice"), Some(BackendMethod::Slice));
    assert_eq!(backend_method("initialize"), Some(BackendMethod::Initialize));
    assert_eq!(backend_method("wave"), Some(BackendMethod::Wave));
    assert_eq!(backend_method("Slice"), None);
    assert_eq!(backend_method(""), None);
}

#[test]
fn dynamic_slice_requests_name_the_first_missing_part() {
    assert!(matches!(slice_mode(&slice_params(true, None, None, None)), Ok(SliceMode::Static)));
    match slice_mode(&slice_params(false, None, Some(3), None)) {
        Err(msg) => assert_eq!(msg, "vcd required for dynamic slice"),
        Ok(_) => panic!("expected an error"),
    }
    match slice_mode(&slice_params(false, Some("w.vcd"), None, None)) {
        Err(msg) => assert_eq!(msg, "time required for dynamic slice"),
        Ok(_) => panic!("expected an error"),
    }
    match slice_mode(&slice_params(false, Some("w.vcd"), Some(5), None)) {
        Err(msg) => assert_eq!(msg, "min_time required for dynamic slice"),
        Ok(_) => panic!("expected an error"),
    }
    match slice_mode(&slice_params(false, Some("w.vcd"), Some(5), Some(1))) {
        Ok(SliceMode::Dynamic { vcd, time, min_time }) => {
            assert_eq!(vcd, "w.vcd");
            assert_eq!((time, min_time), (5, 1));
        }
        _ => panic!("expected a dynamic slice"),
    }
}

#[test]
fn tools_are_found_by_name() {
    assert_eq!(mcp_tool("wave_signal_search"), Some(McpTool::WaveSignalSearch));
    assert_eq!(mcp_tool("create_slice_json_dynamic"), Some(McpTool::CreateSliceJsonDynamic));
    assert_eq!(mcp_tool("blockize"), Some(McpTool::Blockize));
    assert_eq!(mcp_tool("nope"), None);
    assert_eq!(unknown_tool_message("nope"), "unknown tool: nope");
    assert_eq!(invalid_request_message("wave_value", "missing field `vcd`"), "invalid wave_value request: missing field `vcd`");
    assert_eq!(search_limit(None), 5);
    assert_eq!(search_limit(Some(12)), 12);
}

#[test]
fn filters_ignore_case_dashes_and_underscores() {
    assert_eq!(normalize_block_type("MOD-INPUT"), "ModInput");
    assert_eq!(normalize_block_type("mod_output"), "ModOutput");
    assert_eq!(normalize_block_type("Weird"), "Weird");
    assert_eq!(normalize_circuit_type("SEQ_uential"), "Sequential");
    assert_eq!(normalize_circuit_type("COMBINATIONAL"), "Combinational");
}

#[test]
fn suggestions_prefer_names_ending_in_the_query() {
    let candidates = vec!["tb.dut.result".to_string(), "tb.other".to_string(), "zzz".to_string()];
    assert_eq!(FuzzyMatch::find_top_n("result", &candidates), vec!["tb.dut.result".to_string()]);
    assert!(FuzzyMatch::find_top_n("qqq", &candidates).is_empty());
}
