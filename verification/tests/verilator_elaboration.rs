use std::sync::Arc;

use sva_core::block::{Block, BlockSet, BlockType, CircuitType, DataflowEntry};
use sva_core::coverage::elaboration::{
    collect_file_map, ElaboratedCoverageTracker, FileMap, VerilatorElaborationIndex,
};
use sva_core::coverage::CoverageTracker;
use sva_core::error::SvaError;
use sva_core::json::{JsonField, JsonValue};
use sva_core::slicer::{BluesSlicer, SliceRequest, TimedSliceNode};
use sva_core::types::{BlockId, SignalNode, Timestamp};

/// The library's form of a parsed JSON document.
fn to_json(v: &serde_json::Value) -> JsonValue {
    match v {
        serde_json::Value::Null => JsonValue::Null,
        serde_json::Value::Bool(b) => JsonValue::Bool(*b),
        serde_json::Value::Number(n) => JsonValue::Number(n.to_string()),
        serde_json::Value::String(s) => JsonValue::String(s.clone()),
        serde_json::Value::Array(xs) => JsonValue::Array(xs.iter().map(to_json).collect()),
        serde_json::Value::Object(m) => JsonValue::Object(
            m.iter()
                .map(|(k, v)| JsonField { key: k.clone(), value: to_json(v) })
                .collect(),
        ),
    }
}

fn index_of(tree: &str, meta: Option<&str>) -> VerilatorElaborationIndex {
    let root = to_json(&serde_json::from_str(tree).unwrap());
    let file_map = match meta {
        Some(m) => collect_file_map(&to_json(&serde_json::from_str(m).unwrap())),
        None => FileMap::new(),
    };
    VerilatorElaborationIndex::from_tree_json(&root, &file_map)
}

#[test]
fn parses_native_verilator_tree_json_locations() {
    let index = index_of(
        r#"{
  "type": "NETLIST",
  "loc": "<built-in>,0:0,0:0",
  "modulesp": [
    {
      "type": "MODULE",
      "loc": "/repo/rtl/live.sv,1:8,1:12",
      "stmtsp": [
        { "type": "VAR", "loc": "/repo/rtl/live.sv,50:3,50:8" },
        { "type": "ASSIGNW", "loc": "/repo/rtl/live.sv,10:3,10:14" },
        {
          "type": "ALWAYS",
          "loc": "../rtl/live.sv,20:1,25:4",
          "stmtsp": [
            { "type": "ASSIGNDLY", "loc": "../rtl/live.sv,22:9,22:18" }
          ]
        },
        { "type": "ASSIGN", "loc": "not-a-location" }
      ]
    },
    {
      "type": "MODULE",
      "loc": "f0,1:8,1:12",
      "stmtsp": [
        { "type": "ASSIGNW", "loc": "f0,30:3,30:14" }
      ]
    }
  ]
}"#,
        Some(
            r#"{
  "files": {
    "f0": {
      "filename": "../rtl/file_id_only.sv",
      "realpath": "/repo/rtl/file_id_only.sv"
    }
  }
}"#,
        ),
    );

    assert!(index.is_assign_like_elaborated("/other/path/live.sv", 10, 10));
    assert!(index.is_always_elaborated("live", 20, 25));
    assert!(index.is_assign_like_elaborated("live.sv", 22, 22));
    assert!(index.is_assign_like_elaborated("file_id_only.sv", 30, 30));
    assert!(!index.is_assign_like_elaborated("live.sv", 50, 50));
    assert!(!index.is_block_elaborated("missing.sv", 10, 10));
}

#[test]
fn blues_prunes_same_signal_driver_from_non_elaborated_generate_branch() {
    let block_set = BlockSet::new(vec![
        Block::builder()
            .id(BlockId(1))
            .block_type(BlockType::Assign)
            .circuit_type(CircuitType::Combinational)
            .module_scope("TOP.dut")
            .source_file("/repo/rtl/if_stage.sv")
            .lines(100, 100)
            .dataflow(vec![entry("TOP.dut.pc_id_o", &["TOP.dut.live_pc"])])
            .code_snippet("assign pc_id_o = live_pc;")
            .build()
            .unwrap(),
        Block::builder()
            .id(BlockId(2))
            .block_type(BlockType::Assign)
            .circuit_type(CircuitType::Combinational)
            .module_scope("TOP.dut")
            .source_file("/repo/rtl/if_stage.sv")
            .lines(200, 200)
            .dataflow(vec![entry("TOP.dut.pc_id_o", &["TOP.dut.dead_pc"])])
            .code_snippet("assign pc_id_o = dead_pc;")
            .build()
            .unwrap(),
    ])
    .unwrap();
    let elaboration = index_of(
        r#"{
  "type": "NETLIST",
  "stmtsp": [
    { "type": "ASSIGNW", "loc": "/repo/rtl/if_stage.sv,100:3,100:25" }
  ]
}"#,
        None,
    );
    let coverage = Arc::new(ElaboratedCoverageTracker::new(Arc::new(FixtureCoverage), elaboration));

    let path = BluesSlicer::new(block_set, coverage)
        .slice(&SliceRequest {
            signal: SignalNode::named("TOP.dut.pc_id_o"),
            time: Timestamp(5),
            min_time: Timestamp(0),
        })
        .unwrap();

    assert!(path.nodes.iter().any(|node| matches!(
        node,
        TimedSliceNode::Block { block_id: BlockId(1), time: Some(Timestamp(5)) }
    )));
    assert!(!path
        .nodes
        .iter()
        .any(|node| matches!(node, TimedSliceNode::Block { block_id: BlockId(2), .. })));
}

#[derive(Debug)]
struct FixtureCoverage;

impl CoverageTracker for FixtureCoverage {
    fn is_line_covered_at(&self, _file: &str, _line: usize, _time: Timestamp) -> Result<bool, SvaError> {
        Ok(true)
    }

    fn hit_count_at(&self, _file: &str, _line: usize, _time: Timestamp) -> Result<u64, SvaError> {
        Ok(1)
    }

    fn delta_hits(&self, _file: &str, _line: usize, _time: Timestamp) -> Result<u64, SvaError> {
        Ok(1)
    }

    fn clock_period(&self) -> Option<i64> {
        Some(1)
    }

    fn is_posedge_time(&self, _time: i64) -> bool {
        true
    }

    fn is_block_elaborated(&self, _file: &str, _line_start: usize, _line_end: usize) -> bool {
        true
    }

    fn is_scoped_line_covered_at(
        &self,
        _scope: &str,
        file: &str,
        line: usize,
        time: Timestamp,
    ) -> Result<bool, SvaError> {
        self.is_line_covered_at(file, line, time)
    }

    fn is_scope_elaborated(&self, _scope: &str) -> bool {
        true
    }
}

fn entry(output: &str, inputs: &[&str]) -> DataflowEntry {
    DataflowEntry {
        output: vec![SignalNode::named(output)],
        inputs: inputs.iter().map(|input| SignalNode::named(*input)).collect(),
    }
}
