use std::collections::HashSet;
use std::sync::Arc;

use sva_core::block::{Block, BlockSet, BlockType, CircuitType, DataflowEntry};
use sva_core::coverage::CoverageTracker;
use sva_core::error::SvaError;
use sva_core::services::validate_slice_time;
use sva_core::slicer::blues::{blues_slice_from, CoverageAnswers};
use sva_core::slicer::BluesSlicer;
use sva_core::slicer::{SliceRequest, TimedSliceNode};
use sva_core::types::{BlockId, SignalNode, SignalNodeKind, Timestamp};

#[test]
fn blues_demo_blues_backtracks_sequential_state_until_coverage_hit_and_respects_min_time() {
    let block_set = BlockSet::new(vec![
        Block::builder()
            .id(BlockId(1))
            .block_type(BlockType::Assign)
            .circuit_type(CircuitType::Combinational)
            .module_scope("demo")
            .source_file("design.sv")
            .lines(10, 10)
            .dataflow(vec![entry("tmp", &["a", "b"])])
            .code_snippet("assign tmp = a & b;")
            .build()
            .unwrap(),
        Block::builder()
            .id(BlockId(2))
            .block_type(BlockType::Always)
            .circuit_type(CircuitType::Sequential)
            .module_scope("demo")
            .source_file("design.sv")
            .lines(20, 20)
            .dataflow(vec![entry("result", &["tmp"])])
            .code_snippet("always_ff @(posedge clk) result <= tmp;")
            .build()
            .unwrap(),
    ])
    .unwrap();

    let slicer = BluesSlicer::new(
        block_set,
        Arc::new(FixtureCoverage::covered([("design.sv", 20, 1)])),
    );

    let path = slicer
        .slice(&SliceRequest {
            signal: SignalNode::named("result"),
            time: Timestamp(3),
            min_time: Timestamp(1),
        })
        .unwrap();

    assert_eq!(
        path.nodes
            .iter()
            .filter_map(|node| match node {
                TimedSliceNode::Block {
                    block_id,
                    time: Some(time),
                } => Some((block_id.0, time.0)),
                TimedSliceNode::Block { time: None, .. } => None,
                TimedSliceNode::Literal { .. } => None,
            })
            .collect::<Vec<_>>(),
        vec![(1, 1), (2, 2), (2, 3)]
    );
    assert_eq!(
        path.edges
            .iter()
            .map(|edge| (
                match &edge.from {
                    TimedSliceNode::Block {
                        block_id,
                        time: Some(time),
                    } => Some((block_id.0, time.0)),
                    TimedSliceNode::Block { time: None, .. } => None,
                    TimedSliceNode::Literal { .. } => None,
                },
                match &edge.to {
                    TimedSliceNode::Block {
                        block_id,
                        time: Some(time),
                    } => Some((block_id.0, time.0)),
                    TimedSliceNode::Block { time: None, .. } => None,
                    TimedSliceNode::Literal { .. } => None,
                },
                edge.signal.as_ref().map(|signal| signal.name.as_str()),
            ))
            .collect::<Vec<_>>(),
        vec![
            (Some((1, 1)), Some((2, 2)), Some("tmp")),
            (Some((2, 2)), Some((2, 3)), Some("result")),
        ]
    );
    assert!(path.nodes.iter().all(|node| match node {
        TimedSliceNode::Block {
            time: Some(time), ..
        }
        | TimedSliceNode::Literal {
            time: Some(time), ..
        } => time.0 >= 1,
        TimedSliceNode::Block { time: None, .. } | TimedSliceNode::Literal { time: None, .. } =>
            false,
    }));
}

#[test]
fn blues_demo_blues_keeps_dependencies_from_distinct_outputs_of_same_block() {
    let block_set = BlockSet::new(vec![
        Block::builder()
            .id(BlockId(1))
            .block_type(BlockType::Assign)
            .circuit_type(CircuitType::Combinational)
            .module_scope("demo")
            .source_file("design.sv")
            .lines(10, 10)
            .dataflow(vec![entry("left_src", &["a"])])
            .code_snippet("assign left_src = a;")
            .build()
            .unwrap(),
        Block::builder()
            .id(BlockId(2))
            .block_type(BlockType::Assign)
            .circuit_type(CircuitType::Combinational)
            .module_scope("demo")
            .source_file("design.sv")
            .lines(11, 11)
            .dataflow(vec![entry("right_src", &["b"])])
            .code_snippet("assign right_src = b;")
            .build()
            .unwrap(),
        Block::builder()
            .id(BlockId(3))
            .block_type(BlockType::Assign)
            .circuit_type(CircuitType::Combinational)
            .module_scope("demo")
            .source_file("design.sv")
            .lines(12, 13)
            .dataflow(vec![
                entry("left", &["left_src"]),
                entry("right", &["right_src"]),
            ])
            .code_snippet("assign left = left_src; assign right = right_src;")
            .build()
            .unwrap(),
        Block::builder()
            .id(BlockId(4))
            .block_type(BlockType::Assign)
            .circuit_type(CircuitType::Combinational)
            .module_scope("demo")
            .source_file("design.sv")
            .lines(14, 14)
            .dataflow(vec![entry("result", &["left", "right"])])
            .code_snippet("assign result = left ^ right;")
            .build()
            .unwrap(),
    ])
    .unwrap();

    let slicer = BluesSlicer::new(block_set, Arc::new(FixtureCoverage::covered([])));

    let path = slicer
        .slice(&SliceRequest {
            signal: SignalNode::named("result"),
            time: Timestamp(5),
            min_time: Timestamp(0),
        })
        .unwrap();

    assert!(path.nodes.iter().any(|node| matches!(
        node,
        TimedSliceNode::Block {
            block_id: BlockId(1),
            ..
        }
    )));
    assert!(path.nodes.iter().any(|node| matches!(
        node,
        TimedSliceNode::Block {
            block_id: BlockId(2),
            ..
        }
    )));
    assert!(path.edges.iter().any(|edge| {
        matches!(
            edge.from,
            TimedSliceNode::Block {
                block_id: BlockId(1),
                ..
            }
        ) && matches!(
            edge.to,
            TimedSliceNode::Block {
                block_id: BlockId(3),
                ..
            }
        ) && edge.signal.as_ref().map(|signal| signal.name.as_str()) == Some("left_src")
    }));
    assert!(path.edges.iter().any(|edge| {
        matches!(
            edge.from,
            TimedSliceNode::Block {
                block_id: BlockId(2),
                ..
            }
        ) && matches!(
            edge.to,
            TimedSliceNode::Block {
                block_id: BlockId(3),
                ..
            }
        ) && edge.signal.as_ref().map(|signal| signal.name.as_str()) == Some("right_src")
    }));
}

#[test]
fn blues_demo_blues_keeps_literals_as_terminal_nodes() {
    let block_set = BlockSet::new(vec![Block::builder()
        .id(BlockId(2))
        .block_type(BlockType::Always)
        .circuit_type(CircuitType::Sequential)
        .module_scope("demo")
        .source_file("design.sv")
        .lines(53, 55)
        .dataflow(vec![DataflowEntry {
            output: vec![SignalNode::named("result")],
            inputs: vec![SignalNode::named("rst_n"), SignalNode::literal("8'h0")],
        }])
        .code_snippet("always_ff @(posedge clk or negedge rst_n) if (!rst_n) result <= 8'h0;")
        .build()
        .unwrap()])
    .unwrap();

    let path = BluesSlicer::new(
        block_set,
        Arc::new(FixtureCoverage::covered([("design.sv", 53, 2)])),
    )
    .slice(&SliceRequest {
        signal: SignalNode::named("result"),
        time: Timestamp(3),
        min_time: Timestamp(0),
    })
    .unwrap();

    assert!(path.nodes.iter().any(|node| match node {
        TimedSliceNode::Literal {
            signal,
            time: Some(time),
        } => {
            signal.kind == SignalNodeKind::Literal && signal.name == "8'h0" && time.0 == 2
        }
        _ => false,
    }));
    assert!(path.edges.iter().any(|edge| match (&edge.from, &edge.to) {
        (
            TimedSliceNode::Literal {
                signal,
                time: Some(time),
            },
            TimedSliceNode::Block {
                block_id,
                time: Some(sink_time),
            },
        ) => {
            signal.name == "8'h0"
                && time.0 == 2
                && block_id.0 == 2
                && sink_time.0 == 3
                && edge.signal.is_none()
        }
        _ => false,
    }));
}

#[test]
fn blues_resolves_signal_with_omitted_intermediate_instance() {
    let canonical_signal = "TOP.ibex_simple_system.u_top.u_ibex_top.u_ibex_core.if_stage_i.pc_id_o";
    let query_signal = "TOP.ibex_simple_system.u_ibex_top.u_ibex_core.if_stage_i.pc_id_o";

    let block_set = BlockSet::new(vec![Block::builder()
        .id(BlockId(77))
        .block_type(BlockType::Assign)
        .circuit_type(CircuitType::Combinational)
        .module_scope("ibex_if_stage")
        .source_file("ibex_if_stage.sv")
        .lines(501, 501)
        .dataflow(vec![DataflowEntry {
            output: vec![SignalNode::named(canonical_signal)],
            inputs: vec![SignalNode::named(
                "TOP.ibex_simple_system.u_top.u_ibex_top.u_ibex_core.if_stage_i.pc_if_o",
            )],
        }])
        .code_snippet("assign pc_id_o = pc_if_o;")
        .build()
        .unwrap()])
    .unwrap();

    let path = BluesSlicer::new(block_set, Arc::new(FixtureCoverage::covered([])))
        .slice(&SliceRequest {
            signal: SignalNode::named(query_signal),
            time: Timestamp(3),
            min_time: Timestamp(0),
        })
        .unwrap();

    assert!(path.nodes.iter().any(|node| matches!(
        node,
        TimedSliceNode::Block {
            block_id: BlockId(77),
            time: Some(Timestamp(3)),
        }
    )));
}

#[derive(Debug, Default)]
struct FixtureCoverage {
    covered_lines: HashSet<(String, usize, i64)>,
}

impl FixtureCoverage {
    fn covered<const N: usize>(entries: [(&str, usize, i64); N]) -> Self {
        Self {
            covered_lines: entries
                .into_iter()
                .map(|(file, line, time)| (file.to_string(), line, time))
                .collect(),
        }
    }
}

impl CoverageTracker for FixtureCoverage {
    fn is_line_covered_at(&self, file: &str, line: usize, time: Timestamp) -> Result<bool, SvaError> {
        Ok(self
            .covered_lines
            .contains(&(file.to_string(), line, time.0)))
    }

    fn hit_count_at(&self, file: &str, line: usize, time: Timestamp) -> Result<u64, SvaError> {
        Ok(u64::from(self.is_line_covered_at(file, line, time)?))
    }

    fn delta_hits(&self, file: &str, line: usize, time: Timestamp) -> Result<u64, SvaError> {
        self.hit_count_at(file, line, time)
    }

    fn clock_period(&self) -> Option<i64> {
        Some(1)
    }

    fn is_posedge_time(&self, _time: i64) -> bool {
        true
    }

    fn is_block_elaborated(&self, _file: &str, _line_start: usize, _line_end: usize) -> bool {
        true
    }

    fn is_scoped_line_covered_at(
        &self,
        _scope: &str,
        file: &str,
        line: usize,
        time: Timestamp,
    ) -> Result<bool, SvaError> {
        self.is_line_covered_at(file, line, time)
    }

    fn is_scope_elaborated(&self, _scope: &str) -> bool {
        true
    }
}

fn entry(output: &str, inputs: &[&str]) -> DataflowEntry {
    DataflowEntry {
        output: vec![SignalNode::named(output)],
        inputs: inputs
            .iter()
            .map(|input| SignalNode::named(*input))
            .collect::<Vec<_>>(),
    }
}

struct OffEdgeCoverage;

impl CoverageTracker for OffEdgeCoverage {
    fn is_line_covered_at(&self, _file: &str, _line: usize, _time: Timestamp) -> Result<bool, SvaError> {
        Ok(false)
    }

    fn hit_count_at(&self, _file: &str, _line: usize, _time: Timestamp) -> Result<u64, SvaError> {
        Ok(0)
    }

    fn delta_hits(&self, _file: &str, _line: usize, _time: Timestamp) -> Result<u64, SvaError> {
        Ok(0)
    }

    fn clock_period(&self) -> Option<i64> {
        Some(2)
    }

    fn is_posedge_time(&self, time: i64) -> bool {
        time % 2 == 0 && time != 4
    }

    fn is_block_elaborated(&self, _file: &str, _line_start: usize, _line_end: usize) -> bool {
        true
    }

    fn is_scoped_line_covered_at(
        &self,
        _scope: &str,
        file: &str,
        line: usize,
        time: Timestamp,
    ) -> Result<bool, SvaError> {
        self.is_line_covered_at(file, line, time)
    }

    fn is_scope_elaborated(&self, _scope: &str) -> bool {
        true
    }
}

#[test]
fn slice_time_is_checked_against_the_clock() {
    assert!(validate_slice_time(&FixtureCoverage::default(), 5, 0).is_ok());
    assert!(matches!(
        validate_slice_time(&OffEdgeCoverage, 5, 0),
        Err(SvaError::NotPosedgeTime(5))
    ));
    assert!(matches!(
        validate_slice_time(&OffEdgeCoverage, 6, 0),
        Err(SvaError::MisalignedBacktrack { time: 6, clock_period: 2, previous: 4 })
    ));
    assert!(validate_slice_time(&OffEdgeCoverage, 6, 5).is_ok());
    assert!(validate_slice_time(&OffEdgeCoverage, 8, 0).is_ok());
}

fn demo_blocks() -> BlockSet {
    BlockSet::new(vec![
        Block::builder()
            .id(BlockId(1))
            .block_type(BlockType::Assign)
            .circuit_type(CircuitType::Combinational)
            .module_scope("demo")
            .source_file("design.sv")
            .lines(10, 10)
            .dataflow(vec![entry("tmp", &["a", "b"])])
            .code_snippet("assign tmp = a & b;")
            .build()
            .unwrap(),
        Block::builder()
            .id(BlockId(2))
            .block_type(BlockType::Always)
            .circuit_type(CircuitType::Sequential)
            .module_scope("demo")
            .source_file("design.sv")
            .lines(20, 20)
            .dataflow(vec![entry("result", &["tmp"])])
            .code_snippet("always_ff @(posedge clk) result <= tmp;")
            .build()
            .unwrap(),
    ])
    .unwrap()
}

fn answers(covered: Vec<(&str, usize, i64)>, elaborated: Vec<(&str, usize, usize)>) -> CoverageAnswers {
    CoverageAnswers {
        clock_period: Some(1),
        rising_edges: (0..8).collect(),
        elaborated_scopes: vec![],
        elaborated_ranges: elaborated.into_iter().map(|(f, a, b)| (f.to_string(), a, b)).collect(),
        covered_lines: covered.iter().map(|(f, l, t)| (f.to_string(), *l, *t)).collect(),
        scoped_covered_lines: covered.iter().map(|(f, l, t)| ("demo".to_string(), f.to_string(), *l, *t)).collect(),
    }
}

fn block_nodes(nodes: &[TimedSliceNode]) -> Vec<(u64, i64)> {
    nodes
        .iter()
        .filter_map(|node| match node {
            TimedSliceNode::Block { block_id, time: Some(time) } => Some((block_id.0, time.0)),
            _ => None,
        })
        .collect()
}

#[test]
fn slice_from_answers_backtracks_until_the_line_ran() {
    let request = SliceRequest { signal: SignalNode::named("result"), time: Timestamp(3), min_time: Timestamp(1) };
    let a = answers(vec![("design.sv", 20, 1)], vec![("design.sv", 10, 10), ("design.sv", 20, 20)]);
    let path = blues_slice_from(&demo_blocks(), &a, &request).unwrap();
    assert_eq!(block_nodes(&path.nodes), vec![(1, 1), (2, 2), (2, 3)]);
    assert_eq!(path.edges.len(), 2);
    assert_eq!(path.target, "result");
    assert_eq!(path.start_time, Some(Timestamp(3)));
}

#[test]
fn slice_from_answers_leaves_out_blocks_that_were_not_elaborated() {
    let request = SliceRequest { signal: SignalNode::named("result"), time: Timestamp(3), min_time: Timestamp(1) };
    let a = answers(vec![("design.sv", 20, 1)], vec![("design.sv", 20, 20)]);
    let path = blues_slice_from(&demo_blocks(), &a, &request).unwrap();
    assert_eq!(block_nodes(&path.nodes), vec![(2, 2), (2, 3)]);
    let none = answers(vec![], vec![]);
    let empty = blues_slice_from(&demo_blocks(), &none, &request).unwrap();
    assert!(empty.nodes.is_empty());
    assert!(empty.edges.is_empty());
}

#[test]
fn slice_from_answers_fails_for_an_unknown_signal() {
    let request = SliceRequest { signal: SignalNode::named("nothing_here"), time: Timestamp(3), min_time: Timestamp(1) };
    let a = answers(vec![], vec![]);
    assert!(matches!(blues_slice_from(&demo_blocks(), &a, &request), Err(SvaError::SignalNotFound(_))));
}

#[test]
fn answers_stand_in_for_a_coverage() {
    let a = answers(vec![("design.sv", 20, 1)], vec![("design.sv", 20, 20)]);
    assert_eq!(a.is_line_covered_at("design.sv", 20, Timestamp(1)).unwrap(), true);
    assert_eq!(a.is_line_covered_at("design.sv", 20, Timestamp(2)).unwrap(), false);
    assert_eq!(a.hit_count_at("design.sv", 20, Timestamp(1)).unwrap(), 1);
    assert!(a.is_block_elaborated("design.sv", 20, 20));
    assert!(!a.is_block_elaborated("design.sv", 10, 10));
    assert!(a.is_posedge_time(3));
    assert!(!a.is_posedge_time(9));
    assert_eq!(a.clock_period(), Some(1));
    assert!(validate_slice_time(&a, 3, 0).is_ok());
    assert!(matches!(validate_slice_time(&a, 9, 0), Err(SvaError::NotPosedgeTime(9))));
}

#[test]
fn tracker_and_answers_give_the_same_slice() {
    let request = SliceRequest { signal: SignalNode::named("result"), time: Timestamp(3), min_time: Timestamp(1) };
    let a = answers(vec![("design.sv", 20, 1)], vec![("design.sv", 10, 10), ("design.sv", 20, 20)]);
    let from_answers = blues_slice_from(&demo_blocks(), &a, &request).unwrap();
    let slicer = BluesSlicer::new(demo_blocks(), std::sync::Arc::new(a));
    let from_slicer = slicer.slice(&request).unwrap();
    assert_eq!(block_nodes(&from_answers.nodes), block_nodes(&from_slicer.nodes));
    assert_eq!(from_answers.edges.len(), from_slicer.edges.len());
}

struct FailingCoverage;

impl CoverageTracker for FailingCoverage {
    fn is_line_covered_at(&self, file: &str, _line: usize, _time: Timestamp) -> Result<bool, SvaError> {
        Err(SvaError::SignalDataNotLoaded(file.to_string()))
    }

    fn hit_count_at(&self, file: &str, _line: usize, _time: Timestamp) -> Result<u64, SvaError> {
        Err(SvaError::SignalDataNotLoaded(file.to_string()))
    }

    fn delta_hits(&self, file: &str, _line: usize, _time: Timestamp) -> Result<u64, SvaError> {
        Err(SvaError::SignalDataNotLoaded(file.to_string()))
    }

    fn clock_period(&self) -> Option<i64> {
        Some(1)
    }

    fn is_posedge_time(&self, _time: i64) -> bool {
        true
    }

    fn is_block_elaborated(&self, _file: &str, _line_start: usize, _line_end: usize) -> bool {
        true
    }

    fn is_scoped_line_covered_at(
        &self,
        _scope: &str,
        file: &str,
        _line: usize,
        _time: Timestamp,
    ) -> Result<bool, SvaError> {
        Err(SvaError::SignalDataNotLoaded(file.to_string()))
    }

    fn is_scope_elaborated(&self, _scope: &str) -> bool {
        true
    }
}

#[test]
fn a_failing_coverage_answer_fails_the_slice() {
    let request = SliceRequest { signal: SignalNode::named("result"), time: Timestamp(3), min_time: Timestamp(1) };
    let slicer = BluesSlicer::new(demo_blocks(), Arc::new(FailingCoverage));
    assert!(matches!(slicer.slice(&request), Err(SvaError::SignalDataNotLoaded(f)) if f == "design.sv"));
    let before_window = SliceRequest { signal: SignalNode::named("result"), time: Timestamp(0), min_time: Timestamp(1) };
    let empty = slicer.slice(&before_window).unwrap();
    assert!(empty.nodes.is_empty());
}
