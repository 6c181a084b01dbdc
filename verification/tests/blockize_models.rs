use sva_core::block::blockize::{blockize_models, ItemModel, ModuleModel, SourceFileModel};
use sva_core::block::dataflow::StatementModel;
use sva_core::block::{BlockType, Blockizer, CircuitType, DataflowBlockizer};
use sva_core::coverage::statements::EdgeKind;
use sva_core::error::SvaError;
use sva_core::slicer::{InstructionExecutionPath, SliceRequest, StaticSlicer};
use sva_core::types::{BlockId, SignalNode, Timestamp};

const SOURCE: &str = "module m(input a, output y);\n  assign t = a;\n  always_ff @(posedge clk)\n    y <= t;\nendmodule\n";

fn names(signals: &[SignalNode]) -> Vec<&str> {
    signals.iter().map(|s| s.name.as_str()).collect()
}

fn assignment(output: &str, inputs: &[&str], line: usize) -> StatementModel {
    StatementModel::Assignment {
        output: vec![SignalNode::named(output)],
        inputs: inputs.iter().map(|n| SignalNode::named(n)).collect(),
        line,
    }
}

fn demo_file() -> SourceFileModel {
    SourceFileModel {
        path: "design.sv".to_string(),
        source_text: SOURCE.to_string(),
        modules: vec![ModuleModel {
            name: "m".to_string(),
            items: vec![
                ItemModel::Port { input: true, signal: SignalNode::named("a"), line: 1 },
                ItemModel::Port { input: false, signal: SignalNode::named("y"), line: 1 },
                ItemModel::ContinuousAssign { assignments: vec![assignment("t", &["a"], 2)], line_start: 2, line_end: 2 },
                ItemModel::Always {
                    sequential: true,
                    body: assignment("y", &["t"], 4),
                    line_start: 3,
                    line_end: 4,
                    triggers: vec![("clk".to_string(), EdgeKind::Posedge)],
                },
            ],
        }],
    }
}

#[test]
fn blockize_numbers_blocks_in_source_order() {
    let set = blockize_models(&vec![demo_file()]).unwrap();
    let blocks = set.blocks();
    assert_eq!(blocks.len(), 4);
    let ids: Vec<BlockId> = blocks.iter().map(|b| b.id()).collect();
    assert_eq!(ids, vec![BlockId(0), BlockId(1), BlockId(2), BlockId(3)]);
    assert_eq!(blocks[0].block_type(), BlockType::ModInput);
    assert_eq!(names(&blocks[0].dataflow()[0].output), vec!["a"]);
    assert!(blocks[0].dataflow()[0].inputs.is_empty());
    assert_eq!(blocks[1].block_type(), BlockType::ModOutput);
    assert_eq!(names(&blocks[1].dataflow()[0].inputs), vec!["y"]);
    assert_eq!(blocks[2].block_type(), BlockType::Assign);
    assert_eq!(blocks[2].circuit_type(), CircuitType::Combinational);
    assert_eq!(blocks[2].code_snippet(), "assign t = a;");
    assert_eq!(blocks[3].block_type(), BlockType::Always);
    assert_eq!(blocks[3].circuit_type(), CircuitType::Sequential);
    assert_eq!((blocks[3].line_start(), blocks[3].line_end()), (3, 4));
    assert_eq!(blocks[3].code_snippet(), "always_ff @(posedge clk)\n    y <= t;");
    assert_eq!(names(&blocks[3].dataflow()[0].inputs), vec!["t"]);
    assert!(blocks.iter().all(|b| b.module_scope() == "m" && b.source_file() == "design.sv"));
}

#[test]
fn blockize_continues_numbering_across_files() {
    let mut second = demo_file();
    second.path = "other.sv".to_string();
    let set = DataflowBlockizer.blockize(&vec![demo_file(), second]).unwrap();
    assert_eq!(set.blocks().len(), 8);
    assert_eq!(set.blocks()[4].id(), BlockId(4));
    assert_eq!(set.blocks()[4].source_file(), "other.sv");
}

#[test]
fn blockize_refuses_a_reversed_line_range() {
    let mut file = demo_file();
    file.modules[0].items.push(ItemModel::Always { sequential: false, body: StatementModel::Other, line_start: 9, line_end: 8, triggers: vec![] });
    assert!(matches!(blockize_models(&vec![file]), Err(SvaError::InvalidLineRange)));
}

#[test]
fn blockize_of_no_files_is_empty() {
    assert!(blockize_models(&vec![]).unwrap().blocks().is_empty());
}

#[test]
fn each_driven_signal_is_named_once_with_each_driver_once() {
    let set = blockize_models(&vec![demo_file(), demo_file()]).unwrap();
    let names: Vec<String> = set.signal_names().iter().map(|s| s.name.clone()).collect();
    let mut unique = names.clone();
    unique.sort();
    unique.dedup();
    assert_eq!(names.len(), unique.len());
    assert_eq!(set.drivers_for(&SignalNode::named("t")), &[BlockId(2), BlockId(6)]);
}

#[test]
fn the_static_slice_ignores_the_request_times() {
    let slicer = StaticSlicer::new(blockize_models(&vec![demo_file()]).unwrap());
    let early = SliceRequest { signal: SignalNode::named("y"), time: Timestamp(0), min_time: Timestamp(0) };
    let late = SliceRequest { signal: SignalNode::named("y"), time: Timestamp(90), min_time: Timestamp(40) };
    let a = slicer.slice(&early).unwrap();
    let b = slicer.slice(&late).unwrap();
    assert_eq!(a.nodes.len(), b.nodes.len());
    assert_eq!(a.edges.len(), b.edges.len());
    let ids = |g: &InstructionExecutionPath| g.blocks.iter().map(|x| x.id).collect::<Vec<_>>();
    assert_eq!(ids(&a), ids(&b));
}
