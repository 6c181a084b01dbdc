use sva_core::block::blockize::{ItemModel, ModuleModel, SourceFileModel};
use sva_core::block::dataflow::StatementModel;
use sva_core::block::BlockType;
use sva_core::coverage::assignments::assignment_statements;
use sva_core::coverage::statements::{EdgeKind, Guard};
use sva_core::error::SvaError;
use sva_core::types::{BlockId, SignalNode};

const SOURCE: &str = "module m;\n  assign t = a;\n  always_ff @(posedge clk)\n    if (en)\n      y <= t;\n    else\n      y <= 0;\nendmodule\n";

fn assignment(output: &str, inputs: &[&str], line: usize) -> StatementModel {
    StatementModel::Assignment {
        output: vec![SignalNode::named(output)],
        inputs: inputs.iter().map(|n| SignalNode::named(n)).collect(),
        line,
    }
}

fn demo_file(path: &str) -> SourceFileModel {
    SourceFileModel {
        path: path.to_string(),
        source_text: SOURCE.to_string(),
        modules: vec![ModuleModel {
            name: "m".to_string(),
            items: vec![
                ItemModel::Port { input: true, signal: SignalNode::named("a"), line: 1 },
                ItemModel::ContinuousAssign { assignments: vec![assignment("t", &["a"], 2)], line_start: 2, line_end: 2 },
                ItemModel::Always {
                    sequential: true,
                    body: StatementModel::Conditional {
                        predicate: vec![SignalNode::named("en")],
                        predicate_text: "en".to_string(),
                        then_branch: Box::new(assignment("y", &["t"], 5)),
                        else_branch: Some(Box::new(assignment("y", &[], 7))),
                    },
                    line_start: 3,
                    line_end: 7,
                    triggers: vec![("clk".to_string(), EdgeKind::Posedge)],
                },
            ],
        }],
    }
}

#[test]
fn statements_come_one_per_assigned_line_with_guards_and_triggers() {
    let statements = assignment_statements(&vec![demo_file("rtl/design.sv")]).unwrap();
    let lines: Vec<usize> = statements.iter().map(|s| s.line).collect();
    assert_eq!(lines, vec![2, 5, 7]);
    assert!(statements.iter().all(|s| s.file == "design"));
    assert_eq!(statements[0].code_snippet, "assign t = a;");
    assert_eq!(statements[0].block.block_type(), BlockType::Assign);
    assert_eq!(statements[0].block.id(), BlockId(1));
    assert!(statements[0].guards.is_empty());
    assert!(statements[0].triggers.is_empty());
    assert_eq!(statements[1].code_snippet, "y <= t;");
    assert_eq!(statements[1].block.id(), BlockId(2));
    assert!(matches!(&statements[1].guards[..], [Guard::Predicate(p)] if p == "en"));
    assert!(matches!(&statements[2].guards[..], [Guard::NotPredicate(p)] if p == "en"));
    assert_eq!(statements[2].triggers, vec![("clk".to_string(), EdgeKind::Posedge)]);
}

#[test]
fn a_later_file_with_the_same_key_gives_the_blocks() {
    let statements = assignment_statements(&vec![demo_file("a/design.sv"), demo_file("b/design.sv")]).unwrap();
    assert_eq!(statements.len(), 6);
    assert_eq!(statements[0].block.id(), BlockId(4));
    assert_eq!(statements[3].block.id(), BlockId(4));
}

#[test]
fn a_reversed_range_fails_the_collection() {
    let mut file = demo_file("design.sv");
    file.modules[0].items.push(ItemModel::ContinuousAssign { assignments: vec![], line_start: 4, line_end: 3 });
    assert!(matches!(assignment_statements(&vec![file]), Err(SvaError::InvalidLineRange)));
}
