use sva_core::block::dataflow::{always_dataflow, continuous_assign_dataflow, statement_guards, CaseItemModel, StatementModel};
use sva_core::coverage::statements::Guard;
use sva_core::block::DataflowEntry;
use sva_core::types::SignalNode;

fn v(name: &str) -> SignalNode {
    SignalNode::named(name)
}

fn assign(out: &[&str], ins: Vec<SignalNode>) -> StatementModel {
    assign_at(0, out, ins)
}

fn assign_at(line: usize, out: &[&str], ins: Vec<SignalNode>) -> StatementModel {
    StatementModel::Assignment { output: out.iter().map(|n| v(n)).collect(), inputs: ins, line }
}

fn sorted_names(s: &[SignalNode]) -> Vec<String> {
    let mut n: Vec<String> = s.iter().map(|x| x.name.clone()).collect();
    n.sort();
    n
}

fn summary(df: &[DataflowEntry]) -> Vec<(Vec<String>, Vec<String>)> {
    df.iter()
        .map(|e| (e.output.iter().map(|x| x.name.clone()).collect(), sorted_names(&e.inputs)))
        .collect()
}

#[test]
fn branches_read_every_predicate_they_stand_under() {
    let body = StatementModel::Conditional {
        predicate: vec![v("rst")],
        predicate_text: "rst".to_string(),
        then_branch: Box::new(assign(&["q"], vec![SignalNode::literal("0")])),
        else_branch: Some(Box::new(StatementModel::Conditional {
            predicate: vec![v("en")],
            predicate_text: "en".to_string(),
            then_branch: Box::new(assign(&["q"], vec![v("d")])),
            else_branch: Some(Box::new(assign(&["q"], vec![v("q")]))),
        })),
    };
    let df = always_dataflow(&body);
    assert_eq!(
        summary(&df),
        vec![
            (vec!["q".to_string()], vec!["0".to_string(), "rst".to_string()]),
            (vec!["q".to_string()], vec!["d".to_string(), "en".to_string(), "rst".to_string()]),
            (vec!["q".to_string()], vec!["en".to_string(), "q".to_string(), "rst".to_string()]),
        ]
    );
}

#[test]
fn case_items_read_the_selector_and_their_labels() {
    let body = StatementModel::Sequence(vec![
        StatementModel::Other,
        StatementModel::Case {
            selector: vec![v("sel")],
            selector_text: "sel".to_string(),
            items: vec![
                CaseItemModel {
                    labels: Some(vec![SignalNode::literal("2'b00")]),
                    label_texts: vec!["2'b00".to_string()],
                    body: Box::new(assign(&["y"], vec![v("a")])),
                },
                CaseItemModel { labels: None, label_texts: vec![], body: Box::new(assign(&["y"], vec![v("b"), v("sel")])) },
            ],
        },
        assign(&[], vec![v("ignored")]),
    ]);
    let df = always_dataflow(&body);
    assert_eq!(
        summary(&df),
        vec![
            (vec!["y".to_string()], vec!["2'b00".to_string(), "a".to_string(), "sel".to_string()]),
            (vec!["y".to_string()], vec!["b".to_string(), "sel".to_string()]),
        ]
    );
}

#[test]
fn continuous_assignments_read_only_their_right_hand_side() {
    let df = continuous_assign_dataflow(&vec![assign(&["y"], vec![v("a"), v("b"), v("a")]), assign(&[], vec![v("c")])]);
    assert_eq!(summary(&df), vec![(vec!["y".to_string()], vec!["a".to_string(), "b".to_string()])]);
}

#[test]
fn assignments_get_the_conditions_they_stand_under_by_line() {
    let body = StatementModel::Sequence(vec![
        StatementModel::Conditional {
            predicate: vec![v("rst")],
            predicate_text: "rst".to_string(),
            then_branch: Box::new(assign_at(3, &["q"], vec![])),
            else_branch: Some(Box::new(StatementModel::Conditional {
                predicate: vec![v("en")],
                predicate_text: "en".to_string(),
                then_branch: Box::new(assign_at(5, &["q"], vec![v("d")])),
                else_branch: Some(Box::new(assign_at(7, &["q"], vec![v("q")]))),
            })),
        },
        StatementModel::Case {
            selector: vec![v("sel")],
            selector_text: "sel".to_string(),
            items: vec![
                CaseItemModel {
                    labels: Some(vec![]),
                    label_texts: vec!["2'b00".to_string(), "2'b01".to_string()],
                    body: Box::new(assign_at(10, &["y"], vec![v("a")])),
                },
                CaseItemModel { labels: None, label_texts: vec![], body: Box::new(assign_at(11, &["y"], vec![v("b")])) },
            ],
        },
        assign_at(0, &["z"], vec![]),
    ]);
    let mut guards: Vec<Guard> = vec![];
    let mut out: Vec<(usize, Vec<Guard>)> = vec![];
    statement_guards(&body, &mut guards, &mut out);
    assert!(guards.is_empty());
    let lines: Vec<usize> = out.iter().map(|e| e.0).collect();
    assert_eq!(lines, vec![3, 5, 7, 10, 11]);
    assert!(matches!(&out[0].1[..], [Guard::Predicate(p)] if p == "rst"));
    assert!(matches!(&out[1].1[..], [Guard::NotPredicate(a), Guard::Predicate(b)] if a == "rst" && b == "en"));
    assert!(matches!(&out[2].1[..], [Guard::NotPredicate(a), Guard::NotPredicate(b)] if a == "rst" && b == "en"));
    assert!(matches!(&out[3].1[..], [Guard::CaseMatch { selector, items }] if selector == "sel" && items.len() == 2));
    assert!(matches!(&out[4].1[..], [Guard::CaseDefault { selector, items }] if selector == "sel" && items == &vec!["2'b00".to_string(), "2'b01".to_string()]));
}
