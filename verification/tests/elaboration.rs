use sva_core::block::elaborate::{
    bridge_port_block, elaborate_block_set, hierarchy_is_finite, module_port_order,
};
use sva_core::block::instances::{
    module_instances, resolve_named_connections, resolve_ordered_connections, sort_module_instances,
    InstantiationModel, ModuleInstance, NamedConnection, PortConnection, PortListModel,
};
use sva_core::block::names::{expression_signals, is_signal_name};
use sva_core::block::source::snippet_from_source;
use sva_core::block::{Block, BlockSet, BlockType, CircuitType, DataflowEntry};
use sva_core::name_map::NameMap;
use sva_core::types::{BlockId, SignalNode, SignalNodeKind};

fn entry(output: &[&str], inputs: &[&str]) -> DataflowEntry {
    DataflowEntry {
        output: output.iter().map(|s| SignalNode::named(s)).collect(),
        inputs: inputs.iter().map(|s| SignalNode::named(s)).collect(),
    }
}

fn block(id: u64, block_type: BlockType, scope: &str, line: usize, df: DataflowEntry) -> Block {
    Block::builder()
        .id(BlockId(id))
        .block_type(block_type)
        .circuit_type(CircuitType::Combinational)
        .module_scope(scope)
        .source_file("design.sv")
        .lines(line, line)
        .dataflow(vec![df])
        .code_snippet("code")
        .build()
        .unwrap()
}

/// `top` drives `y` from `a` and holds `u`, an instance of `child`, whose
/// `out` follows its `in`.
fn templates() -> BlockSet {
    BlockSet::new(vec![
        block(0, BlockType::Assign, "top", 3, entry(&["y"], &["w"])),
        block(1, BlockType::ModInput, "child", 10, entry(&["in"], &[])),
        block(2, BlockType::ModOutput, "child", 11, entry(&[], &["out"])),
        block(3, BlockType::Assign, "child", 12, entry(&["out"], &["in"])),
    ])
    .unwrap()
}

fn child_instance(connections: Vec<PortConnection>) -> ModuleInstance {
    ModuleInstance {
        module_name: "child".to_string(),
        instance_name: "u".to_string(),
        line_start: 5,
        connections,
    }
}

fn names(signals: &[SignalNode]) -> Vec<String> {
    signals.iter().map(|s| s.name.clone()).collect()
}

#[test]
fn elaboration_places_top_then_instances_with_bridges() {
    let set = templates();
    let mut instances: NameMap<Vec<ModuleInstance>> = NameMap::new();
    instances.insert(
        "top".to_string(),
        vec![child_instance(vec![
            PortConnection { port: "in".to_string(), signals: vec![SignalNode::named("a"), SignalNode::named("a")] },
            PortConnection { port: "out".to_string(), signals: vec![SignalNode::named("w"), SignalNode::literal("1'b0")] },
        ])],
    );
    let declared: Vec<String> = vec![];
    assert!(hierarchy_is_finite(&set, &declared, &instances));
    let out = elaborate_block_set(&set, &declared, &instances).unwrap();
    let blocks = out.blocks();
    assert_eq!(blocks.len(), 4);
    let ids: Vec<u64> = blocks.iter().map(|b| b.id().0).collect();
    assert_eq!(ids, vec![0, 3, 1, 2]);
    assert_eq!(blocks[0].module_scope(), "TOP.top");
    assert_eq!(names(&blocks[0].dataflow()[0].output), vec!["TOP.top.y"]);
    assert_eq!(names(&blocks[0].dataflow()[0].inputs), vec!["TOP.top.w"]);
    assert_eq!(blocks[1].module_scope(), "TOP.top.u");
    assert_eq!(blocks[1].block_type(), BlockType::Assign);
    assert_eq!(names(&blocks[1].dataflow()[0].output), vec!["TOP.top.u.out"]);
    assert_eq!(names(&blocks[1].dataflow()[0].inputs), vec!["TOP.top.u.in"]);
    assert_eq!(blocks[2].block_type(), BlockType::ModInput);
    assert_eq!(names(&blocks[2].dataflow()[0].output), vec!["TOP.top.u.in"]);
    assert_eq!(names(&blocks[2].dataflow()[0].inputs), vec!["TOP.top.a"]);
    assert_eq!(blocks[3].block_type(), BlockType::ModOutput);
    assert_eq!(blocks[3].circuit_type(), CircuitType::Combinational);
    assert_eq!(names(&blocks[3].dataflow()[0].inputs), vec!["TOP.top.u.out"]);
    assert_eq!(names(&blocks[3].dataflow()[0].output), vec!["TOP.top.w"]);
}

#[test]
fn copies_of_one_source_block_share_its_id_across_instances() {
    let set = templates();
    let mut second = child_instance(vec![]);
    second.instance_name = "v".to_string();
    second.line_start = 6;
    let mut instances: NameMap<Vec<ModuleInstance>> = NameMap::new();
    instances.insert("top".to_string(), vec![child_instance(vec![]), second]);
    let declared: Vec<String> = vec![];
    let out = elaborate_block_set(&set, &declared, &instances).unwrap();
    let assigns: Vec<_> = out
        .blocks()
        .iter()
        .filter(|b| b.line_start() == 12)
        .collect();
    assert_eq!(assigns.len(), 2);
    assert_eq!(assigns[0].id(), BlockId(3));
    assert_eq!(assigns[1].id(), BlockId(3));
    assert_ne!(assigns[0].module_scope(), assigns[1].module_scope());
    assert!(out.blocks().iter().all(|b| b.module_scope().starts_with("TOP.")));
}

#[test]
fn elaboration_without_instances_copies_every_module_at_the_top() {
    let set = templates();
    let instances: NameMap<Vec<ModuleInstance>> = NameMap::new();
    let declared = vec!["lonely".to_string()];
    let out = elaborate_block_set(&set, &declared, &instances).unwrap();
    let scopes: Vec<&str> = out.blocks().iter().map(|b| b.module_scope()).collect();
    assert_eq!(scopes, vec!["TOP.child", "TOP.child", "TOP.child", "TOP.top"]);
    assert_eq!(out.blocks()[0].block_type(), BlockType::Assign);
    assert_eq!(out.blocks()[1].block_type(), BlockType::ModInput);
}

#[test]
fn elaboration_of_nothing_is_empty() {
    let set = BlockSet::new(vec![]).unwrap();
    let out = elaborate_block_set(&set, &vec![], &NameMap::new()).unwrap();
    assert!(out.blocks().is_empty());
}

#[test]
fn a_module_that_holds_itself_is_not_finite() {
    let set = templates();
    let mut instances: NameMap<Vec<ModuleInstance>> = NameMap::new();
    instances.insert(
        "child".to_string(),
        vec![child_instance(vec![])],
    );
    assert!(!hierarchy_is_finite(&set, &vec![], &instances));
}

#[test]
fn bridge_of_a_block_without_a_port_is_none() {
    let b = block(9, BlockType::ModInput, "child", 1, entry(&[], &[]));
    assert!(bridge_port_block(&b, "TOP.p", "TOP.p.c", &vec![], 3).is_none());
    let a = block(9, BlockType::Assign, "child", 1, entry(&["x"], &["y"]));
    assert!(bridge_port_block(&a, "TOP.p", "TOP.p.c", &vec![], 3).is_none());
}

#[test]
fn output_bridge_keeps_variables_once_in_name_order() {
    let b = block(9, BlockType::ModOutput, "child", 1, entry(&[], &["out"]));
    let conns = vec![PortConnection {
        port: "out".to_string(),
        signals: vec![
            SignalNode::named("z"),
            SignalNode::named("TOP.abs"),
            SignalNode::literal("4'd3"),
            SignalNode::named("b"),
            SignalNode::named("z"),
        ],
    }];
    let bridge = bridge_port_block(&b, "TOP.p", "TOP.p.c", &conns, 3).unwrap();
    assert_eq!(bridge.id(), BlockId(3));
    assert_eq!(bridge.module_scope(), "TOP.p.c");
    assert_eq!(names(&bridge.dataflow()[0].output), vec!["TOP.abs", "TOP.p.b", "TOP.p.z"]);
    assert_eq!(names(&bridge.dataflow()[0].inputs), vec!["TOP.p.c.out"]);
}

#[test]
fn port_order_follows_port_blocks() {
    let set = templates();
    let ports = module_port_order(&set, "child");
    assert_eq!(ports, vec!["in".to_string(), "out".to_string()]);
    assert!(module_port_order(&set, "top").is_empty());
}

#[test]
fn named_connections_take_the_last_and_fill_wildcards() {
    let entries = vec![
        NamedConnection { port: "a".to_string(), signals: Some(vec![SignalNode::named("x")]) },
        NamedConnection { port: "b".to_string(), signals: None },
        NamedConnection { port: "a".to_string(), signals: Some(vec![SignalNode::named("y")]) },
    ];
    let order = vec!["a".to_string(), "b".to_string(), "c".to_string()];
    let conns = resolve_named_connections(&entries, true, &order);
    let find = |p: &str| conns.iter().find(|c| c.port == p).map(|c| names(&c.signals));
    assert_eq!(conns.len(), 3);
    assert_eq!(find("a"), Some(vec!["y".to_string()]));
    assert_eq!(find("b"), Some(vec!["b".to_string()]));
    assert_eq!(find("c"), Some(vec!["c".to_string()]));
    let plain = resolve_named_connections(&entries, false, &order);
    assert_eq!(plain.len(), 2);
}

#[test]
fn ordered_connections_follow_port_positions() {
    let conns = vec![Some(vec![SignalNode::named("x")]), None, Some(vec![SignalNode::named("z")])];
    let order = vec!["p".to_string(), "q".to_string()];
    let resolved = resolve_ordered_connections(&conns, &order);
    assert_eq!(resolved.len(), 2);
    assert_eq!(resolved[0].port, "p");
    assert_eq!(names(&resolved[0].signals), vec!["x".to_string()]);
    assert_eq!(resolved[1].port, "q");
    assert!(resolved[1].signals.is_empty());
}

#[test]
fn instances_sort_by_instance_then_module_then_line() {
    let make = |inst: &str, module: &str, line: usize| ModuleInstance {
        module_name: module.to_string(),
        instance_name: inst.to_string(),
        line_start: line,
        connections: vec![],
    };
    let sorted = sort_module_instances(vec![
        make("u2", "m", 1),
        make("u1", "z", 1),
        make("u1", "a", 9),
        make("u1", "a", 3),
        make("u", "q", 7),
    ]);
    let keys: Vec<(String, String, usize)> = sorted
        .iter()
        .map(|c| (c.instance_name.clone(), c.module_name.clone(), c.line_start))
        .collect();
    assert_eq!(
        keys,
        vec![
            ("u".to_string(), "q".to_string(), 7),
            ("u1".to_string(), "a".to_string(), 3),
            ("u1".to_string(), "a".to_string(), 9),
            ("u1".to_string(), "z".to_string(), 1),
            ("u2".to_string(), "m".to_string(), 1),
        ]
    );
}

#[test]
fn signal_names_exclude_keywords_and_numbers() {
    assert!(is_signal_name("data_in"));
    assert!(is_signal_name("_tmp"));
    assert!(!is_signal_name(""));
    assert!(!is_signal_name("posedge"));
    assert!(!is_signal_name("endmodule"));
    assert!(!is_signal_name("42"));
    assert!(!is_signal_name("9lives"));
    assert!(!is_signal_name("$display"));
}

#[test]
fn expression_signals_keep_literals_and_names_once() {
    let nodes = vec![
        SignalNode::named("a"),
        SignalNode::named("begin"),
        SignalNode::literal("8'hff"),
        SignalNode::named("a"),
        SignalNode::named("12"),
    ];
    let kept = expression_signals(&nodes);
    let keys: Vec<(SignalNodeKind, String)> = kept.iter().map(|n| (n.kind, n.name.clone())).collect();
    assert_eq!(
        keys,
        vec![(SignalNodeKind::Variable, "a".to_string()), (SignalNodeKind::Literal, "8'hff".to_string())]
    );
}

#[test]
fn snippet_takes_the_line_range_trimmed() {
    let src = "module m;\n  assign a = b;\n  assign c = d;\nendmodule\n";
    assert_eq!(snippet_from_source(src, 2, 3), "assign a = b;\n  assign c = d;");
    assert_eq!(snippet_from_source(src, 5, 9), "");
    assert_eq!(snippet_from_source("x\r\ny", 1, 1), "x");
}

#[test]
fn instances_are_grouped_by_parent_and_sorted_with_ports_resolved() {
    let mut orders: NameMap<Vec<String>> = NameMap::new();
    orders.insert("child".to_string(), vec!["in".to_string(), "out".to_string()]);
    let insts = vec![
        InstantiationModel {
            parent: "top".to_string(),
            module_name: "child".to_string(),
            instance_name: "u2".to_string(),
            line_start: 7,
            ports: PortListModel::Ordered(vec![Some(vec![SignalNode::named("a")]), None]),
        },
        InstantiationModel {
            parent: "other".to_string(),
            module_name: "child".to_string(),
            instance_name: "w".to_string(),
            line_start: 3,
            ports: PortListModel::Absent,
        },
        InstantiationModel {
            parent: "top".to_string(),
            module_name: "child".to_string(),
            instance_name: "u1".to_string(),
            line_start: 5,
            ports: PortListModel::Named {
                entries: vec![NamedConnection { port: "out".to_string(), signals: Some(vec![SignalNode::named("y")]) }],
                wildcard: true,
            },
        },
    ];
    let map = module_instances(&insts, &orders);
    let top = map.get("top").unwrap();
    let names_in_top: Vec<&str> = top.iter().map(|i| i.instance_name.as_str()).collect();
    assert_eq!(names_in_top, vec!["u1", "u2"]);
    let u1 = &top[0];
    let in_port = u1.connections.iter().find(|c| c.port == "in").unwrap();
    assert_eq!(names(&in_port.signals), vec!["in"]);
    let out_port = u1.connections.iter().find(|c| c.port == "out").unwrap();
    assert_eq!(names(&out_port.signals), vec!["y"]);
    let u2 = &top[1];
    let u2_in = u2.connections.iter().find(|c| c.port == "in").unwrap();
    assert_eq!(names(&u2_in.signals), vec!["a"]);
    let other = map.get("other").unwrap();
    assert_eq!(other.len(), 1);
    assert!(other[0].connections.is_empty());
    assert!(map.get("child").is_none());
}
