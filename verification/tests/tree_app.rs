use sva_core::error::SvaError;
use sva_core::tui::display::{
    code_title, current_wave_display, footer_help, row_status, tree_window_top, wave_display_of, wave_lines,
    WaveDisplay,
};
use sva_core::tui::keys::{apply_action, key_action, ExplorerAction, ExplorerKey};
use sva_core::tui::explorer::ExplorerState;
use sva_core::wave::SignalValue;
use sva_core::tui::graph::GraphIndex;
use sva_core::types::{
    BlockId, BlockJson, SignalLocate, SignalNode, SignalNodeKind, StableSliceEdgeJson, StableSliceGraphJson,
    StableSliceNodeJson, Timestamp,
};

fn block_node(id: usize, block_id: u64) -> StableSliceNodeJson {
    StableSliceNodeJson::Block {
        id,
        block_id: BlockId(block_id),
        time: Some(Timestamp(0)),
    }
}

fn edge(from: usize, to: usize, name: &str, len: usize) -> StableSliceEdgeJson {
    StableSliceEdgeJson {
        from,
        to,
        signal: Some(SignalNode {
            kind: SignalNodeKind::Variable,
            name: name.to_string(),
            locate: SignalLocate {
                offset: 0,
                line: 0,
                len,
            },
        }),
    }
}

fn block(id: u64, scope: &str, line_start: usize, line_end: usize, code_snippet: &str) -> BlockJson {
    BlockJson {
        id: BlockId(id),
        scope: scope.to_string(),
        block_type: if id == 10 { "Always" } else { "ModOutput" }.to_string(),
        source_file: "design.sv".to_string(),
        line_start,
        line_end,
        ast_line_start: line_start,
        ast_line_end: line_end,
        code_snippet: code_snippet.to_string(),
    }
}

fn graph_fixture() -> StableSliceGraphJson {
    StableSliceGraphJson {
        target: "top.root".to_string(),
        start_time: None,
        nodes: vec![
            block_node(1, 10),
            block_node(2, 20),
            block_node(3, 21),
            block_node(4, 22),
        ],
        edges: vec![
            edge(3, 1, "top.fetch_addr", 14),
            edge(2, 1, "top.fetch_addr", 14),
            edge(4, 3, "top.deep", 8),
            edge(2, 4, "top.fetch_addr", 14),
        ],
        blocks: vec![
            block(
                10,
                "top.root_i",
                1,
                2,
                "always_ff @(posedge clk) begin\n  root <= child;\nend",
            ),
            block(20, "top.icache_i", 3, 4, "output logic [31:0] addr_o,"),
            block(
                21,
                "top.prefetch_buffer_i",
                5,
                6,
                "output logic [31:0] addr_o,\nassign addr_o = next_addr;\nassign next_addr = base_addr;\nassign base_addr = branch_addr;",
            ),
            block(22, "top.fifo_i", 7, 8, "output logic [31:0] out_addr_o,"),
        ],
    }
}

#[test]
fn children_are_exact_nodes_not_signal_groups() {
    let index = GraphIndex::new(graph_fixture());

    let children = index.children(1);

    assert_eq!(
        children
            .iter()
            .map(|child| child.node_id)
            .collect::<Vec<_>>(),
        vec![2, 3]
    );
    assert_eq!(
        children
            .iter()
            .map(|child| child.incoming_signal.as_deref())
            .collect::<Vec<_>>(),
        vec![Some("top.fetch_addr"), Some("top.fetch_addr")]
    );
}

#[test]
fn visible_tree_expands_collapses_and_resets_selected_node() {
    let index = GraphIndex::new(graph_fixture());
    let mut state = ExplorerState::new(index, 1, Some("top.root".to_string()));

    assert_eq!(state.visible_rows().len(), 1);

    state.expand_selected();
    assert_eq!(
        state
            .visible_rows()
            .iter()
            .map(|row| row.entry.node_id)
            .collect::<Vec<_>>(),
        vec![1, 2, 3]
    );

    state.move_selection(1);
    assert_eq!(state.selected_row().entry.node_id, 2);

    state.collapse_or_parent();
    assert_eq!(state.selected_row().entry.node_id, 1);

    state.move_selection(2);
    assert_eq!(state.selected_row().entry.node_id, 3);
    state.expand_selected();
    assert_eq!(
        state
            .visible_rows()
            .iter()
            .map(|row| row.entry.node_id)
            .collect::<Vec<_>>(),
        vec![1, 2, 3, 4]
    );

    state.reset();
    assert_eq!(state.selected_row().entry.node_id, 1);
    assert_eq!(state.visible_rows().len(), 1);
}

#[test]
fn rendered_rows_use_tree_connectors() {
    let index = GraphIndex::new(graph_fixture());
    let mut state = ExplorerState::new(index, 1, Some("top.root".to_string()));
    state.expand_selected();

    let lines = state
        .visible_rows()
        .iter()
        .map(|row| row.render(state.index(), false))
        .collect::<Vec<_>>();

    assert!(lines[0].starts_with("root, time=0, module=root"));
    assert!(lines[1].starts_with("|- fetch_addr, time=0, module=icache"));
    assert!(lines[2].starts_with("`- fetch_addr, time=0, module=prefetch_buffer"));
}

#[test]
fn code_scroll_clamps_and_resets_when_selection_changes() {
    let index = GraphIndex::new(graph_fixture());
    let mut state = ExplorerState::new(index, 1, Some("top.root".to_string()));
    state.expand_selected();
    state.move_selection(2);

    state.scroll_code(10, 2);
    assert_eq!(state.code_scroll(), 2);

    state.scroll_code(-1, 2);
    assert_eq!(state.code_scroll(), 1);

    state.move_selection(-1);
    assert_eq!(state.code_scroll(), 0);
}

#[test]
fn repeated_nodes_are_marked_and_not_expandable() {
    let index = GraphIndex::new(graph_fixture());
    let mut state = ExplorerState::new(index, 1, Some("top.root".to_string()));
    state.expand_selected();
    state.move_selection(2);
    state.expand_selected();
    state.move_selection(1);
    state.expand_selected();

    let rows = state.visible_rows();
    let repeated = rows.last().unwrap();

    assert_eq!(repeated.entry.node_id, 2);
    assert!(repeated.already_shown);
    assert!(repeated
        .render(state.index(), false)
        .contains("[already shown]"));
    assert!(!state.can_expand(repeated));
}

#[test]
fn selected_signal_value_query_uses_left_row_signal_and_time() {
    let index = GraphIndex::new(graph_fixture());
    let mut state = ExplorerState::new(index, 1, Some("top.root".to_string()));
    state.expand_selected();
    state.move_selection(1);

    let query = state.selected_wave_query().unwrap();

    assert_eq!(query.signal.name, "top.fetch_addr");
    assert_eq!(query.time.0, 0);
}

#[test]
fn wave_pane_shows_nothing_without_a_waveform() {
    let index = GraphIndex::new(graph_fixture());
    let mut state = ExplorerState::new(index, 1, Some("top.root".to_string()));
    assert!(current_wave_display(&mut state, None).is_none());
}

#[test]
fn wave_pane_shows_each_kind_of_read() {
    match wave_display_of(
        "top.x".to_string(),
        7,
        Ok(Some(SignalValue { raw_bits: "1010".to_string(), pretty_hex: Some("0xa".to_string()) })),
    ) {
        WaveDisplay::Value { signal, time, raw_bits, pretty_hex } => {
            assert_eq!((signal.as_str(), time, raw_bits.as_str()), ("top.x", 7, "1010"));
            assert_eq!(pretty_hex.as_deref(), Some("0xa"));
        }
        other => panic!("unexpected {other:?}"),
    }
    match wave_display_of("top.x".to_string(), 7, Ok(None)) {
        WaveDisplay::Missing { signal, time } => assert_eq!((signal.as_str(), time), ("top.x", 7)),
        other => panic!("unexpected {other:?}"),
    }
    match wave_display_of("top.x".to_string(), 7, Err(SvaError::SignalDataNotLoaded("top.x".to_string()))) {
        WaveDisplay::Error { message, .. } => assert_eq!(message, "signal data not loaded for top.x"),
        other => panic!("unexpected {other:?}"),
    }
}

#[test]
fn keys_map_to_explorer_actions() {
    assert_eq!(key_action(ExplorerKey::Char('q')), ExplorerAction::Quit);
    assert_eq!(key_action(ExplorerKey::Char('K')), ExplorerAction::Move(-1));
    assert_eq!(key_action(ExplorerKey::Down), ExplorerAction::Move(1));
    assert_eq!(key_action(ExplorerKey::Char('l')), ExplorerAction::Expand);
    assert_eq!(key_action(ExplorerKey::Backspace), ExplorerAction::Collapse);
    assert_eq!(key_action(ExplorerKey::Char('R')), ExplorerAction::Reset);
    assert_eq!(key_action(ExplorerKey::Char(']')), ExplorerAction::ScrollCode(10));
    assert_eq!(key_action(ExplorerKey::PageUp), ExplorerAction::ScrollCode(-10));
    assert_eq!(key_action(ExplorerKey::Char('x')), ExplorerAction::Ignore);
}

#[test]
fn actions_drive_the_explorer() {
    let index = GraphIndex::new(graph_fixture());
    let mut state = ExplorerState::new(index, 1, Some("top.root".to_string()));
    assert!(apply_action(&mut state, key_action(ExplorerKey::Enter)));
    assert_eq!(state.visible_rows().len(), 3);
    assert!(apply_action(&mut state, key_action(ExplorerKey::Down)));
    assert_eq!(state.selected_index(), 1);
    assert!(apply_action(&mut state, key_action(ExplorerKey::Char('r'))));
    assert_eq!(state.selected_index(), 0);
    assert_eq!(state.visible_rows().len(), 1);
    assert!(!apply_action(&mut state, key_action(ExplorerKey::Char('Q'))));
}

#[test]
fn footer_and_panes_describe_the_selection() {
    let index = GraphIndex::new(graph_fixture());
    let mut state = ExplorerState::new(index, 1, Some("top.root".to_string()));
    let row = state.selected_row();
    assert_eq!(row_status(&state, &row), "expandable");
    state.expand_selected();
    let row = state.selected_row();
    assert_eq!(row_status(&state, &row), "expanded");
    assert!(footer_help().starts_with("q quit"));
    assert_eq!(tree_window_top(10, 4), 7);
    assert_eq!(tree_window_top(2, 4), 0);
    assert_eq!(tree_window_top(5, 0), 5);
    assert_eq!(code_title(0, 10, 4), "Code context lines 1-4/4");
    assert_eq!(code_title(3, 2, 10), "Code context lines 4-5/10");
    assert_eq!(code_title(0, 5, 0), "Code context lines 1-1/0");
    let lines = wave_lines(&WaveDisplay::Value {
        signal: "top.x".to_string(),
        time: -3,
        raw_bits: "1x".to_string(),
        pretty_hex: None,
    });
    assert_eq!(lines, vec!["signal: top.x", "time: -3", "raw bits: 1x", "hex: <not binary>"]);
    assert_eq!(wave_lines(&WaveDisplay::NoSignal), vec!["No selected signal for this row."]);
}
