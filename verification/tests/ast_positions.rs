use std::collections::HashMap;
use std::path::PathBuf;

use sv_parser::{parse_sv_str, RefNode};
use sva_core::ast::{get_original_lineno_from_ast_locate, get_pos_from_offset, lineno_from_origin, row_from_offset, row_from_span};

#[test]
fn positions_count_columns_and_rows_from_one() {
    let src = "ab\ncd\n";
    assert_eq!(get_pos_from_offset(src, 0), Some((1, 1)));
    assert_eq!(get_pos_from_offset(src, 1), Some((2, 1)));
    assert_eq!(get_pos_from_offset(src, 3), Some((1, 2)));
    assert_eq!(get_pos_from_offset(src, 6), None);
    assert_eq!(row_from_offset(src, 4), Some(2));
    assert_eq!(row_from_span(src, 4, 4), Some(1));
    assert_eq!(row_from_span(src, 4, 3), Some(2));
}

#[test]
fn syntax_tree_locations_map_to_source_lines() {
    let src = "module m;\n  logic a, b;\n  assign a = b;\nendmodule\n";
    let defines: HashMap<String, Option<sv_parser::Define>> = HashMap::new();
    let includes: Vec<PathBuf> = Vec::new();
    let (tree, _) = parse_sv_str(src, PathBuf::from("t.sv"), &defines, &includes, false, false).unwrap();
    let mut found = None;
    for node in &tree {
        if let RefNode::Keyword(k) = node {
            if tree.get_str(&k.nodes.0) == Some("assign") {
                found = Some(k.nodes.0);
            }
        }
    }
    let locate = found.unwrap();
    assert_eq!(get_original_lineno_from_ast_locate(&tree, locate, src), Some(3));
}

#[test]
fn line_of_an_original_offset() {
    let src = "ab\ncd\nef";
    assert_eq!(lineno_from_origin(Some(0), src), Some(1));
    assert_eq!(lineno_from_origin(Some(4), src), Some(2));
    assert_eq!(lineno_from_origin(Some(7), src), Some(3));
    assert_eq!(lineno_from_origin(Some(8), src), None);
    assert_eq!(lineno_from_origin(None, src), None);
}
