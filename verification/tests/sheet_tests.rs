// Tests of the range grammar, the dependency graph, the sheet, and the
// spreadsheet scenarios end to end.

use lisp_sheet::dep_graph::{DepGraph, GraphNode};
use lisp_sheet::sheet::sheet::{get_references_for_expr, Sheet, SheetCellComputedValue};
use lisp_sheet::sheet::sheet_range::{SheetRange, SheetRangeShapedAddresses};
use lisp_sheet::sheet::SheetAddress;
use lisp_sheet::parser::Expr;

fn addr(row: i32, col: i32) -> SheetAddress {
    SheetAddress { row, col }
}

fn flat_vec(range: &SheetRange) -> Vec<SheetAddress> {
    let mut it = range.addresses_flat();
    let mut out = Vec::new();
    while let Some(a) = it.next() {
        out.push(a);
    }
    out
}

#[test]
fn test_get_references_for_expr() {
    let result = get_references_for_expr(&Expr::List(vec![
        Expr::Keyword("a1".to_string()),
        Expr::Keyword("b4".to_string()),
    ]));
    assert_eq!(
        result,
        Ok(vec![
            SheetAddress { col: 0, row: 0 },
            SheetAddress { col: 1, row: 3 }
        ])
    );

    let result = get_references_for_expr(&Expr::Keyword("a1".to_string()));
    assert_eq!(result, Ok(vec![SheetAddress { col: 0, row: 0 }]));
}

#[test]
fn test_parse_sheet_column() {
    // one column letter, case-insensitive: a and A are column 0, c is 2
    assert_eq!(SheetRange::parse("a1").unwrap().start.col, 0);
    assert_eq!(SheetRange::parse("A1").unwrap().start.col, 0);
    assert_eq!(SheetRange::parse("c1").unwrap().start.col, 2);
}

#[test]
fn test_parse_sheet_address() {
    let range = SheetRange::parse("a2").unwrap();
    assert_eq!(range.start, SheetAddress { row: 1, col: 0 });
    assert_eq!(range.end, SheetAddress { row: 1, col: 0 });
}

#[test]
fn test_parse_sheet_range() {
    assert_eq!(
        SheetRange::parse("a2").unwrap(),
        SheetRange {
            start: SheetAddress { row: 1, col: 0 },
            end: SheetAddress { row: 1, col: 0 },
        }
    );

    assert_eq!(
        SheetRange::parse("a2-c6").unwrap(),
        SheetRange {
            start: SheetAddress { row: 1, col: 0 },
            end: SheetAddress { row: 5, col: 2 },
        }
    );
}

#[test]
fn test_addresses_flat() {
    let range = SheetRange {
        start: SheetAddress { row: 1, col: 1 },
        end: SheetAddress { row: 3, col: 3 },
    };

    assert_eq!(
        flat_vec(&range),
        vec![
            SheetAddress { row: 1, col: 1 },
            SheetAddress { row: 1, col: 2 },
            SheetAddress { row: 1, col: 3 },
            SheetAddress { row: 2, col: 1 },
            SheetAddress { row: 2, col: 2 },
            SheetAddress { row: 2, col: 3 },
            SheetAddress { row: 3, col: 1 },
            SheetAddress { row: 3, col: 2 },
            SheetAddress { row: 3, col: 3 },
        ]
    );

    // Same start as end
    let range = SheetRange {
        start: SheetAddress { row: 1, col: 1 },
        end: SheetAddress { row: 1, col: 1 },
    };

    assert_eq!(flat_vec(&range), vec![SheetAddress { row: 1, col: 1 }]);
}

#[test]
fn test_addresses_shaped() {
    // Single address
    let range = SheetRange {
        start: SheetAddress { row: 5, col: 5 },
        end: SheetAddress { row: 5, col: 5 },
    };

    assert!(match range.addresses_shaped() {
        SheetRangeShapedAddresses::Single { address } => {
            assert_eq!(address, SheetAddress { row: 5, col: 5 });
            true
        }
        _ => false,
    });

    // Row
    let range = SheetRange {
        start: SheetAddress { row: 5, col: 5 },
        end: SheetAddress { row: 5, col: 8 },
    };
    assert!(match range.addresses_shaped() {
        SheetRangeShapedAddresses::Addresses1D(mut iter) => {
            let mut got = Vec::new();
            while let Some(a) = iter.next() {
                got.push(a);
            }
            assert_eq!(
                got,
                vec![
                    SheetAddress { row: 5, col: 5 },
                    SheetAddress { row: 5, col: 6 },
                    SheetAddress { row: 5, col: 7 },
                    SheetAddress { row: 5, col: 8 },
                ]
            );
            true
        }
        _ => false,
    });

    // Column
    let range = SheetRange {
        start: SheetAddress { row: 5, col: 5 },
        end: SheetAddress { row: 8, col: 5 },
    };
    assert!(match range.addresses_shaped() {
        SheetRangeShapedAddresses::Addresses1D(mut iter) => {
            let mut got = Vec::new();
            while let Some(a) = iter.next() {
                got.push(a);
            }
            assert_eq!(
                got,
                vec![
                    SheetAddress { row: 5, col: 5 },
                    SheetAddress { row: 6, col: 5 },
                    SheetAddress { row: 7, col: 5 },
                    SheetAddress { row: 8, col: 5 },
                ]
            );
            true
        }
        _ => false,
    });

    // Grid
    let range = SheetRange {
        start: SheetAddress { row: 0, col: 0 },
        end: SheetAddress { row: 2, col: 2 },
    };
    assert!(match range.addresses_shaped() {
        SheetRangeShapedAddresses::Addresses2D(mut iter) => {
            let mut rows = Vec::new();
            while let Some(mut row) = iter.next() {
                let mut cells = Vec::new();
                while let Some(a) = row.next() {
                    cells.push(a);
                }
                rows.push(cells);
            }
            assert_eq!(
                rows,
                vec![
                    vec![
                        SheetAddress { row: 0, col: 0 },
                        SheetAddress { row: 0, col: 1 },
                        SheetAddress { row: 0, col: 2 },
                    ],
                    vec![
                        SheetAddress { row: 1, col: 0 },
                        SheetAddress { row: 1, col: 1 },
                        SheetAddress { row: 1, col: 2 },
                    ],
                    vec![
                        SheetAddress { row: 2, col: 0 },
                        SheetAddress { row: 2, col: 1 },
                        SheetAddress { row: 2, col: 2 },
                    ],
                ]
            );
            true
        }
        _ => false,
    });
}

struct TestNode;

impl TestNode {
    fn new(id: i32, deps: Vec<i32>) -> GraphNode<i32> {
        GraphNode { id, deps }
    }
}

fn same_elements(a: Vec<i32>, b: Vec<i32>) -> bool {
    let mut sorted_a = a;
    sorted_a.sort();
    let mut sorted_b = b;
    sorted_b.sort();
    sorted_a == sorted_b
}

#[test]
fn test_basic() {
    let nodes = vec![
        TestNode::new(1, vec![]),
        TestNode::new(2, vec![1, 3]),
        TestNode::new(3, vec![1]),
        TestNode::new(4, vec![3, 5]),
        TestNode::new(5, vec![]),
    ];

    let graph = DepGraph::with_nodes(&nodes);
    assert!(same_elements(graph.get_direct_dependents(1), vec![3, 2]));
    assert!(same_elements(graph.get_direct_dependents(3), vec![2, 4]));
    assert!(same_elements(graph.get_direct_dependents(5), vec![4]));

    let graph = graph.update_node(&TestNode::new(4, vec![1, 5]));
    // Rdep to 4 was added to 1.
    assert!(same_elements(graph.get_direct_dependents(1), vec![2, 3, 4]));
    // Rdep to 4 was removed from 3.
    assert!(same_elements(graph.get_direct_dependents(3), vec![2]));
    // 4 still depends on 5.
    assert!(same_elements(graph.get_direct_dependents(5), vec![4]));
}

fn set(sheet: &mut Sheet, row: i32, col: i32, contents: &str) {
    sheet.set_cell(addr(row, col), contents.to_string()).unwrap();
}

fn value_text(sheet: &Sheet, row: i32, col: i32) -> String {
    sheet.get_cell(&addr(row, col)).value.render()
}

#[test]
fn scenario_arithmetic() {
    // A1 = (+ 1 2) computes 3
    let mut sheet = Sheet::new();
    set(&mut sheet, 0, 0, "=(+ 1 2)");
    assert_eq!(value_text(&sheet, 0, 0), "3");
}

#[test]
fn scenario_reference_and_listener() {
    // B1 = (+ :a1 5) follows A1 as it changes
    let mut sheet = Sheet::new();
    set(&mut sheet, 0, 0, "10");
    set(&mut sheet, 0, 1, "=(+ :a1 5)");
    assert_eq!(value_text(&sheet, 0, 1), "15");

    let _sub = sheet.subscribe_to_cell(addr(0, 1));
    let _ = sheet.take_pending();
    set(&mut sheet, 0, 0, "20");
    assert_eq!(value_text(&sheet, 0, 1), "25");
    let pending = sheet.take_pending();
    assert!(pending.contains(&addr(0, 1)));
}

#[test]
fn scenario_range_sum_via_apply() {
    let mut sheet = Sheet::new();
    set(&mut sheet, 0, 0, "1");
    set(&mut sheet, 1, 0, "2");
    set(&mut sheet, 2, 0, "3");
    set(&mut sheet, 0, 1, "=(apply + :a1-a3)");
    assert_eq!(value_text(&sheet, 0, 1), "6");
}

#[test]
fn scenario_closure() {
    let res = lisp_sheet::debug::debug_eval_expr("((lambda (x) (+ x 1)) 41)").unwrap();
    assert_eq!(res, "Number(42)");
}

#[test]
fn scenario_conditional() {
    let res = lisp_sheet::debug::debug_eval_expr("(if (nil? nil) 1 2)").unwrap();
    assert_eq!(res, "Number(1)");
    let res = lisp_sheet::debug::debug_eval_expr("(if (nil? 0) 1 2)").unwrap();
    assert_eq!(res, "Number(2)");
}

#[test]
fn scenario_map_via_prelude() {
    let mut sheet = Sheet::new();
    set(&mut sheet, 0, 0, "1");
    set(&mut sheet, 1, 0, "2");
    set(&mut sheet, 2, 0, "3");
    set(&mut sheet, 0, 1, "=(apply + (map (lambda (x) (* x x)) :a1-a3))");
    assert_eq!(value_text(&sheet, 0, 1), "14");
}

#[test]
fn set_cell_records_source() {
    // the raw text of a write always reads back unchanged
    let mut sheet = Sheet::new();
    set(&mut sheet, 2, 3, "hello there");
    assert_eq!(sheet.get_cell(&addr(2, 3)).source, "hello there");
    set(&mut sheet, 2, 3, "=(+ 1 1)");
    assert_eq!(sheet.get_cell(&addr(2, 3)).source, "=(+ 1 1)");
    set(&mut sheet, 2, 3, "42");
    assert_eq!(sheet.get_cell(&addr(2, 3)).source, "42");
}

#[test]
fn absent_cell_reads_empty() {
    let sheet = Sheet::new();
    let info = sheet.get_cell(&addr(9, 9));
    assert_eq!(info.value, SheetCellComputedValue::Text(String::new()));
    assert_eq!(info.source, "");
}

#[test]
fn formula_value_tracks_fresh_evaluation() {
    // after each write, a formula's stored value equals evaluating it again
    let mut sheet = Sheet::new();
    set(&mut sheet, 0, 0, "2");
    set(&mut sheet, 0, 1, "=(* :a1 :a1)");
    assert_eq!(value_text(&sheet, 0, 1), "4");
    set(&mut sheet, 0, 0, "5");
    assert_eq!(value_text(&sheet, 0, 1), "25");
}

#[test]
fn number_cells_and_text_cells() {
    let mut sheet = Sheet::new();
    set(&mut sheet, 0, 0, "1.5");
    assert_eq!(value_text(&sheet, 0, 0), "1.5");
    set(&mut sheet, 1, 0, "not a number");
    assert_eq!(value_text(&sheet, 1, 0), "not a number");
    set(&mut sheet, 2, 0, "1e");
    assert_eq!(value_text(&sheet, 2, 0), "1e");
}

#[test]
fn set_cell_error_leaves_sheet_unchanged() {
    let mut sheet = Sheet::new();
    set(&mut sheet, 0, 0, "7");
    // parse error
    assert!(sheet.set_cell(addr(0, 0), "=(".to_string()).is_err());
    assert_eq!(value_text(&sheet, 0, 0), "7");
    // compile error: the empty list cannot be compiled
    assert!(sheet.set_cell(addr(0, 0), "=()".to_string()).is_err());
    // undefined name
    assert!(sheet.set_cell(addr(0, 0), "=(nosuchname 1)".to_string()).is_err());
    // bad arguments to a builtin
    assert!(sheet
        .set_cell(addr(0, 0), "=(+ 1 \"x\")".to_string())
        .is_err());
    // calling a non-function
    assert!(sheet.set_cell(addr(0, 0), "=(1 2)".to_string()).is_err());
    // apply with a non-list argument
    assert!(sheet.set_cell(addr(0, 0), "=(apply + 1)".to_string()).is_err());
    // a keyword whose range is inverted
    assert!(sheet.set_cell(addr(0, 0), "=(+ :b2-a1 0)".to_string()).is_err());
    assert_eq!(value_text(&sheet, 0, 0), "7");
}

#[test]
fn invalid_range_rejected() {
    assert!(SheetRange::parse("b2-a1").is_err());
    assert!(SheetRange::parse("a0").is_err());
    assert!(SheetRange::parse("7").is_err());
    assert!(SheetRange::parse("").is_err());
}

#[test]
fn range_parse_ignores_trailing_text() {
    // the grammar reads a prefix; what follows is ignored
    let range = SheetRange::parse("a1-b2xyz").unwrap();
    assert_eq!(range.start, addr(0, 0));
    assert_eq!(range.end, addr(1, 1));
}

#[test]
fn shape_classification_is_exclusive() {
    // one case each: single, row, column, grid
    let single = SheetRange { start: addr(2, 2), end: addr(2, 2) };
    assert!(matches!(
        single.addresses_shaped(),
        SheetRangeShapedAddresses::Single { .. }
    ));
    let row = SheetRange { start: addr(2, 2), end: addr(2, 4) };
    assert!(matches!(
        row.addresses_shaped(),
        SheetRangeShapedAddresses::Addresses1D(_)
    ));
    let col = SheetRange { start: addr(2, 2), end: addr(4, 2) };
    assert!(matches!(
        col.addresses_shaped(),
        SheetRangeShapedAddresses::Addresses1D(_)
    ));
    let grid = SheetRange { start: addr(2, 2), end: addr(3, 3) };
    assert!(matches!(
        grid.addresses_shaped(),
        SheetRangeShapedAddresses::Addresses2D(_)
    ));
}

#[test]
fn graph_mirror_observed_through_sheet() {
    // a formula's references show up as reverse edges, and clearing the
    // formula removes them
    let mut sheet = Sheet::new();
    set(&mut sheet, 0, 0, "1");
    set(&mut sheet, 0, 1, "=(+ :a1 1)");
    let dot = sheet.debug_graphviz();
    assert!(dot.contains("r0c1 -> r0c0"));
    set(&mut sheet, 0, 1, "plain text");
    let dot = sheet.debug_graphviz();
    assert!(!dot.contains("r0c1 -> r0c0"));
}

#[test]
fn unsubscribe_stops_notifications() {
    let mut sheet = Sheet::new();
    let sub = sheet.subscribe_to_cell(addr(0, 0));
    set(&mut sheet, 0, 0, "1");
    assert!(sheet.take_pending().contains(&addr(0, 0)));
    sheet.unsubscribe(&sub);
    set(&mut sheet, 0, 0, "2");
    assert!(!sheet.take_pending().contains(&addr(0, 0)));
}

#[test]
fn two_dimensional_range_resolves_rows() {
    // (car (car :a1-b2)) picks the top-left cell of a grid range
    let mut sheet = Sheet::new();
    set(&mut sheet, 0, 0, "1");
    set(&mut sheet, 0, 1, "2");
    set(&mut sheet, 1, 0, "3");
    set(&mut sheet, 1, 1, "4");
    set(&mut sheet, 2, 0, "=(car (car :a1-b2))");
    assert_eq!(value_text(&sheet, 2, 0), "1");
}

#[test]
fn cyclic_dependencies_terminate() {
    // a cycle between two formulas still finishes within the iteration cap
    let mut sheet = Sheet::new();
    set(&mut sheet, 0, 1, "0");
    set(&mut sheet, 0, 0, "=(+ :b1 1)");
    set(&mut sheet, 0, 1, "=(+ :a1 1)");
    // both cells hold numbers; the exact values depend on the walk
    let a = value_text(&sheet, 0, 0);
    let b = value_text(&sheet, 0, 1);
    assert!(!a.is_empty() && !b.is_empty());
}

#[test]
fn unrepresentable_value_stores_invalid() {
    let mut sheet = Sheet::new();
    set(&mut sheet, 0, 0, "=(quote (1 2))");
    let text = value_text(&sheet, 0, 0);
    assert!(text.starts_with("!INVALID: "));
}

#[test]
fn boolean_result_stores_true_false_text() {
    let mut sheet = Sheet::new();
    set(&mut sheet, 0, 0, "=(nil? nil)");
    assert_eq!(value_text(&sheet, 0, 0), "TRUE");
    set(&mut sheet, 0, 0, "=(nil? 1)");
    assert_eq!(value_text(&sheet, 0, 0), "FALSE");
    set(&mut sheet, 0, 1, "=:z9");
    assert_eq!(value_text(&sheet, 0, 1), "<nil>");
}
