use octave_lsp::ast::{Expr, Op, Statement};
use octave_lsp::typesystem::{SimpleType, Type};
use octave_lsp::node::{Node, Position, Span, Tree};
use octave_lsp::parser::parse;
use octave_lsp::value::Matrix;

fn span(l1: usize, c1: usize, l2: usize, c2: usize) -> Span {
    Span { start: Position { line: l1, col: c1 }, end: Position { line: l2, col: c2 } }
}

#[test]
fn span_contains_is_half_open() {
    let s = span(1, 2, 1, 5);
    assert!(!s.contains(Position { line: 1, col: 1 }));
    assert!(s.contains(Position { line: 1, col: 2 }));
    assert!(s.contains(Position { line: 1, col: 4 }));
    assert!(!s.contains(Position { line: 1, col: 5 }));
}

#[test]
fn node_map_keeps_span() {
    let n = Node { span: span(1, 1, 1, 3), data: 41u64 };
    let m = n.map(|x| x + 1);
    assert_eq!(m.span, span(1, 1, 1, 3));
    assert_eq!(m.data, 42);
}

#[test]
fn node_result_helpers() {
    let ok: Node<Result<u64, String>> = Node { span: span(1, 1, 1, 2), data: Ok(2) };
    let doubled = ok.map_data(|x| x * 2);
    assert_eq!(doubled.data, Ok(4));
    let n: Node<Result<u64, String>> = Node { span: span(1, 1, 1, 2), data: Ok(7) };
    assert!(n.transpose().is_ok());
}

#[test]
fn node_option_helpers() {
    let none: Node<Option<u64>> = Node { span: span(1, 1, 1, 2), data: None };
    let r = none.map_data(|x| x + 1);
    assert_eq!(r.data, Err(String::from("Unexpected end of file")));
    let some: Node<Option<u64>> = Node { span: span(1, 1, 1, 2), data: Some(3) };
    let t = some.transpose().unwrap();
    assert_eq!(t.data, 3);
}

#[test]
fn matrix_shape_and_cells() {
    let m = Matrix::from_vecs(vec![vec![1, 2, 3], vec![4, 5, 6]]);
    assert_eq!(m.width(), 3);
    assert_eq!(m.height(), 2);
    assert_eq!(m.ix(1, 1), 4);
    assert_eq!(m.get(1, 1), Some(&5));
    assert_eq!(m.get(0, 5), None);
}

#[test]
fn matrix_set_replaces_in_range_only() {
    let mut m = Matrix::from_vecs(vec![vec![1, 2], vec![3, 4]]);
    assert!(m.set(0, 1, 9));
    assert_eq!(m.get(0, 1), Some(&9));
    assert!(!m.set(0, 7, 9));
}

#[test]
fn matrix_map_and_transpose() {
    let m = Matrix::from_vecs(vec![vec![1, 2], vec![3, 4]]);
    let doubled = m.map(|x: i32| x * 2);
    assert_eq!(doubled.get(1, 1), Some(&8));
    let all = Matrix::from_vecs(vec![vec![Some(1), Some(2)]]);
    assert!(all.transpose().is_some());
    let holed = Matrix::from_vecs(vec![vec![Some(1), None]]);
    assert!(holed.transpose().is_none());
}

#[test]
fn children_walk_both_payloads() {
    let actual = parse("[1 2 3] + x");
    let kids = actual.data.children();
    // The block's children are its statements, the end marker included.
    assert_eq!(kids.len(), 2);
    if let Statement::Expr(e) = &kids[0].data {
        let ops = e.data.children();
        assert_eq!(ops.len(), 2);
        assert!(matches!(e.data, Expr::Op(Op::Add, _, _)));
    } else {
        unreachable!()
    }
}

#[test]
fn at_pos_finds_smallest_span() {
    let actual = parse("x = [1 22 3]");
    // Inside the `22`: 1-based line 1, columns 8..10.
    let found = actual
        .at_pos(Position { line: 1, col: 8 })
        .unwrap();
    assert!(matches!(found.data, Expr::LitNumber(_)));
    assert_eq!(found.span.start, Position { line: 1, col: 8 });
    assert_eq!(found.span.end, Position { line: 1, col: 10 });
    // Outside the tree nothing is found.
    assert!(actual.at_pos(Position { line: 9, col: 1 }).is_none());
}

#[test]
fn wide_matrix_description_is_exact() {
    let t = Type::Matrix { size: Some((12, 345)), ty: SimpleType::Single };
    assert_eq!(t.describe().as_str(), "12x345 single matrix");
}
