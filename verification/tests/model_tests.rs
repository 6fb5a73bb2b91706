use octave_lsp::ast::{Expr, Statement};
use octave_lsp::model::{get_bindings, get_prelude, Model, ModelError};
use octave_lsp::node::Position;
use octave_lsp::parser::parse;
use octave_lsp::text::{ContentChange, DocPosition, DocRange};
use octave_lsp::typesystem::{SimpleType, Type};

fn uri() -> String {
    String::from("file:///a.m")
}

#[test]
fn assignment_binds_matrix_type() {
    let ast = parse("hello = [1 2 3]");
    let bindings = get_bindings(&ast);
    let t = bindings.get(&String::from("hello")).unwrap();
    assert_eq!(t, Type::Matrix { size: Some((3, 1)), ty: SimpleType::Double });
}

#[test]
fn call_type_checks_through_prelude() {
    let ast = parse("sin([1 2 3])");
    assert_eq!(ast.as_ref().get_errors().len(), 0);
    let bindings = get_bindings(&ast);
    if let Statement::Block(v) = &ast.data {
        if let Statement::Expr(e) = &v[0].data {
            let t = e.data.type_of(&bindings);
            assert_eq!(t, Type::Matrix { size: None, ty: SimpleType::Double });
        } else {
            unreachable!()
        }
    } else {
        unreachable!()
    }
}

#[test]
fn prelude_holds_trigonometry_and_sound() {
    let p = get_prelude();
    for name in ["sin", "cos", "tan", "sound"] {
        let t = p.get(&String::from(name)).unwrap();
        assert!(matches!(t, Type::Callable(_)));
    }
    assert!(p.get(&String::from("nope")).is_none());
}

#[test]
fn hover_over_callee_reports_callable() {
    let mut model = Model::default();
    model.set_document(uri(), String::from("sin([1 2 3])"));
    // Hover over the `i` of `sin`: 0-based line 0, character 1.
    let (t, span) = model
        .hover_at(&uri(), DocPosition { line: 0, character: 1 })
        .unwrap();
    assert!(matches!(t, Type::Callable(_)));
    // The span covers exactly the callee: 1-based columns 1 through 4.
    assert_eq!(span.start, Position { line: 1, col: 1 });
    assert_eq!(span.end, Position { line: 1, col: 4 });
    let shown = t.describe();
    assert!(shown.contains("->"));
}

#[test]
fn hover_outside_tree_is_empty() {
    let mut model = Model::default();
    model.set_document(uri(), String::from("x = 1"));
    assert!(model
        .hover_at(&uri(), DocPosition { line: 7, character: 0 })
        .is_none());
    assert!(model
        .hover_at(&String::from("file:///other.m"), DocPosition { line: 0, character: 0 })
        .is_none());
}

#[test]
fn mismatched_rows_give_one_diagnostic() {
    let mut model = Model::default();
    model.set_document(uri(), String::from("[1 2 3; 4 5]"));
    let diags = model.get_diagnostics(&uri());
    assert_eq!(diags.len(), 1);
    assert_eq!(diags[0].source.as_str(), "Octave");
    assert!(diags[0].message.contains("Matrix sizing error"));
    assert_eq!(diags[0].range.start.line, 0);
}

#[test]
fn clean_parse_gives_no_diagnostics() {
    let mut model = Model::default();
    model.set_document(uri(), String::from("sin([1 2 3])"));
    assert_eq!(model.get_diagnostics(&uri()).len(), 0);
    assert_eq!(model.get_diagnostics(&String::from("file:///nope.m")).len(), 0);
}

#[test]
fn variables_flatten_all_documents() {
    let mut model = Model::default();
    model.set_document(uri(), String::from("alpha = [1 2 3]"));
    model.set_document(String::from("file:///b.m"), String::from("beta = \"hi\""));
    let vars = model.get_variables();
    let names: Vec<&str> = vars.iter().map(|(n, _)| n.as_str()).collect();
    assert!(names.contains(&"alpha"));
    assert!(names.contains(&"beta"));
    // The prelude names appear for each document.
    assert!(names.contains(&"sin"));
}

#[test]
fn later_assignment_overwrites_earlier() {
    let ast = parse("x = [1 2 3]\nx = \"hi\"");
    let bindings = get_bindings(&ast);
    let t = bindings.get(&String::from("x")).unwrap();
    // A lone string literal is a one-cell string matrix.
    assert_eq!(t, Type::Matrix { size: Some((1, 1)), ty: SimpleType::String });
}

#[test]
fn edit_unknown_document_fails() {
    let mut model = Model::default();
    let r = model.apply_edits(&uri(), vec![], Some(1));
    assert!(matches!(r, Err(ModelError::UnknownDocument(_))));
}

#[test]
fn edit_reparses_and_rebinds() {
    let mut model = Model::default();
    model.set_document(uri(), String::from("x = [1 2 3]"));
    let change = ContentChange {
        range: Some(DocRange {
            start: DocPosition { line: 0, character: 0 },
            end: DocPosition { line: 0, character: 1 },
        }),
        text: String::from("y"),
    };
    assert!(model.apply_edits(&uri(), vec![change], Some(5)).is_ok());
    let d = model.document(&uri()).unwrap();
    assert_eq!(d.doc.text(), "y = [1 2 3]");
    assert_eq!(d.doc.version(), 5);
    let t = d.bindings.get(&String::from("y")).unwrap();
    assert_eq!(t, Type::Matrix { size: Some((3, 1)), ty: SimpleType::Double });
}

#[test]
fn describe_renders_types() {
    assert_eq!(SimpleType::Double.describe().as_str(), "double");
    let t = Type::Matrix { size: Some((3, 1)), ty: SimpleType::Double };
    assert_eq!(t.describe().as_str(), "3x1 double matrix");
    let u = Type::Matrix { size: None, ty: SimpleType::Unknown };
    assert_eq!(u.describe().as_str(), "? matrix");
    assert_eq!(Type::Unknown.describe().as_str(), "?");
}

#[test]
fn hover_inside_matrix_reports_number() {
    let mut model = Model::default();
    model.set_document(uri(), String::from("sin([1 2 3])"));
    // Hover over the `2`: 0-based character 7.
    let (t, _span) = model
        .hover_at(&uri(), DocPosition { line: 0, character: 7 })
        .unwrap();
    assert_eq!(t, Type::SimpleType(SimpleType::Double));
}

#[test]
fn error_expressions_type_as_unknown() {
    let ast = parse("x = [1 2; 3]");
    let bindings = get_bindings(&ast);
    let t = bindings.get(&String::from("x")).unwrap();
    assert_eq!(t, Type::Unknown);
}

#[test]
fn unbound_identifier_is_unknown() {
    let ast = parse("y = nothing_bound");
    let bindings = get_bindings(&ast);
    // The right-hand side is an unbound identifier: its type is unknown.
    let t = bindings.get(&String::from("y")).unwrap();
    assert_eq!(t, Type::Unknown);
}

#[test]
fn incr_and_decr_are_void() {
    let ast = parse("a = ++b");
    let bindings = get_bindings(&ast);
    let t = bindings.get(&String::from("a")).unwrap();
    assert_eq!(t, Type::SimpleType(SimpleType::Void));
}

#[test]
fn range_takes_element_type_of_start() {
    let ast = parse("r = 1:5");
    let bindings = get_bindings(&ast);
    let t = bindings.get(&String::from("r")).unwrap();
    assert_eq!(t, Type::Matrix { size: None, ty: SimpleType::Double });
}

#[test]
fn matrix_getters_reject_other_shapes() {
    let ast = parse("x = 1");
    // An assignment statement denotes no literal matrix.
    assert!(ast.data.get_matrix().is_none());
    if let Statement::Block(v) = &ast.data {
        if let Statement::Assignment(_, e) = &v[0].data {
            assert!(matches!(e.data, Expr::Matrix(_)));
        }
    }
}
