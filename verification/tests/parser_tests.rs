use octave_lsp::ast::{Expr, Statement};
use octave_lsp::parser::parse;
use octave_lsp::value::Matrix;

fn as_f64(m: Matrix<String>) -> Matrix<f64> {
    m.map(|s: String| s.parse::<f64>().unwrap())
}

#[test]
fn number() {
    let actual = parse("42.0");
    let expected_mat = Some(Matrix::from_vecs(vec![vec![42.0]]));
    let actual_mat = actual.data.get_matrix().map(as_f64);
    println!("{:#?}", actual);
    assert_eq!(actual.as_ref().get_errors().len(), 0);
    assert_eq!(expected_mat, actual_mat);
}

#[test]
fn matrix1() {
    let actual = parse("[1 2 3; 4 5 6]");
    let expected_mat = Some(Matrix::from_vecs(vec![
        vec![1.0, 2.0, 3.0],
        vec![4.0, 5.0, 6.0],
    ]));
    let actual_mat = actual.data.get_matrix().map(as_f64);
    println!("{:#?}", actual);
    assert_eq!(expected_mat, actual_mat);
}

#[test]
fn matrix2() {
    let actual = parse(r#"["hello" "internet"]"#);
    let expected_mat = Some(Matrix::from_vecs(vec![vec![
        String::from("hello"),
        String::from("internet"),
    ]]));
    let actual_mat = actual.data.get_str_matrix();
    println!("{:#?}", actual);
    assert_eq!(expected_mat, actual_mat);
}

#[test]
fn matrix3() {
    let actual = parse("[a b c]");
    println!("{:#?}", actual);
    let mut names: Vec<String> = Vec::new();
    if let Statement::Block(v) = &actual.data {
        if let Statement::Expr(e) = &v[0].data {
            if let Expr::Matrix(m) = &e.data {
                for cell in &m.data {
                    if let Expr::Identifier(name) = &cell.data {
                        names.push(name.clone());
                    } else {
                        unreachable!()
                    }
                }
            } else {
                unreachable!()
            }
        } else {
            unreachable!()
        }
    } else {
        unreachable!()
    }
    assert_eq!(names, vec!["a", "b", "c"]);
}

#[test]
fn matrix_mismatch() {
    let actual = parse("[1 2 3; 4 5]");
    println!("{:#?}", actual);
    assert_eq!(1, actual.as_ref().get_errors().len());
}

#[test]
fn assignment() {
    let actual = parse("hello = [1 2 3]");
    println!("{:#?}", actual);
    assert_eq!(0, actual.as_ref().get_errors().len());
}

#[test]
fn operation() {
    let actual = parse("[1 2 3] + [4 5 6]");
    println!("{:#?}", actual);
    assert_eq!(0, actual.as_ref().get_errors().len());
}

#[test]
fn call() {
    let actual = parse("sin([1 2 3 4 5 6])");
    println!("{:#?}", actual);
    assert_eq!(0, actual.as_ref().get_errors().len());
}

#[test]
fn stmt_block() {
    let actual = parse("[1 2 3]\n[4 5 6];");
    let mut actual_vals: Vec<Matrix<f64>> = Vec::new();
    if let Statement::Block(v) = &actual.data {
        for n in v {
            if let Statement::EOI = n.data {
                break;
            }
            actual_vals.push(as_f64(n.data.get_matrix().unwrap()));
        }
    }
    println!("{:#?}", actual);
    println!("Errors: {:?}", actual.as_ref().get_errors());
    assert_eq!(0, actual.as_ref().get_errors().len());
    assert_eq!(2, actual_vals.len());
}

#[test]
fn mismatch_message_names_sizes() {
    let actual = parse("[1 2 3; 4 5]");
    let errs = actual.as_ref().get_errors();
    assert_eq!(errs.len(), 1);
    let msg = &errs[0].data;
    assert!(msg.contains("Matrix sizing error"));
    assert!(msg.contains("3"));
    assert!(msg.contains("2"));
}

#[test]
fn range_expression_parses() {
    let actual = parse("1:5");
    assert_eq!(0, actual.as_ref().get_errors().len());
    if let Statement::Block(v) = &actual.data {
        if let Statement::Expr(e) = &v[0].data {
            assert!(matches!(e.data, Expr::Range(_, None, _)));
        } else {
            unreachable!()
        }
    } else {
        unreachable!()
    }
}

#[test]
fn precedence_climbing_orders_operators() {
    // 1 + 2 * 3 parses as 1 + (2 * 3): the root operator is the addition.
    let actual = parse("x = 1 + 2 * 3");
    if let Statement::Block(v) = &actual.data {
        if let Statement::Assignment(name, e) = &v[0].data {
            assert_eq!(name, "x");
            if let Expr::Op(op, _, rhs) = &e.data {
                assert_eq!(*op, octave_lsp::ast::Op::Add);
                assert!(matches!(*rhs.data, Expr::Op(octave_lsp::ast::Op::Mul, _, _)));
            } else {
                unreachable!()
            }
        } else {
            unreachable!()
        }
    } else {
        unreachable!()
    }
}

#[test]
fn statement_semicolon_suppresses_output() {
    let actual = parse("x = 1;");
    if let Statement::Block(v) = &actual.data {
        assert!(matches!(v[0].data, Statement::IgnoreOutput(_)));
    } else {
        unreachable!()
    }
}
