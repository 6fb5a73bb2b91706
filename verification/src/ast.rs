//! The syntax tree: expressions and statements, their spans, and the
//! walks over them.
//!
//! Every node carries the source span it was read from. Malformed input
//! is represented by `Error` leaves, so a tree always exists; error
//! collection and type inference are structural walks over it.

use crate::node::{span_wf, Node, Span, Tree};
use crate::typesystem::{Bindings, SimpleType, Type, TypeV};
use crate::value::Matrix;
use vstd::prelude::*;

verus! {

/// A failure of a type-level operation.
#[derive(Debug, PartialEq)]
pub enum TypeError {
    TypeMismatch(Type, Type),
    NestedType(Type),
    NotCallable(Type),
}

/// A binary operator.
#[derive(Copy, Clone, Debug, PartialEq, Eq, Structural)]
pub enum Op {
    Add,
    Sub,
    Mul,
    Div,
    Pow,
    Access,
}

/// An expression: a literal, a name, a matrix of expressions, an
/// operator application, a range, or a call. `Error` carries a message
/// for input that did not parse.
#[derive(Debug, PartialEq)]
pub enum Expr {
    Error(String),
    LitString(String),
    LitNumber(String),
    Identifier(String),
    Matrix(Matrix<Node<Expr>>),
    Op(Op, Node<Box<Expr>>, Node<Box<Expr>>),
    Incr(Node<Box<Expr>>),
    Decr(Node<Box<Expr>>),
    Range(Node<Box<Expr>>, Option<Node<Box<Expr>>>, Node<Box<Expr>>),
    Call(Node<Box<Expr>>, Vec<Node<Expr>>),
}

/// A statement: an expression, an assignment, a block, an output-
/// suppressed statement, the end marker, or an error leaf.
#[derive(Debug, PartialEq)]
pub enum Statement {
    Error(String),
    IgnoreOutput(Node<Box<Statement>>),
    Expr(Node<Expr>),
    Assignment(String, Node<Expr>),
    AugAssignment(String, Op, Node<Expr>),
    Block(Vec<Node<Statement>>),
    EOI,
}

/// The mathematical value of an expression: the same structure with
/// sequences for vectors and character sequences for strings.
#[verifier::ext_equal]
pub enum ExprV {
    Error(Seq<char>),
    LitString(Seq<char>),
    LitNumber(Seq<char>),
    Identifier(Seq<char>),
    Matrix { width: int, cells: Seq<ExprNodeV> },
    Op(Op, Box<ExprNodeV>, Box<ExprNodeV>),
    Incr(Box<ExprNodeV>),
    Decr(Box<ExprNodeV>),
    Range(Box<ExprNodeV>, Option<Box<ExprNodeV>>, Box<ExprNodeV>),
    Call(Box<ExprNodeV>, Seq<ExprNodeV>),
}

/// A spanned expression value.
#[verifier::ext_equal]
pub struct ExprNodeV {
    pub span: Span,
    pub expr: ExprV,
}

/// The mathematical value of a statement.
#[verifier::ext_equal]
pub enum StmtV {
    Error(Seq<char>),
    IgnoreOutput(Box<StmtNodeV>),
    Expr(ExprNodeV),
    Assignment(Seq<char>, ExprNodeV),
    AugAssignment(Seq<char>, Op, ExprNodeV),
    Block(Seq<StmtNodeV>),
    EOI,
}

/// A spanned statement value.
#[verifier::ext_equal]
pub struct StmtNodeV {
    pub span: Span,
    pub stmt: StmtV,
}

/// The value of an expression.
pub open spec fn expr_view(e: Expr) -> ExprV
    decreases e,
{
    match e {
        Expr::Error(s) => ExprV::Error(s@),
        Expr::LitString(s) => ExprV::LitString(s@),
        Expr::LitNumber(s) => ExprV::LitNumber(s@),
        Expr::Identifier(s) => ExprV::Identifier(s@),
        Expr::Matrix(m) => ExprV::Matrix {
            width: m.width as int,
            cells: expr_nodes_view(m.data@),
        },
        Expr::Op(op, a, b) => ExprV::Op(op, Box::new(box_node_view(a)), Box::new(box_node_view(b))),
        Expr::Incr(a) => ExprV::Incr(Box::new(box_node_view(a))),
        Expr::Decr(a) => ExprV::Decr(Box::new(box_node_view(a))),
        Expr::Range(s, st, e2) => ExprV::Range(
            Box::new(box_node_view(s)),
            match st {
                Some(x) => Some(Box::new(box_node_view(x))),
                None => None,
            },
            Box::new(box_node_view(e2)),
        ),
        Expr::Call(c, args) => ExprV::Call(Box::new(box_node_view(c)), expr_nodes_view(args@)),
    }
}

/// The value of a spanned expression.
pub open spec fn expr_node_view(n: Node<Expr>) -> ExprNodeV
    decreases n,
{
    ExprNodeV { span: n.span, expr: expr_view(n.data) }
}

/// The value of a spanned boxed expression.
pub open spec fn box_node_view(n: Node<Box<Expr>>) -> ExprNodeV
    decreases n,
{
    ExprNodeV { span: n.span, expr: expr_view(*n.data) }
}

/// The values of a sequence of spanned expressions.
pub open spec fn expr_nodes_view(s: Seq<Node<Expr>>) -> Seq<ExprNodeV>
    decreases s,
{
    if s.len() == 0 {
        Seq::empty()
    } else {
        seq![expr_node_view(s[0])] + expr_nodes_view(s.drop_first())
    }
}

/// The value of a statement.
pub open spec fn stmt_view(s: Statement) -> StmtV
    decreases s,
{
    match s {
        Statement::Error(m) => StmtV::Error(m@),
        Statement::IgnoreOutput(n) => StmtV::IgnoreOutput(Box::new(box_stmt_node_view(n))),
        Statement::Expr(e) => StmtV::Expr(expr_node_view(e)),
        Statement::Assignment(name, e) => StmtV::Assignment(name@, expr_node_view(e)),
        Statement::AugAssignment(name, op, e) => StmtV::AugAssignment(name@, op, expr_node_view(e)),
        Statement::Block(v) => StmtV::Block(stmt_nodes_view(v@)),
        Statement::EOI => StmtV::EOI,
    }
}

/// The value of a spanned statement.
pub open spec fn stmt_node_view(n: Node<Statement>) -> StmtNodeV
    decreases n,
{
    StmtNodeV { span: n.span, stmt: stmt_view(n.data) }
}

/// The value of a spanned boxed statement.
pub open spec fn box_stmt_node_view(n: Node<Box<Statement>>) -> StmtNodeV
    decreases n,
{
    StmtNodeV { span: n.span, stmt: stmt_view(*n.data) }
}

/// The values of a sequence of spanned statements.
pub open spec fn stmt_nodes_view(s: Seq<Node<Statement>>) -> Seq<StmtNodeV>
    decreases s,
{
    if s.len() == 0 {
        Seq::empty()
    } else {
        seq![stmt_node_view(s[0])] + stmt_nodes_view(s.drop_first())
    }
}

/// `expr_nodes_view` maps the sequence elementwise.
pub proof fn lemma_expr_nodes_view(s: Seq<Node<Expr>>)
    ensures
        expr_nodes_view(s).len() == s.len(),
        forall|i: int|
            0 <= i < s.len() ==> expr_nodes_view(s)[i] == expr_node_view(#[trigger] s[i]),
    decreases s.len(),
{
    if s.len() > 0 {
        lemma_expr_nodes_view(s.drop_first());
        assert forall|i: int| 0 <= i < s.len() implies expr_nodes_view(s)[i] == expr_node_view(
            #[trigger] s[i],
        ) by {
            if i > 0 {
                assert(s.drop_first()[i - 1] == s[i]);
            }
        }
    }
}

/// `stmt_nodes_view` maps the sequence elementwise.
pub proof fn lemma_stmt_nodes_view(s: Seq<Node<Statement>>)
    ensures
        stmt_nodes_view(s).len() == s.len(),
        forall|i: int|
            0 <= i < s.len() ==> stmt_nodes_view(s)[i] == stmt_node_view(#[trigger] s[i]),
    decreases s.len(),
{
    if s.len() > 0 {
        lemma_stmt_nodes_view(s.drop_first());
        assert forall|i: int| 0 <= i < s.len() implies stmt_nodes_view(s)[i] == stmt_node_view(
            #[trigger] s[i],
        ) by {
            if i > 0 {
                assert(s.drop_first()[i - 1] == s[i]);
            }
        }
    }
}

/// Appending a spanned expression appends its value.
pub proof fn lemma_expr_nodes_view_push(s: Seq<Node<Expr>>, t: Node<Expr>)
    ensures
        expr_nodes_view(s.push(t)) == expr_nodes_view(s) + seq![expr_node_view(t)],
{
    lemma_expr_nodes_view(s);
    lemma_expr_nodes_view(s.push(t));
    assert forall|i: int| 0 <= i < s.push(t).len() implies expr_nodes_view(s.push(t))[i] == (
    expr_nodes_view(s) + seq![expr_node_view(t)])[i] by {
        if i < s.len() {
            assert(s.push(t)[i] == s[i]);
        } else {
            assert(s.push(t)[i] == t);
        }
    }
    assert(expr_nodes_view(s.push(t)) =~= expr_nodes_view(s) + seq![expr_node_view(t)]);
}

/// Appending a spanned statement appends its value.
pub proof fn lemma_stmt_nodes_view_push(s: Seq<Node<Statement>>, t: Node<Statement>)
    ensures
        stmt_nodes_view(s.push(t)) == stmt_nodes_view(s) + seq![stmt_node_view(t)],
{
    lemma_stmt_nodes_view(s);
    lemma_stmt_nodes_view(s.push(t));
    assert forall|i: int| 0 <= i < s.push(t).len() implies stmt_nodes_view(s.push(t))[i] == (
    stmt_nodes_view(s) + seq![stmt_node_view(t)])[i] by {
        if i < s.len() {
            assert(s.push(t)[i] == s[i]);
        } else {
            assert(s.push(t)[i] == t);
        }
    }
    assert(stmt_nodes_view(s.push(t)) =~= stmt_nodes_view(s) + seq![stmt_node_view(t)]);
}

/// The values of a concatenation are the concatenated values.
pub proof fn lemma_expr_nodes_view_concat(a: Seq<Node<Expr>>, b: Seq<Node<Expr>>)
    ensures
        expr_nodes_view(a + b) == expr_nodes_view(a) + expr_nodes_view(b),
{
    lemma_expr_nodes_view(a);
    lemma_expr_nodes_view(b);
    lemma_expr_nodes_view(a + b);
    assert forall|i: int| 0 <= i < (a + b).len() implies expr_nodes_view(a + b)[i] == (
    expr_nodes_view(a) + expr_nodes_view(b))[i] by {
        if i < a.len() {
            assert((a + b)[i] == a[i]);
        } else {
            assert((a + b)[i] == b[i - a.len()]);
        }
    }
    assert(expr_nodes_view(a + b) =~= expr_nodes_view(a) + expr_nodes_view(b));
}

/// A well-formed spanned expression: its span is ordered and 1-based,
/// and so is every node below it; matrices are non-empty with cells
/// dividing evenly into rows.
pub open spec fn expr_node_v_wf(n: ExprNodeV) -> bool
    decreases n,
{
    span_wf(n.span) && expr_v_wf(n.expr)
}

/// A well-formed expression value.
pub open spec fn expr_v_wf(e: ExprV) -> bool
    decreases e,
{
    match e {
        ExprV::Error(_) | ExprV::LitString(_) | ExprV::LitNumber(_) | ExprV::Identifier(_) => true,
        ExprV::Matrix { width, cells } => width >= 1 && cells.len() >= 1 && cells.len() as int % width
            == 0 && forall|i: int| 0 <= i < cells.len() ==> expr_node_v_wf(#[trigger] cells[i]),
        ExprV::Op(_, a, b) => expr_node_v_wf(*a) && expr_node_v_wf(*b),
        ExprV::Incr(a) => expr_node_v_wf(*a),
        ExprV::Decr(a) => expr_node_v_wf(*a),
        ExprV::Range(s, st, e2) => expr_node_v_wf(*s) && (match st {
            Some(x) => expr_node_v_wf(*x),
            None => true,
        }) && expr_node_v_wf(*e2),
        ExprV::Call(c, args) => expr_node_v_wf(*c) && forall|i: int|
            0 <= i < args.len() ==> expr_node_v_wf(#[trigger] args[i]),
    }
}

/// A well-formed spanned statement.
pub open spec fn stmt_node_v_wf(n: StmtNodeV) -> bool
    decreases n,
{
    span_wf(n.span) && stmt_v_wf(n.stmt)
}

/// A well-formed statement value: blocks are non-empty and every node
/// below is well formed.
pub open spec fn stmt_v_wf(s: StmtV) -> bool
    decreases s,
{
    match s {
        StmtV::Error(_) | StmtV::EOI => true,
        StmtV::IgnoreOutput(n) => stmt_node_v_wf(*n),
        StmtV::Expr(e) => expr_node_v_wf(e),
        StmtV::Assignment(_, e) => expr_node_v_wf(e),
        StmtV::AugAssignment(_, _, e) => expr_node_v_wf(e),
        StmtV::Block(v) => v.len() >= 1 && forall|i: int|
            0 <= i < v.len() ==> stmt_node_v_wf(#[trigger] v[i]),
    }
}

/// Copies an expression; the copy has the same value.
pub fn clone_expr(e: &Expr) -> (r: Expr)
    ensures
        expr_view(r) == expr_view(*e),
    decreases *e,
{
    match e {
        Expr::Error(s) => Expr::Error(s.clone()),
        Expr::LitString(s) => Expr::LitString(s.clone()),
        Expr::LitNumber(s) => Expr::LitNumber(s.clone()),
        Expr::Identifier(s) => Expr::Identifier(s.clone()),
        Expr::Matrix(m) => {
            proof {
                assert(*m == (*e)->Matrix_0);
                assert(decreases_to!(*e => (*e)->Matrix_0));
                assert(decreases_to!(*m => m.data));
            }
            let cells = clone_expr_nodes(&m.data);
            proof {
                lemma_expr_nodes_view(m.data@);
                lemma_expr_nodes_view(cells@);
                assert forall|j: int| 0 <= j < cells@.len() implies expr_nodes_view(cells@)[j]
                    == expr_nodes_view(m.data@)[j] by {
                    assert(expr_node_view(cells@[j]) == expr_node_view(m.data@[j]));
                }
                assert(expr_nodes_view(cells@) =~= expr_nodes_view(m.data@));
            }
            Expr::Matrix(Matrix { data: cells, width: m.width })
        },
        Expr::Op(op, a, b) => Expr::Op(*op, clone_box_node(a), clone_box_node(b)),
        Expr::Incr(a) => Expr::Incr(clone_box_node(a)),
        Expr::Decr(a) => Expr::Decr(clone_box_node(a)),
        Expr::Range(s, st, e2) => {
            let stc = match st {
                Some(x) => Some(clone_box_node(x)),
                None => None,
            };
            Expr::Range(clone_box_node(s), stc, clone_box_node(e2))
        },
        Expr::Call(c, args) => {
            proof {
                assert(*args == (*e)->Call_1);
                assert(decreases_to!(*e => (*e)->Call_1));
            }
            let out = clone_expr_nodes(args);
            proof {
                lemma_expr_nodes_view(args@);
                lemma_expr_nodes_view(out@);
                assert forall|j: int| 0 <= j < out@.len() implies expr_nodes_view(out@)[j]
                    == expr_nodes_view(args@)[j] by {
                    assert(expr_node_view(out@[j]) == expr_node_view(args@[j]));
                }
                assert(expr_nodes_view(out@) =~= expr_nodes_view(args@));
            }
            Expr::Call(clone_box_node(c), out)
        },
    }
}

/// Copies a list of spanned expressions; the copies have the same values.
pub fn clone_expr_nodes(v: &Vec<Node<Expr>>) -> (r: Vec<Node<Expr>>)
    ensures
        r@.len() == v@.len(),
        forall|j: int|
            0 <= j < v@.len() ==> expr_node_view(#[trigger] r@[j]) == expr_node_view(v@[j]),
    decreases *v,
{
    let mut out: Vec<Node<Expr>> = Vec::new();
    let mut i: usize = 0;
    while i < v.len()
        invariant
            i <= v@.len(),
            out@.len() == i,
            forall|j: int|
                0 <= j < i ==> expr_node_view(#[trigger] out@[j]) == expr_node_view(v@[j]),
        decreases v@.len() - i,
    {
        proof {
            assert(decreases_to!(*v => v@));
            assert(decreases_to!(v@ => v@[i as int]));
        }
        let nd = clone_expr_node(&v[i]);
        out.push(nd);
        i = i + 1;
    }
    out
}

/// Copies a list of spanned statements; the copies have the same values.
pub fn clone_stmt_nodes(v: &Vec<Node<Statement>>) -> (r: Vec<Node<Statement>>)
    ensures
        r@.len() == v@.len(),
        forall|j: int|
            0 <= j < v@.len() ==> stmt_node_view(#[trigger] r@[j]) == stmt_node_view(v@[j]),
    decreases *v,
{
    let mut out: Vec<Node<Statement>> = Vec::new();
    let mut i: usize = 0;
    while i < v.len()
        invariant
            i <= v@.len(),
            out@.len() == i,
            forall|j: int|
                0 <= j < i ==> stmt_node_view(#[trigger] out@[j]) == stmt_node_view(v@[j]),
        decreases v@.len() - i,
    {
        proof {
            assert(decreases_to!(*v => v@));
            assert(decreases_to!(v@ => v@[i as int]));
        }
        let nd = clone_stmt_node(&v[i]);
        out.push(nd);
        i = i + 1;
    }
    out
}

/// Copies a spanned expression; the copy has the same value.
pub fn clone_expr_node(n: &Node<Expr>) -> (r: Node<Expr>)
    ensures
        expr_node_view(r) == expr_node_view(*n),
    decreases *n,
{
    Node { span: n.span, data: clone_expr(&n.data) }
}

/// Copies a spanned boxed expression; the copy has the same value.
pub fn clone_box_node(n: &Node<Box<Expr>>) -> (r: Node<Box<Expr>>)
    ensures
        box_node_view(r) == box_node_view(*n),
    decreases *n,
{
    Node { span: n.span, data: Box::new(clone_expr(&*n.data)) }
}

/// Copies a statement; the copy has the same value.
pub fn clone_stmt(s: &Statement) -> (r: Statement)
    ensures
        stmt_view(r) == stmt_view(*s),
    decreases *s,
{
    match s {
        Statement::Error(m) => Statement::Error(m.clone()),
        Statement::IgnoreOutput(n) => Statement::IgnoreOutput(
            Node { span: n.span, data: Box::new(clone_stmt(&*n.data)) },
        ),
        Statement::Expr(e) => Statement::Expr(clone_expr_node(e)),
        Statement::Assignment(name, e) => Statement::Assignment(name.clone(), clone_expr_node(e)),
        Statement::AugAssignment(name, op, e) => Statement::AugAssignment(
            name.clone(),
            *op,
            clone_expr_node(e),
        ),
        Statement::Block(v) => {
            proof {
                assert(*v == (*s)->Block_0);
                assert(decreases_to!(*s => (*s)->Block_0));
            }
            let out = clone_stmt_nodes(v);
            proof {
                lemma_stmt_nodes_view(v@);
                lemma_stmt_nodes_view(out@);
                assert forall|j: int| 0 <= j < out@.len() implies stmt_nodes_view(out@)[j]
                    == stmt_nodes_view(v@)[j] by {
                    assert(stmt_node_view(out@[j]) == stmt_node_view(v@[j]));
                }
                assert(stmt_nodes_view(out@) =~= stmt_nodes_view(v@));
            }
            Statement::Block(out)
        },
        Statement::EOI => Statement::EOI,
    }
}

/// Copies a spanned statement; the copy has the same value.
pub fn clone_stmt_node(n: &Node<Statement>) -> (r: Node<Statement>)
    ensures
        stmt_node_view(r) == stmt_node_view(*n),
    decreases *n,
{
    Node { span: n.span, data: clone_stmt(&n.data) }
}

/// The inferred type of an expression value under the given bindings:
/// literals are strings or doubles, a matrix takes its shape and its
/// first cell's element type, a call takes its callee's declared return
/// type, an operator application takes its left operand's type, a name
/// takes its current binding, and what remains is unknown or void.
pub open spec fn spec_type_of(e: ExprV, m: Map<Seq<char>, TypeV>) -> TypeV
    decreases e,
{
    match e {
        ExprV::LitString(_) => TypeV::SimpleType(SimpleType::String),
        ExprV::LitNumber(_) => TypeV::SimpleType(SimpleType::Double),
        ExprV::Range(s, _, _) => TypeV::Matrix {
            size: None,
            ty: match crate::typesystem::simple_type_v(spec_type_of((*s).expr, m)) {
                Some(x) => x,
                None => SimpleType::Unknown,
            },
        },
        ExprV::Incr(_) => TypeV::SimpleType(SimpleType::Void),
        ExprV::Decr(_) => TypeV::SimpleType(SimpleType::Void),
        ExprV::Call(c, _) => match spec_type_of((*c).expr, m) {
            TypeV::Callable { ret, .. } => *ret,
            _ => TypeV::Unknown,
        },
        ExprV::Op(_, a, _) => spec_type_of((*a).expr, m),
        ExprV::Identifier(i) => if m.contains_key(i) {
            m[i]
        } else {
            TypeV::Unknown
        },
        ExprV::Error(_) => TypeV::Unknown,
        ExprV::Matrix { width, cells } => TypeV::Matrix {
            size: Some((width as usize, (cells.len() as int / width) as usize)),
            ty: if cells.len() >= 1 {
                match crate::typesystem::simple_type_v(spec_type_of(cells[0].expr, m)) {
                    Some(x) => x,
                    None => SimpleType::Unknown,
                }
            } else {
                SimpleType::Unknown
            },
        },
    }
}

impl Expr {
    /// Infers this expression's structural type under the given bindings.
    pub fn type_of(&self, ctx: &Bindings) -> (r: Type)
        requires
            expr_v_wf(expr_view(*self)),
        ensures
            r@ == spec_type_of(expr_view(*self), ctx@),
        decreases *self,
    {
        match self {
            Expr::LitString(_) => Type::SimpleType(SimpleType::String),
            Expr::LitNumber(_) => Type::SimpleType(SimpleType::Double),
            Expr::Range(s, _, _) => {
                let t = s.data.type_of(ctx);
                let st = t.simple_type();
                proof {
                    crate::typesystem::lemma_simple_type_view(t);
                }
                Type::Matrix {
                    size: None,
                    ty: match st {
                        Some(x) => x,
                        None => SimpleType::Unknown,
                    },
                }
            },
            Expr::Incr(_) => Type::SimpleType(SimpleType::Void),
            Expr::Decr(_) => Type::SimpleType(SimpleType::Void),
            Expr::Call(c, _) => {
                let t = c.data.type_of(ctx);
                match t {
                    Type::Callable(ct) => *ct.return_type,
                    _ => Type::Unknown,
                }
            },
            Expr::Op(_, a, _) => a.data.type_of(ctx),
            Expr::Identifier(i) => {
                match ctx.get(i) {
                    Some(t) => t,
                    None => Type::Unknown,
                }
            },
            Expr::Error(_) => Type::Unknown,
            Expr::Matrix(m) => {
                proof {
                    lemma_expr_nodes_view(m.data@);
                    assert(expr_node_v_wf(expr_nodes_view(m.data@)[0]));
                }
                let t0 = m.data[0].data.type_of(ctx);
                let st = t0.simple_type();
                proof {
                    crate::typesystem::lemma_simple_type_view(t0);
                }
                Type::Matrix {
                    size: Some((m.width(), m.height())),
                    ty: match st {
                        Some(x) => x,
                        None => SimpleType::Unknown,
                    },
                }
            },
        }
    }
}

/// The bindings after a statement: each assignment binds its name to the
/// type of its right-hand side as inferred against the bindings gathered
/// so far; blocks fold over their statements in order.
pub open spec fn spec_add_bindings(s: StmtV, m: Map<Seq<char>, TypeV>) -> Map<Seq<char>, TypeV>
    decreases s,
{
    match s {
        StmtV::Assignment(name, e) => m.insert(name, spec_type_of(e.expr, m)),
        StmtV::Block(v) => spec_add_seq(v, m),
        StmtV::IgnoreOutput(n) => spec_add_bindings((*n).stmt, m),
        _ => m,
    }
}

/// The bindings after a list of statements, folded left to right.
pub open spec fn spec_add_seq(ss: Seq<StmtNodeV>, m: Map<Seq<char>, TypeV>) -> Map<
    Seq<char>,
    TypeV,
>
    decreases ss,
{
    if ss.len() == 0 {
        m
    } else {
        spec_add_seq(ss.drop_first(), spec_add_bindings(ss[0].stmt, m))
    }
}

impl Statement {
    /// Accumulates this statement's bindings: assignments insert, blocks
    /// fold in order, and other statements bind nothing.
    pub fn add_bindings(&self, ctx: &mut Bindings)
        requires
            stmt_v_wf(stmt_view(*self)),
            old(ctx).wf(),
        ensures
            final(ctx).wf(),
            final(ctx)@ == spec_add_bindings(stmt_view(*self), old(ctx)@),
        decreases *self,
    {
        match self {
            Statement::Assignment(name, e) => {
                let t = e.data.type_of(ctx);
                ctx.insert(name.clone(), t);
            },
            Statement::Block(v) => {
                proof {
                    assert(*v == (*self)->Block_0);
                    assert(decreases_to!(*self => (*self)->Block_0));
                    lemma_stmt_nodes_view(v@);
                }
                let ghost m0: Map<Seq<char>, TypeV> = ctx@;
                let ghost views: Seq<StmtNodeV> = stmt_nodes_view(v@);
                let mut i: usize = 0;
                proof {
                    assert(views.skip(0) =~= views);
                }
                while i < v.len()
                    invariant
                        i <= v@.len(),
                        views == stmt_nodes_view(v@),
                        views.len() == v@.len(),
                        forall|j: int|
                            0 <= j < v@.len() ==> views[j] == stmt_node_view(#[trigger] v@[j]),
                        stmt_v_wf(StmtV::Block(views)),
                        ctx.wf(),
                        spec_add_seq(views.skip(i as int), ctx@) == spec_add_seq(views, m0),
                        decreases_to!(*self => (*self)->Block_0),
                        *v == (*self)->Block_0,
                    decreases v@.len() - i,
                {
                    proof {
                        assert(decreases_to!(*v => v@));
                        assert(decreases_to!(v@ => v@[i as int]));
                        assert(stmt_node_v_wf(views[i as int]));
                    }
                    v[i].data.add_bindings(ctx);
                    proof {
                        assert(views.skip(i as int)[0] == views[i as int]);
                        assert(views.skip(i as int).drop_first() =~= views.skip(i + 1));
                    }
                    i = i + 1;
                }
                proof {
                    assert(views.skip(v@.len() as int) =~= Seq::<StmtNodeV>::empty());
                }
            },
            Statement::IgnoreOutput(n) => {
                n.data.add_bindings(ctx);
            },
            _ => {},
        }
    }
}

/// The spans and messages of the error leaves below an expression, in
/// left-to-right order.
pub open spec fn expr_errors(n: ExprNodeV) -> Seq<(Span, Seq<char>)>
    decreases n,
{
    match n.expr {
        ExprV::Error(msg) => seq![(n.span, msg)],
        ExprV::Matrix { cells, .. } => nodes_errors(cells),
        ExprV::Op(_, a, b) => expr_errors(*a) + expr_errors(*b),
        ExprV::Incr(a) => expr_errors(*a),
        ExprV::Decr(a) => expr_errors(*a),
        ExprV::Range(s, st, e2) => expr_errors(*s) + (match st {
            Some(x) => expr_errors(*x),
            None => Seq::empty(),
        }) + expr_errors(*e2),
        ExprV::Call(c, args) => expr_errors(*c) + nodes_errors(args),
        _ => Seq::empty(),
    }
}

/// The errors below a list of expressions, concatenated in order.
pub open spec fn nodes_errors(ss: Seq<ExprNodeV>) -> Seq<(Span, Seq<char>)>
    decreases ss,
{
    if ss.len() == 0 {
        Seq::empty()
    } else {
        expr_errors(ss[0]) + nodes_errors(ss.drop_first())
    }
}

/// The spans and messages of the error leaves below a statement.
pub open spec fn stmt_errors(n: StmtNodeV) -> Seq<(Span, Seq<char>)>
    decreases n,
{
    match n.stmt {
        StmtV::Error(msg) => seq![(n.span, msg)],
        StmtV::IgnoreOutput(inner) => stmt_errors(*inner),
        StmtV::Expr(e) => expr_errors(e),
        StmtV::Assignment(_, e) => expr_errors(e),
        StmtV::AugAssignment(_, _, e) => expr_errors(e),
        StmtV::Block(v) => stmts_errors(v),
        StmtV::EOI => Seq::empty(),
    }
}

/// The errors below a list of statements, concatenated in order.
pub open spec fn stmts_errors(ss: Seq<StmtNodeV>) -> Seq<(Span, Seq<char>)>
    decreases ss,
{
    if ss.len() == 0 {
        Seq::empty()
    } else {
        stmt_errors(ss[0]) + stmts_errors(ss.drop_first())
    }
}

/// The spans and messages an error list carries.
pub open spec fn err_view(s: Seq<Node<String>>) -> Seq<(Span, Seq<char>)> {
    s.map_values(|n: Node<String>| (n.span, n.data@))
}

/// `err_view` maps the list elementwise.
pub proof fn lemma_err_view(s: Seq<Node<String>>)
    ensures
        err_view(s).len() == s.len(),
        forall|i: int|
            0 <= i < s.len() ==> #[trigger] err_view(s)[i] == ((s[i].span, s[i].data@)),
{
}

impl<'a> Node<&'a Expr> {
    /// Collects every error leaf below this expression, with its span.
    pub fn get_errors(&self) -> (r: Vec<Node<String>>)
        ensures
            err_view(r@) == expr_errors(ExprNodeV { span: self.span, expr: expr_view(*self.data) }),
        decreases *self.data,
    {
        let mut out: Vec<Node<String>> = Vec::new();
        collect_expr_errors(self.span, self.data, &mut out);
        proof {
            lemma_err_view(out@);
            assert(err_view(out@) =~= Seq::<(Span, Seq<char>)>::empty() + err_view(out@));
        }
        out
    }
}

impl<'a> Node<&'a Statement> {
    /// Collects every error leaf below this statement, with its span.
    pub fn get_errors(&self) -> (r: Vec<Node<String>>)
        ensures
            err_view(r@) == stmt_errors(StmtNodeV { span: self.span, stmt: stmt_view(*self.data) }),
        decreases *self.data,
    {
        let mut out: Vec<Node<String>> = Vec::new();
        collect_stmt_errors(self.span, self.data, &mut out);
        proof {
            lemma_err_view(out@);
            assert(err_view(out@) =~= Seq::<(Span, Seq<char>)>::empty() + err_view(out@));
        }
        out
    }
}

/// Appends the errors below one expression to the accumulator.
fn collect_expr_errors(span: Span, e: &Expr, out: &mut Vec<Node<String>>)
    ensures
        err_view(final(out)@) == err_view(old(out)@) + expr_errors(
            ExprNodeV { span, expr: expr_view(*e) },
        ),
    decreases *e,
{
    let ghost nview = ExprNodeV { span, expr: expr_view(*e) };
    match e {
        Expr::Error(msg) => {
            let ghost before: Seq<Node<String>> = out@;
            out.push(Node { span, data: msg.clone() });
            proof {
                lemma_err_view(before);
                lemma_err_view(out@);
                assert(err_view(out@) =~= err_view(before) + expr_errors(nview));
            }
        },
        Expr::Matrix(m) => {
            proof {
                assert(*m == (*e)->Matrix_0);
                assert(decreases_to!(*e => (*e)->Matrix_0));
            }
            collect_nodes_errors(&m.data, out);
        },
        Expr::Op(_, a, b) => {
            collect_expr_errors(a.span, &a.data, out);
            collect_expr_errors(b.span, &b.data, out);
            proof {
                assert(err_view(out@) =~= err_view(old(out)@) + expr_errors(nview));
            }
        },
        Expr::Incr(a) => {
            collect_expr_errors(a.span, &a.data, out);
        },
        Expr::Decr(a) => {
            collect_expr_errors(a.span, &a.data, out);
        },
        Expr::Range(s, st, e2) => {
            collect_expr_errors(s.span, &s.data, out);
            match st {
                Some(x) => {
                    collect_expr_errors(x.span, &x.data, out);
                },
                None => {},
            }
            collect_expr_errors(e2.span, &e2.data, out);
            proof {
                assert(err_view(out@) =~= err_view(old(out)@) + expr_errors(nview));
            }
        },
        Expr::Call(c, args) => {
            proof {
                assert(*args == (*e)->Call_1);
                assert(decreases_to!(*e => (*e)->Call_1));
            }
            collect_expr_errors(c.span, &c.data, out);
            collect_nodes_errors(args, out);
            proof {
                assert(err_view(out@) =~= err_view(old(out)@) + expr_errors(nview));
            }
        },
        _ => {
            proof {
                assert(err_view(out@) =~= err_view(old(out)@) + expr_errors(nview));
            }
        },
    }
}

/// Appends the errors below a list of expressions to the accumulator.
fn collect_nodes_errors(v: &Vec<Node<Expr>>, out: &mut Vec<Node<String>>)
    ensures
        err_view(final(out)@) == err_view(old(out)@) + nodes_errors(expr_nodes_view(v@)),
    decreases *v,
{
    let ghost views: Seq<ExprNodeV> = expr_nodes_view(v@);
    proof {
        lemma_expr_nodes_view(v@);
    }
    let mut i: usize = 0;
    proof {
        assert(views.skip(0) =~= views);
        assert(err_view(out@) =~= err_view(old(out)@) + Seq::<(Span, Seq<char>)>::empty());
    }
    while i < v.len()
        invariant
            i <= v@.len(),
            views == expr_nodes_view(v@),
            views.len() == v@.len(),
            forall|j: int| 0 <= j < v@.len() ==> views[j] == expr_node_view(#[trigger] v@[j]),
            err_view(out@) + nodes_errors(views.skip(i as int)) == err_view(old(out)@)
                + nodes_errors(views),
        decreases v@.len() - i,
    {
        proof {
            assert(decreases_to!(*v => v@));
            assert(decreases_to!(v@ => v@[i as int]));
            assert(views.skip(i as int)[0] == views[i as int]);
            assert(views.skip(i as int).drop_first() =~= views.skip(i + 1));
        }
        let ghost before: Seq<Node<String>> = out@;
        collect_expr_errors(v[i].span, &v[i].data, out);
        proof {
            assert(err_view(before) + (expr_errors(views[i as int]) + nodes_errors(views.skip(
                i + 1,
            ))) =~= (err_view(before) + expr_errors(views[i as int])) + nodes_errors(views.skip(
                i + 1,
            )));
        }
        i = i + 1;
    }
    proof {
        assert(views.skip(v@.len() as int) =~= Seq::<ExprNodeV>::empty());
        assert(nodes_errors(views.skip(v@.len() as int)) =~= Seq::<(Span, Seq<char>)>::empty());
        assert(err_view(out@) =~= err_view(old(out)@) + nodes_errors(views));
    }
}

/// Appends the errors below one statement to the accumulator.
fn collect_stmt_errors(span: Span, s: &Statement, out: &mut Vec<Node<String>>)
    ensures
        err_view(final(out)@) == err_view(old(out)@) + stmt_errors(
            StmtNodeV { span, stmt: stmt_view(*s) },
        ),
    decreases *s,
{
    let ghost nview = StmtNodeV { span, stmt: stmt_view(*s) };
    match s {
        Statement::Error(msg) => {
            let ghost before: Seq<Node<String>> = out@;
            out.push(Node { span, data: msg.clone() });
            proof {
                lemma_err_view(before);
                lemma_err_view(out@);
                assert(err_view(out@) =~= err_view(before) + stmt_errors(nview));
            }
        },
        Statement::IgnoreOutput(n) => {
            collect_stmt_errors(n.span, &n.data, out);
        },
        Statement::Expr(e) => {
            collect_expr_errors(e.span, &e.data, out);
        },
        Statement::Assignment(_, e) => {
            collect_expr_errors(e.span, &e.data, out);
        },
        Statement::AugAssignment(_, _, e) => {
            collect_expr_errors(e.span, &e.data, out);
        },
        Statement::Block(v) => {
            proof {
                assert(*v == (*s)->Block_0);
                assert(decreases_to!(*s => (*s)->Block_0));
            }
            let ghost views: Seq<StmtNodeV> = stmt_nodes_view(v@);
            proof {
                lemma_stmt_nodes_view(v@);
            }
            let mut i: usize = 0;
            proof {
                assert(views.skip(0) =~= views);
                assert(err_view(out@) =~= err_view(old(out)@) + Seq::<(
                    Span,
                    Seq<char>,
                )>::empty());
            }
            while i < v.len()
                invariant
                    i <= v@.len(),
                    views == stmt_nodes_view(v@),
                    views.len() == v@.len(),
                    forall|j: int|
                        0 <= j < v@.len() ==> views[j] == stmt_node_view(#[trigger] v@[j]),
                    err_view(out@) + stmts_errors(views.skip(i as int)) == err_view(old(out)@)
                        + stmts_errors(views),
                    *v == (*s)->Block_0,
                    decreases_to!(*s => (*s)->Block_0),
                decreases v@.len() - i,
            {
                proof {
                    assert(decreases_to!(*v => v@));
                    assert(decreases_to!(v@ => v@[i as int]));
                    assert(views.skip(i as int)[0] == views[i as int]);
                    assert(views.skip(i as int).drop_first() =~= views.skip(i + 1));
                }
                let ghost before: Seq<Node<String>> = out@;
                collect_stmt_errors(v[i].span, &v[i].data, out);
                proof {
                    assert(err_view(before) + (stmt_errors(views[i as int]) + stmts_errors(
                        views.skip(i + 1),
                    )) =~= (err_view(before) + stmt_errors(views[i as int])) + stmts_errors(
                        views.skip(i + 1),
                    ));
                }
                i = i + 1;
            }
            proof {
                assert(views.skip(v@.len() as int) =~= Seq::<StmtNodeV>::empty());
                assert(stmts_errors(views.skip(v@.len() as int)) =~= Seq::<(
                    Span,
                    Seq<char>,
                )>::empty());
                assert(err_view(out@) =~= err_view(old(out)@) + stmts_errors(views));
            }
        },
        Statement::EOI => {
            proof {
                assert(err_view(out@) =~= err_view(old(out)@) + stmt_errors(nview));
            }
        },
    }
}

/// Every cell is a numeric literal.
pub open spec fn all_num_cells(cells: Seq<ExprNodeV>) -> bool {
    forall|j: int| 0 <= j < cells.len() ==> (#[trigger] cells[j]).expr is LitNumber
}

/// Every cell is a string literal.
pub open spec fn all_str_cells(cells: Seq<ExprNodeV>) -> bool {
    forall|j: int| 0 <= j < cells.len() ==> (#[trigger] cells[j]).expr is LitString
}

/// The numeric literal texts of a matrix expression, when every cell is
/// a numeric literal.
pub open spec fn spec_num_matrix(e: ExprV) -> Option<(int, Seq<Seq<char>>)> {
    match e {
        ExprV::Matrix { width, cells } => if all_num_cells(cells) {
            Some((width, Seq::new(cells.len(), |j: int| cells[j].expr->LitNumber_0)))
        } else {
            None
        },
        _ => None,
    }
}

/// The string literal texts of a string or matrix expression, when every
/// cell is a string literal; a lone string is a one-cell matrix.
pub open spec fn spec_str_matrix(e: ExprV) -> Option<(int, Seq<Seq<char>>)> {
    match e {
        ExprV::LitString(s) => Some((1, seq![s])),
        ExprV::Matrix { width, cells } => if all_str_cells(cells) {
            Some((width, Seq::new(cells.len(), |j: int| cells[j].expr->LitString_0)))
        } else {
            None
        },
        _ => None,
    }
}

/// The numeric matrix a statement evaluates to syntactically: its first
/// expression's numeric literal matrix, if it has one.
pub open spec fn spec_stmt_num_matrix(s: StmtV) -> Option<(int, Seq<Seq<char>>)>
    decreases s,
{
    match s {
        StmtV::Expr(e) => spec_num_matrix(e.expr),
        StmtV::Block(v) => if v.len() > 0 {
            spec_stmt_num_matrix(v[0].stmt)
        } else {
            None
        },
        StmtV::IgnoreOutput(n) => spec_stmt_num_matrix((*n).stmt),
        _ => None,
    }
}

/// The string matrix a statement evaluates to syntactically.
pub open spec fn spec_stmt_str_matrix(s: StmtV) -> Option<(int, Seq<Seq<char>>)>
    decreases s,
{
    match s {
        StmtV::Expr(e) => spec_str_matrix(e.expr),
        StmtV::Block(v) => if v.len() > 0 {
            spec_stmt_str_matrix(v[0].stmt)
        } else {
            None
        },
        StmtV::IgnoreOutput(n) => spec_stmt_str_matrix((*n).stmt),
        _ => None,
    }
}

impl Expr {
    /// The literal text of a numeric literal.
    pub fn get_value(&self) -> (r: Option<String>)
        ensures
            (r is Some) == expr_view(*self) is LitNumber,
            r is Some ==> r->0@ == expr_view(*self)->LitNumber_0,
    {
        match self {
            Expr::LitNumber(v) => Some(v.clone()),
            _ => None,
        }
    }

    /// The literal text of a string literal.
    pub(crate) fn get_str(&self) -> (r: Option<&String>)
        ensures
            (r is Some) == expr_view(*self) is LitString,
            r is Some ==> r->0@ == expr_view(*self)->LitString_0,
    {
        match self {
            Expr::LitString(s) => Some(s),
            _ => None,
        }
    }

    /// The matrix of numeric literal texts this expression denotes, when
    /// it is a matrix whose every cell is a numeric literal.
    pub(crate) fn get_matrix(&self) -> (r: Option<Matrix<String>>)
        ensures
            (r is Some) == (spec_num_matrix(expr_view(*self)) is Some),
            r is Some ==> ({
                let (w, ts) = spec_num_matrix(expr_view(*self))->0;
                r->0.width as int == w && r->0.data@.len() == ts.len() && forall|j: int|
                    0 <= j < ts.len() ==> (#[trigger] r->0.data@[j])@ == ts[j]
            }),
    {
        match self {
            Expr::Matrix(m) => {
                let ghost views: Seq<ExprNodeV> = expr_nodes_view(m.data@);
                proof {
                    lemma_expr_nodes_view(m.data@);
                }
                let mut out: Vec<String> = Vec::new();
                let mut i: usize = 0;
                while i < m.data.len()
                    invariant
                        i <= m.data@.len(),
                        views == expr_nodes_view(m.data@),
                        views.len() == m.data@.len(),
                        forall|j: int|
                            0 <= j < m.data@.len() ==> views[j] == expr_node_view(
                                #[trigger] m.data@[j],
                            ),
                        out@.len() == i,
                        expr_view(*self) is Matrix,
                        expr_view(*self)->Matrix_cells == views,
                        expr_view(*self)->Matrix_width == m.width as int,
                        forall|j: int| 0 <= j < i ==> (#[trigger] views[j]).expr is LitNumber,
                        forall|j: int|
                            0 <= j < i ==> (#[trigger] out@[j])@ == views[j].expr->LitNumber_0,
                    decreases m.data@.len() - i,
                {
                    match &m.data[i].data {
                        Expr::LitNumber(t) => {
                            out.push(t.clone());
                        },
                        _ => {
                            proof {
                                assert(!(views[i as int].expr is LitNumber));
                                assert(!all_num_cells(views));
                            }
                            return None;
                        },
                    }
                    i = i + 1;
                }
                proof {
                    assert(all_num_cells(views));
                }
                Some(Matrix { data: out, width: m.width })
            },
            _ => None,
        }
    }

    /// The matrix of string literal texts this expression denotes: a lone
    /// string literal counts as a one-cell matrix.
    pub(crate) fn get_str_matrix(&self) -> (r: Option<Matrix<String>>)
        ensures
            (r is Some) == (spec_str_matrix(expr_view(*self)) is Some),
            r is Some ==> ({
                let (w, ts) = spec_str_matrix(expr_view(*self))->0;
                r->0.width as int == w && r->0.data@.len() == ts.len() && forall|j: int|
                    0 <= j < ts.len() ==> (#[trigger] r->0.data@[j])@ == ts[j]
            }),
    {
        match self {
            Expr::LitString(s) => {
                let mut data: Vec<String> = Vec::new();
                data.push(s.clone());
                Some(Matrix { data, width: 1 })
            },
            Expr::Matrix(m) => {
                let ghost views: Seq<ExprNodeV> = expr_nodes_view(m.data@);
                proof {
                    lemma_expr_nodes_view(m.data@);
                }
                let mut out: Vec<String> = Vec::new();
                let mut i: usize = 0;
                while i < m.data.len()
                    invariant
                        i <= m.data@.len(),
                        views == expr_nodes_view(m.data@),
                        views.len() == m.data@.len(),
                        forall|j: int|
                            0 <= j < m.data@.len() ==> views[j] == expr_node_view(
                                #[trigger] m.data@[j],
                            ),
                        out@.len() == i,
                        expr_view(*self) is Matrix,
                        expr_view(*self)->Matrix_cells == views,
                        expr_view(*self)->Matrix_width == m.width as int,
                        forall|j: int| 0 <= j < i ==> (#[trigger] views[j]).expr is LitString,
                        forall|j: int|
                            0 <= j < i ==> (#[trigger] out@[j])@ == views[j].expr->LitString_0,
                    decreases m.data@.len() - i,
                {
                    match &m.data[i].data {
                        Expr::LitString(t) => {
                            out.push(t.clone());
                        },
                        _ => {
                            proof {
                                assert(!(views[i as int].expr is LitString));
                                assert(!all_str_cells(views));
                            }
                            return None;
                        },
                    }
                    i = i + 1;
                }
                proof {
                    assert(all_str_cells(views));
                }
                Some(Matrix { data: out, width: m.width })
            },
            _ => None,
        }
    }
}

impl Statement {
    /// The numeric matrix this statement's first expression denotes.
    pub fn get_matrix(&self) -> (r: Option<Matrix<String>>)
        requires
            stmt_v_wf(stmt_view(*self)),
        ensures
            (r is Some) == (spec_stmt_num_matrix(stmt_view(*self)) is Some),
            r is Some ==> ({
                let (w, ts) = spec_stmt_num_matrix(stmt_view(*self))->0;
                r->0.width as int == w && r->0.data@.len() == ts.len() && forall|j: int|
                    0 <= j < ts.len() ==> (#[trigger] r->0.data@[j])@ == ts[j]
            }),
        decreases *self,
    {
        match self {
            Statement::Expr(e) => e.data.get_matrix(),
            Statement::Block(v) => {
                proof {
                    assert(*v == (*self)->Block_0);
                    assert(decreases_to!(*self => (*self)->Block_0));
                    assert(decreases_to!(*v => v@));
                    assert(decreases_to!(v@ => v@[0]));
                    lemma_stmt_nodes_view(v@);
                }
                v[0].data.get_matrix()
            },
            Statement::IgnoreOutput(s) => s.data.get_matrix(),
            _ => None,
        }
    }

    /// The string matrix this statement's first expression denotes.
    pub fn get_str_matrix(&self) -> (r: Option<Matrix<String>>)
        requires
            stmt_v_wf(stmt_view(*self)),
        ensures
            (r is Some) == (spec_stmt_str_matrix(stmt_view(*self)) is Some),
            r is Some ==> ({
                let (w, ts) = spec_stmt_str_matrix(stmt_view(*self))->0;
                r->0.width as int == w && r->0.data@.len() == ts.len() && forall|j: int|
                    0 <= j < ts.len() ==> (#[trigger] r->0.data@[j])@ == ts[j]
            }),
        decreases *self,
    {
        match self {
            Statement::Expr(e) => e.data.get_str_matrix(),
            Statement::Block(v) => {
                proof {
                    assert(*v == (*self)->Block_0);
                    assert(decreases_to!(*self => (*self)->Block_0));
                    assert(decreases_to!(*v => v@));
                    assert(decreases_to!(v@ => v@[0]));
                    lemma_stmt_nodes_view(v@);
                }
                v[0].data.get_str_matrix()
            },
            Statement::IgnoreOutput(s) => s.data.get_str_matrix(),
            _ => None,
        }
    }
}

/// The ordered immediate children of an expression value.
pub open spec fn expr_children(e: ExprV) -> Seq<ExprNodeV> {
    match e {
        ExprV::Matrix { cells, .. } => cells,
        ExprV::Op(_, a, b) => seq![*a, *b],
        ExprV::Range(s, st, e2) => match st {
            Some(x) => seq![*s, *x, *e2],
            None => seq![*s, *e2],
        },
        ExprV::Call(c, args) => seq![*c] + args,
        ExprV::Decr(a) => seq![*a],
        ExprV::Incr(a) => seq![*a],
        _ => Seq::empty(),
    }
}

/// The ordered immediate children of a statement value.
pub open spec fn stmt_children(s: StmtV) -> Seq<StmtNodeV> {
    match s {
        StmtV::Block(v) => v,
        StmtV::IgnoreOutput(n) => seq![*n],
        _ => Seq::empty(),
    }
}

impl Tree for Expr {
    type Item = Node<Expr>;

    /// The ordered immediate children of this expression.
    fn children(&self) -> (r: Vec<Node<Expr>>)
        ensures
            r@.len() == expr_children(expr_view(*self)).len(),
            forall|i: int|
                0 <= i < r@.len() ==> expr_node_view(#[trigger] r@[i]) == expr_children(
                    expr_view(*self),
                )[i],
    {
        match self {
            Expr::Matrix(m) => {
                let r = clone_expr_nodes(&m.data);
                proof {
                    lemma_expr_nodes_view(m.data@);
                }
                r
            },
            Expr::Op(_, a, b) => {
                let mut v: Vec<Node<Expr>> = Vec::new();
                v.push(Node { span: a.span, data: clone_expr(&*a.data) });
                v.push(Node { span: b.span, data: clone_expr(&*b.data) });
                v
            },
            Expr::Range(s, st, e2) => {
                let mut v: Vec<Node<Expr>> = Vec::new();
                v.push(Node { span: s.span, data: clone_expr(&*s.data) });
                match st {
                    Some(x) => {
                        v.push(Node { span: x.span, data: clone_expr(&*x.data) });
                    },
                    None => {},
                }
                v.push(Node { span: e2.span, data: clone_expr(&*e2.data) });
                v
            },
            Expr::Call(c, args) => {
                let mut v: Vec<Node<Expr>> = Vec::new();
                v.push(Node { span: c.span, data: clone_expr(&*c.data) });
                let mut rest = clone_expr_nodes(args);
                let ghost head: Seq<Node<Expr>> = v@;
                let ghost rest_view: Seq<Node<Expr>> = rest@;
                v.append(&mut rest);
                proof {
                    lemma_expr_nodes_view(args@);
                    assert(v@ == head + rest_view);
                    assert forall|i: int| 0 <= i < v@.len() implies expr_node_view(
                        #[trigger] v@[i],
                    ) == expr_children(expr_view(*self))[i] by {
                        if i == 0 {
                            assert(v@[0] == head[0]);
                        } else {
                            assert(v@[i] == rest_view[i - 1]);
                            assert(expr_node_view(rest_view[i - 1]) == expr_node_view(
                                args@[i - 1],
                            ));
                            assert(expr_nodes_view(args@)[i - 1] == expr_node_view(args@[i - 1]));
                        }
                    }
                }
                v
            },
            Expr::Decr(a) => {
                let mut v: Vec<Node<Expr>> = Vec::new();
                v.push(Node { span: a.span, data: clone_expr(&*a.data) });
                v
            },
            Expr::Incr(a) => {
                let mut v: Vec<Node<Expr>> = Vec::new();
                v.push(Node { span: a.span, data: clone_expr(&*a.data) });
                v
            },
            _ => Vec::new(),
        }
    }
}

impl Tree for Statement {
    type Item = Node<Statement>;

    /// The ordered immediate children of this statement.
    fn children(&self) -> (r: Vec<Node<Statement>>)
        ensures
            r@.len() == stmt_children(stmt_view(*self)).len(),
            forall|i: int|
                0 <= i < r@.len() ==> stmt_node_view(#[trigger] r@[i]) == stmt_children(
                    stmt_view(*self),
                )[i],
    {
        match self {
            Statement::Block(v) => {
                let r = clone_stmt_nodes(v);
                proof {
                    lemma_stmt_nodes_view(v@);
                }
                r
            },
            Statement::IgnoreOutput(n) => {
                let mut v: Vec<Node<Statement>> = Vec::new();
                v.push(Node { span: n.span, data: clone_stmt(&*n.data) });
                v
            },
            _ => Vec::new(),
        }
    }
}

impl Clone for Expr {
    fn clone(&self) -> (r: Self)
        ensures
            expr_view(r) == expr_view(*self),
    {
        clone_expr(self)
    }
}

impl Clone for Statement {
    fn clone(&self) -> (r: Self)
        ensures
            stmt_view(r) == stmt_view(*self),
    {
        clone_stmt(self)
    }
}

} // verus!
