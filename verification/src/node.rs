//! Source positions, spans, and the span-tagged tree node.
//!
//! A `Node<T>` is the sole carrier of position information in the syntax
//! tree: it pairs one payload with the half-open source range the payload
//! was read from.

use vstd::prelude::*;

verus! {

/// A 1-based source position: line number and column.
#[derive(Copy, Clone, Debug, PartialEq, Eq, Structural)]
pub struct Position {
    pub line: usize,
    pub col: usize,
}

/// A position is meaningful when both coordinates are 1-based.
pub open spec fn pos_wf(p: Position) -> bool {
    p.line >= 1 && p.col >= 1
}

/// Ordering of positions: by line, and by column within a line.
pub open spec fn pos_le(a: Position, b: Position) -> bool {
    a.line < b.line || (a.line == b.line && a.col <= b.col)
}

/// Strict ordering of positions.
pub open spec fn pos_lt(a: Position, b: Position) -> bool {
    a.line < b.line || (a.line == b.line && a.col < b.col)
}

/// The earlier of two positions.
pub open spec fn pos_min(a: Position, b: Position) -> Position {
    if pos_le(a, b) {
        a
    } else {
        b
    }
}

/// The later of two positions.
pub open spec fn pos_max(a: Position, b: Position) -> Position {
    if pos_le(a, b) {
        b
    } else {
        a
    }
}

/// Decides `pos_le` executably.
pub fn pos_le_exec(a: Position, b: Position) -> (r: bool)
    ensures
        r == pos_le(a, b),
{
    a.line < b.line || (a.line == b.line && a.col <= b.col)
}

/// Decides `pos_lt` executably.
pub fn pos_lt_exec(a: Position, b: Position) -> (r: bool)
    ensures
        r == pos_lt(a, b),
{
    a.line < b.line || (a.line == b.line && a.col < b.col)
}

/// A half-open source range `[start, end)` over positions.
#[derive(Copy, Clone, Debug, PartialEq, Eq, Structural)]
pub struct Span {
    pub start: Position,
    pub end: Position,
}

/// A span is well formed when its bounds are 1-based and ordered.
pub open spec fn span_wf(s: Span) -> bool {
    pos_wf(s.start) && pos_wf(s.end) && pos_le(s.start, s.end)
}

/// Membership of a position in a half-open span.
pub open spec fn span_contains(s: Span, p: Position) -> bool {
    pos_le(s.start, p) && pos_lt(p, s.end)
}

impl Span {
    /// Whether the position lies inside this half-open span.
    pub fn contains(&self, p: Position) -> (r: bool)
        ensures
            r == span_contains(*self, p),
    {
        pos_le_exec(self.start, p) && pos_lt_exec(p, self.end)
    }
}

/// A uniform capability over the two syntax-tree payload kinds: a node can
/// hand out its ordered list of immediate children, so whole-tree walks are
/// written once over either payload.
pub trait Tree {
    type Item;

    fn children(&self) -> Vec<Self::Item>;
}

/// One payload together with the source span it was read from.
#[derive(Debug, PartialEq)]
pub struct Node<T> {
    pub span: Span,
    pub data: T,
}

impl<T: Clone> Clone for Node<T> {
    fn clone(&self) -> (r: Self)
        ensures
            r.span == self.span,
            vstd::pervasive::cloned::<T>(self.data, r.data),
    {
        Node { span: self.span, data: self.data.clone() }
    }
}

impl<T> Node<T> {
    /// The source range of this node.
    pub fn span(&self) -> (r: Span)
        ensures
            r == self.span,
    {
        self.span
    }

    /// Applies a function to the payload, keeping the span.
    pub fn map<U, F: FnOnce(T) -> U>(self, f: F) -> (r: Node<U>)
        requires
            call_requires(f, (self.data,)),
        ensures
            r.span == self.span,
            call_ensures(f, (self.data,), r.data),
    {
        Node { span: self.span, data: f(self.data) }
    }

    /// Borrows the payload, keeping the span.
    pub fn as_ref(&self) -> (r: Node<&T>)
        ensures
            r.span == self.span,
            r.data == &self.data,
    {
        Node { span: self.span, data: &self.data }
    }
}

impl<T> Node<Box<T>> {
    /// Borrows through the box, keeping the span.
    pub fn as_deref(&self) -> (r: Node<&T>)
        ensures
            r.span == self.span,
            r.data == &*self.data,
    {
        Node { span: self.span, data: &*self.data }
    }
}

impl<T, E> Node<Result<T, E>> {
    /// Applies a function to the success payload, keeping the span.
    pub fn map_data<U, F: FnOnce(T) -> U>(self, f: F) -> (r: Node<Result<U, E>>)
        requires
            self.data is Ok ==> call_requires(f, (self.data->Ok_0,)),
        ensures
            r.span == self.span,
            self.data is Ok ==> r.data is Ok && call_ensures(
                f,
                (self.data->Ok_0,),
                r.data->Ok_0,
            ),
            self.data is Err ==> r.data == Result::<U, E>::Err(self.data->Err_0),
    {
        let Node { span, data } = self;
        match data {
            Ok(v) => Node { span, data: Ok(f(v)) },
            Err(e) => Node { span, data: Err(e) },
        }
    }

    /// Chains a fallible function over the success payload, keeping the span.
    pub fn and_then<U, F: FnOnce(T) -> Result<U, E>>(self, f: F) -> (r: Node<Result<U, E>>)
        requires
            self.data is Ok ==> call_requires(f, (self.data->Ok_0,)),
        ensures
            r.span == self.span,
            self.data is Ok ==> call_ensures(f, (self.data->Ok_0,), r.data),
            self.data is Err ==> r.data == Result::<U, E>::Err(self.data->Err_0),
    {
        let Node { span, data } = self;
        match data {
            Ok(v) => Node { span, data: f(v) },
            Err(e) => Node { span, data: Err(e) },
        }
    }

    /// Moves the result outward: a node of a result becomes a result of nodes.
    pub fn transpose(self) -> (r: Result<Node<T>, Node<E>>)
        ensures
            self.data is Ok ==> r == Result::<Node<T>, Node<E>>::Ok(
                Node { span: self.span, data: self.data->Ok_0 },
            ),
            self.data is Err ==> r == Result::<Node<T>, Node<E>>::Err(
                Node { span: self.span, data: self.data->Err_0 },
            ),
    {
        let Node { span, data } = self;
        match data {
            Ok(v) => Ok(Node { span, data: v }),
            Err(e) => Err(Node { span, data: e }),
        }
    }
}

impl<T> Node<Option<T>> {
    /// Applies a function to the payload if present; an absent payload
    /// becomes an end-of-file error message.
    pub fn map_data<U, F: FnOnce(T) -> U>(self, f: F) -> (r: Node<Result<U, String>>)
        requires
            self.data is Some ==> call_requires(f, (self.data->0,)),
        ensures
            r.span == self.span,
            self.data is Some ==> r.data is Ok && call_ensures(f, (self.data->0,), r.data->Ok_0),
            self.data is None ==> r.data is Err && r.data->Err_0@ == "Unexpected end of file"@,
    {
        let Node { span, data } = self;
        match data {
            Some(v) => Node { span, data: Ok(f(v)) },
            None => Node { span, data: Err(String::from_str("Unexpected end of file")) },
        }
    }

    /// Chains an optional function over the payload, keeping the span.
    pub fn and_then<U, F: FnOnce(T) -> Option<U>>(self, f: F) -> (r: Node<Option<U>>)
        requires
            self.data is Some ==> call_requires(f, (self.data->0,)),
        ensures
            r.span == self.span,
            self.data is Some ==> call_ensures(f, (self.data->0,), r.data),
            self.data is None ==> r.data is None,
    {
        let Node { span, data } = self;
        match data {
            Some(v) => Node { span, data: f(v) },
            None => Node { span, data: None },
        }
    }

    /// Moves the option outward: a node of an option becomes an option of a node.
    pub fn transpose(self) -> (r: Option<Node<T>>)
        ensures
            self.data is Some ==> r == Some(Node { span: self.span, data: self.data->0 }),
            self.data is None ==> r is None,
    {
        let Node { span, data } = self;
        match data {
            Some(v) => Some(Node { span, data: v }),
            None => None,
        }
    }
}

/// The most specific expression node whose span contains the position:
/// the first child whose span holds it, searched recursively, or the
/// node itself when no child's span does.
pub open spec fn spec_at_pos_expr(n: crate::ast::ExprNodeV, pos: Position) -> Option<
    crate::ast::ExprNodeV,
>
    decreases n,
{
    if !span_contains(n.span, pos) {
        None
    } else {
        let inner = match n.expr {
            crate::ast::ExprV::Matrix { cells, .. } => spec_first_hit(cells, pos),
            crate::ast::ExprV::Op(_, a, b) => spec_or_else(
                spec_at_pos_expr(*a, pos),
                spec_at_pos_expr(*b, pos),
            ),
            crate::ast::ExprV::Call(c, args) => spec_or_else(
                spec_at_pos_expr(*c, pos),
                spec_first_hit(args, pos),
            ),
            crate::ast::ExprV::Decr(a) => spec_at_pos_expr(*a, pos),
            crate::ast::ExprV::Incr(a) => spec_at_pos_expr(*a, pos),
            crate::ast::ExprV::Range(s, st, e2) => spec_or_else(
                spec_at_pos_expr(*s, pos),
                spec_or_else(
                    match st {
                        Some(x) => spec_at_pos_expr(*x, pos),
                        None => None,
                    },
                    spec_at_pos_expr(*e2, pos),
                ),
            ),
            _ => None,
        };
        match inner {
            Some(x) => Some(x),
            None => Some(n),
        }
    }
}

/// The first of two optional results that is present.
pub open spec fn spec_or_else(
    a: Option<crate::ast::ExprNodeV>,
    b: Option<crate::ast::ExprNodeV>,
) -> Option<crate::ast::ExprNodeV> {
    match a {
        Some(x) => Some(x),
        None => b,
    }
}

/// The first child, in order, below which the position finds a node.
pub open spec fn spec_first_hit(cells: Seq<crate::ast::ExprNodeV>, pos: Position) -> Option<
    crate::ast::ExprNodeV,
>
    decreases cells,
{
    if cells.len() == 0 {
        None
    } else {
        match spec_at_pos_expr(cells[0], pos) {
            Some(x) => Some(x),
            None => spec_first_hit(cells.drop_first(), pos),
        }
    }
}

/// The most specific expression node a position finds below a statement;
/// statements themselves are never returned.
pub open spec fn spec_at_pos_stmt(n: crate::ast::StmtNodeV, pos: Position) -> Option<
    crate::ast::ExprNodeV,
>
    decreases n,
{
    if !span_contains(n.span, pos) {
        None
    } else {
        match n.stmt {
            crate::ast::StmtV::Expr(e) => spec_at_pos_expr(e, pos),
            crate::ast::StmtV::Assignment(_, e) => spec_at_pos_expr(e, pos),
            crate::ast::StmtV::AugAssignment(_, _, e) => spec_at_pos_expr(e, pos),
            crate::ast::StmtV::Block(v) => spec_first_hit_stmt(v, pos),
            crate::ast::StmtV::IgnoreOutput(s) => spec_at_pos_stmt(*s, pos),
            _ => None,
        }
    }
}

/// The first statement, in order, below which the position finds a node.
pub open spec fn spec_first_hit_stmt(ss: Seq<crate::ast::StmtNodeV>, pos: Position) -> Option<
    crate::ast::ExprNodeV,
>
    decreases ss,
{
    if ss.len() == 0 {
        None
    } else {
        match spec_at_pos_stmt(ss[0], pos) {
            Some(x) => Some(x),
            None => spec_first_hit_stmt(ss.drop_first(), pos),
        }
    }
}

/// What an executable search result means in terms of the search's value.
pub open spec fn at_pos_matches(
    found: Option<crate::ast::ExprNodeV>,
    r: Option<Node<crate::ast::Expr>>,
) -> bool {
    match r {
        Some(nd) => found == Some(crate::ast::expr_node_view(nd)),
        None => found is None,
    }
}

impl<'a> Node<&'a crate::ast::Expr> {
    /// Finds the most specific expression node containing the position.
    pub fn at_pos(&self, pos: Position) -> (r: Option<Node<crate::ast::Expr>>)
        ensures
            at_pos_matches(
                spec_at_pos_expr(
                    crate::ast::ExprNodeV { span: self.span, expr: crate::ast::expr_view(*self.data) },
                    pos,
                ),
                r,
            ),
        decreases *self.data,
    {
        at_pos_expr(self.span, self.data, pos)
    }
}

/// Finds the most specific expression node containing the position.
fn at_pos_expr(
    span: Span,
    e: &crate::ast::Expr,
    pos: Position,
) -> (r: Option<Node<crate::ast::Expr>>)
    ensures
        at_pos_matches(
            spec_at_pos_expr(
                crate::ast::ExprNodeV { span, expr: crate::ast::expr_view(*e) },
                pos,
            ),
            r,
        ),
    decreases *e,
{
    let here = Span { start: span.start, end: span.end };
    if !here.contains(pos) {
        return None;
    }
    let inner: Option<Node<crate::ast::Expr>> = match e {
        crate::ast::Expr::Matrix(m) => {
            proof {
                assert(*m == (*e)->Matrix_0);
                assert(decreases_to!(*e => (*e)->Matrix_0));
            }
            at_pos_in_nodes(&m.data, pos)
        },
        crate::ast::Expr::Op(_, a, b) => {
            let first = at_pos_expr(a.span, &a.data, pos);
            match first {
                Some(x) => Some(x),
                None => at_pos_expr(b.span, &b.data, pos),
            }
        },
        crate::ast::Expr::Call(c, args) => {
            proof {
                assert(*args == (*e)->Call_1);
                assert(decreases_to!(*e => (*e)->Call_1));
            }
            let first = at_pos_expr(c.span, &c.data, pos);
            match first {
                Some(x) => Some(x),
                None => at_pos_in_nodes(args, pos),
            }
        },
        crate::ast::Expr::Decr(a) => at_pos_expr(a.span, &a.data, pos),
        crate::ast::Expr::Incr(a) => at_pos_expr(a.span, &a.data, pos),
        crate::ast::Expr::Range(s, st, e2) => {
            let first = at_pos_expr(s.span, &s.data, pos);
            match first {
                Some(x) => Some(x),
                None => {
                    let second = match st {
                        Some(x) => at_pos_expr(x.span, &x.data, pos),
                        None => None,
                    };
                    match second {
                        Some(x) => Some(x),
                        None => at_pos_expr(e2.span, &e2.data, pos),
                    }
                },
            }
        },
        _ => None,
    };
    match inner {
        Some(x) => Some(x),
        None => Some(Node { span, data: crate::ast::clone_expr(e) }),
    }
}

/// Finds the first child, in order, below which the position lands.
fn at_pos_in_nodes(v: &Vec<Node<crate::ast::Expr>>, pos: Position) -> (r: Option<
    Node<crate::ast::Expr>,
>)
    ensures
        at_pos_matches(spec_first_hit(crate::ast::expr_nodes_view(v@), pos), r),
    decreases *v,
{
    let ghost views: Seq<crate::ast::ExprNodeV> = crate::ast::expr_nodes_view(v@);
    proof {
        crate::ast::lemma_expr_nodes_view(v@);
    }
    let mut i: usize = 0;
    proof {
        assert(views.skip(0) =~= views);
    }
    while i < v.len()
        invariant
            i <= v@.len(),
            views == crate::ast::expr_nodes_view(v@),
            views.len() == v@.len(),
            forall|j: int|
                0 <= j < v@.len() ==> views[j] == crate::ast::expr_node_view(#[trigger] v@[j]),
            spec_first_hit(views.skip(i as int), pos) == spec_first_hit(views, pos),
        decreases v@.len() - i,
    {
        proof {
            assert(decreases_to!(*v => v@));
            assert(decreases_to!(v@ => v@[i as int]));
            assert(views.skip(i as int)[0] == views[i as int]);
            assert(views.skip(i as int).drop_first() =~= views.skip(i + 1));
        }
        let found = at_pos_expr(v[i].span, &v[i].data, pos);
        match found {
            Some(x) => {
                return Some(x);
            },
            None => {},
        }
        i = i + 1;
    }
    proof {
        assert(views.skip(v@.len() as int) =~= Seq::<crate::ast::ExprNodeV>::empty());
    }
    None
}

impl<'a> Node<&'a crate::ast::Statement> {
    /// Finds the most specific expression node containing the position.
    pub fn at_pos(&self, pos: Position) -> (r: Option<Node<crate::ast::Expr>>)
        ensures
            at_pos_matches(
                spec_at_pos_stmt(
                    crate::ast::StmtNodeV {
                        span: self.span,
                        stmt: crate::ast::stmt_view(*self.data),
                    },
                    pos,
                ),
                r,
            ),
        decreases *self.data,
    {
        at_pos_stmt(self.span, self.data, pos)
    }
}

/// Finds the most specific expression node containing the position,
/// searching below a statement.
fn at_pos_stmt(
    span: Span,
    s: &crate::ast::Statement,
    pos: Position,
) -> (r: Option<Node<crate::ast::Expr>>)
    ensures
        at_pos_matches(
            spec_at_pos_stmt(
                crate::ast::StmtNodeV { span, stmt: crate::ast::stmt_view(*s) },
                pos,
            ),
            r,
        ),
    decreases *s,
{
    let here = Span { start: span.start, end: span.end };
    if !here.contains(pos) {
        return None;
    }
    match s {
        crate::ast::Statement::Expr(e) => at_pos_expr(e.span, &e.data, pos),
        crate::ast::Statement::Assignment(_, e) => at_pos_expr(e.span, &e.data, pos),
        crate::ast::Statement::AugAssignment(_, _, e) => at_pos_expr(e.span, &e.data, pos),
        crate::ast::Statement::Block(v) => {
            proof {
                assert(*v == (*s)->Block_0);
                assert(decreases_to!(*s => (*s)->Block_0));
            }
            at_pos_in_stmt_nodes(v, pos)
        },
        crate::ast::Statement::IgnoreOutput(n) => at_pos_stmt(n.span, &n.data, pos),
        _ => None,
    }
}

/// Finds the first statement, in order, below which the position lands.
fn at_pos_in_stmt_nodes(v: &Vec<Node<crate::ast::Statement>>, pos: Position) -> (r: Option<
    Node<crate::ast::Expr>,
>)
    ensures
        at_pos_matches(spec_first_hit_stmt(crate::ast::stmt_nodes_view(v@), pos), r),
    decreases *v,
{
    let ghost views: Seq<crate::ast::StmtNodeV> = crate::ast::stmt_nodes_view(v@);
    proof {
        crate::ast::lemma_stmt_nodes_view(v@);
    }
    let mut i: usize = 0;
    proof {
        assert(views.skip(0) =~= views);
    }
    while i < v.len()
        invariant
            i <= v@.len(),
            views == crate::ast::stmt_nodes_view(v@),
            views.len() == v@.len(),
            forall|j: int|
                0 <= j < v@.len() ==> views[j] == crate::ast::stmt_node_view(#[trigger] v@[j]),
            spec_first_hit_stmt(views.skip(i as int), pos) == spec_first_hit_stmt(views, pos),
        decreases v@.len() - i,
    {
        proof {
            assert(decreases_to!(*v => v@));
            assert(decreases_to!(v@ => v@[i as int]));
            assert(views.skip(i as int)[0] == views[i as int]);
            assert(views.skip(i as int).drop_first() =~= views.skip(i + 1));
        }
        let found = at_pos_stmt(v[i].span, &v[i].data, pos);
        match found {
            Some(x) => {
                return Some(x);
            },
            None => {},
        }
        i = i + 1;
    }
    proof {
        assert(views.skip(v@.len() as int) =~= Seq::<crate::ast::StmtNodeV>::empty());
    }
    None
}

/// A node found below a well-formed expression is well formed.
pub proof fn lemma_at_pos_expr_wf(n: crate::ast::ExprNodeV, pos: Position)
    requires
        crate::ast::expr_node_v_wf(n),
    ensures
        spec_at_pos_expr(n, pos) is Some ==> crate::ast::expr_node_v_wf(
            spec_at_pos_expr(n, pos)->0,
        ),
    decreases n,
{
    if span_contains(n.span, pos) {
        match n.expr {
            crate::ast::ExprV::Matrix { cells, .. } => {
                lemma_first_hit_wf(cells, pos);
            },
            crate::ast::ExprV::Op(_, a, b) => {
                lemma_at_pos_expr_wf(*a, pos);
                lemma_at_pos_expr_wf(*b, pos);
            },
            crate::ast::ExprV::Call(c, args) => {
                lemma_at_pos_expr_wf(*c, pos);
                lemma_first_hit_wf(args, pos);
            },
            crate::ast::ExprV::Decr(a) => {
                lemma_at_pos_expr_wf(*a, pos);
            },
            crate::ast::ExprV::Incr(a) => {
                lemma_at_pos_expr_wf(*a, pos);
            },
            crate::ast::ExprV::Range(s, st, e2) => {
                lemma_at_pos_expr_wf(*s, pos);
                match st {
                    Some(x) => {
                        lemma_at_pos_expr_wf(*x, pos);
                    },
                    None => {},
                }
                lemma_at_pos_expr_wf(*e2, pos);
            },
            _ => {},
        }
    }
}

/// A node found below a list of well-formed expressions is well formed.
pub proof fn lemma_first_hit_wf(cells: Seq<crate::ast::ExprNodeV>, pos: Position)
    requires
        forall|i: int| 0 <= i < cells.len() ==> crate::ast::expr_node_v_wf(#[trigger] cells[i]),
    ensures
        spec_first_hit(cells, pos) is Some ==> crate::ast::expr_node_v_wf(
            spec_first_hit(cells, pos)->0,
        ),
    decreases cells,
{
    if cells.len() > 0 {
        lemma_at_pos_expr_wf(cells[0], pos);
        assert forall|i: int| 0 <= i < cells.drop_first().len() implies crate::ast::expr_node_v_wf(
            #[trigger] cells.drop_first()[i],
        ) by {
            assert(cells.drop_first()[i] == cells[i + 1]);
        }
        lemma_first_hit_wf(cells.drop_first(), pos);
    }
}

/// A node found below a well-formed statement is well formed.
pub proof fn lemma_at_pos_stmt_wf(n: crate::ast::StmtNodeV, pos: Position)
    requires
        crate::ast::stmt_node_v_wf(n),
    ensures
        spec_at_pos_stmt(n, pos) is Some ==> crate::ast::expr_node_v_wf(
            spec_at_pos_stmt(n, pos)->0,
        ),
    decreases n,
{
    if span_contains(n.span, pos) {
        match n.stmt {
            crate::ast::StmtV::Expr(e) => {
                lemma_at_pos_expr_wf(e, pos);
            },
            crate::ast::StmtV::Assignment(_, e) => {
                lemma_at_pos_expr_wf(e, pos);
            },
            crate::ast::StmtV::AugAssignment(_, _, e) => {
                lemma_at_pos_expr_wf(e, pos);
            },
            crate::ast::StmtV::Block(v) => {
                lemma_first_hit_stmt_wf(v, pos);
            },
            crate::ast::StmtV::IgnoreOutput(s) => {
                lemma_at_pos_stmt_wf(*s, pos);
            },
            _ => {},
        }
    }
}

/// A node found below a list of well-formed statements is well formed.
pub proof fn lemma_first_hit_stmt_wf(ss: Seq<crate::ast::StmtNodeV>, pos: Position)
    requires
        forall|i: int| 0 <= i < ss.len() ==> crate::ast::stmt_node_v_wf(#[trigger] ss[i]),
    ensures
        spec_first_hit_stmt(ss, pos) is Some ==> crate::ast::expr_node_v_wf(
            spec_first_hit_stmt(ss, pos)->0,
        ),
    decreases ss,
{
    if ss.len() > 0 {
        lemma_at_pos_stmt_wf(ss[0], pos);
        assert forall|i: int| 0 <= i < ss.drop_first().len() implies crate::ast::stmt_node_v_wf(
            #[trigger] ss.drop_first()[i],
        ) by {
            assert(ss.drop_first()[i] == ss[i + 1]);
        }
        lemma_first_hit_stmt_wf(ss.drop_first(), pos);
    }
}

impl Position {
    /// The internal 1-based position for a 0-based protocol position.
    pub fn from_protocol(p: crate::text::DocPosition) -> (r: Position)
        requires
            p.line + 1 <= usize::MAX,
            p.character + 1 <= usize::MAX,
        ensures
            r.line as int == p.line + 1,
            r.col as int == p.character + 1,
            pos_wf(r),
    {
        Position { line: (p.line + 1) as usize, col: (p.character + 1) as usize }
    }
}

impl Node<crate::ast::Statement> {
    /// Finds the most specific expression node containing the position.
    pub fn at_pos(&self, pos: Position) -> (r: Option<Node<crate::ast::Expr>>)
        ensures
            at_pos_matches(
                spec_at_pos_stmt(crate::ast::stmt_node_view(*self), pos),
                r,
            ),
    {
        at_pos_stmt(self.span, &self.data, pos)
    }
}

} // verus!
