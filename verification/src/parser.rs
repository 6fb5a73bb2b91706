//! The grammar-driven parser: raw text in, a span-tracked tree out.
//!
//! Parsing never fails the whole request: malformed input turns into
//! `Error` leaves with a message and a best-effort span, and the result
//! is always a block whose last statement is the end marker.
//!
//! Binary operators are parsed by precedence climbing, lowest first:
//! addition and subtraction, then multiplication and division, then
//! exponentiation, then access; the first two levels associate left,
//! the last two right. Matrix literals are read row by row; rows of
//! unequal width yield a single error leaf naming the widths seen.

use crate::ast::{
    expr_node_v_wf, expr_node_view, expr_nodes_view, expr_view, lemma_expr_nodes_view,
    lemma_stmt_nodes_view, lemma_stmt_nodes_view_push, stmt_node_v_wf, stmt_node_view,
    stmt_nodes_view, stmt_view, Expr, Op, Statement,
};
use crate::node::{pos_le, span_wf, Node, Position, Span};
use crate::text::chars_of;
use crate::typesystem::usize_to_string;
use crate::value::{concat_rows, lemma_concat_rows_len, Matrix};
use vstd::prelude::*;

verus! {

/// What one token is.
#[derive(Copy, Clone, Debug, PartialEq, Eq, Structural)]
pub enum TokKind {
    Number,
    StrLit,
    Ident,
    Plus,
    Minus,
    Star,
    Slash,
    Caret,
    Dot,
    Colon,
    Comma,
    Semi,
    Newline,
    Eq,
    PlusEq,
    MinusEq,
    StarEq,
    SlashEq,
    CaretEq,
    PlusPlus,
    MinusMinus,
    LParen,
    RParen,
    LBracket,
    RBracket,
    Bad,
}

/// One token: its kind, its text, and where it was read.
#[derive(Debug)]
pub(crate) struct Token {
    pub kind: TokKind,
    pub text: String,
    pub span: Span,
}

/// Every token's span is ordered and 1-based.
pub(crate) open spec fn toks_wf(s: Seq<Token>) -> bool {
    forall|i: int| 0 <= i < s.len() ==> span_wf((#[trigger] s[i]).span)
}

/// The mathematical value of a token.
#[verifier::ext_equal]
pub struct TokenV {
    pub kind: TokKind,
    pub text: Seq<char>,
    pub span: Span,
}

/// The value of a token.
pub(crate) open spec fn token_view(t: Token) -> TokenV {
    TokenV { kind: t.kind, text: t.text@, span: t.span }
}

/// The values of a token list.
pub(crate) open spec fn toks_view(s: Seq<Token>) -> Seq<TokenV>
    decreases s.len(),
{
    if s.len() == 0 {
        Seq::empty()
    } else {
        seq![token_view(s[0])] + toks_view(s.drop_first())
    }
}

/// `toks_view` maps the list elementwise.
pub(crate) proof fn lemma_toks_view(s: Seq<Token>)
    ensures
        toks_view(s).len() == s.len(),
        forall|i: int| 0 <= i < s.len() ==> toks_view(s)[i] == token_view(#[trigger] s[i]),
    decreases s.len(),
{
    if s.len() > 0 {
        lemma_toks_view(s.drop_first());
        assert forall|i: int| 0 <= i < s.len() implies toks_view(s)[i] == token_view(
            #[trigger] s[i],
        ) by {
            if i > 0 {
                assert(s.drop_first()[i - 1] == s[i]);
            }
        }
    }
}

/// Appending a token appends its value.
pub(crate) proof fn lemma_toks_view_push(s: Seq<Token>, t: Token)
    ensures
        toks_view(s.push(t)) == toks_view(s) + seq![token_view(t)],
{
    lemma_toks_view(s);
    lemma_toks_view(s.push(t));
    assert forall|i: int| 0 <= i < s.push(t).len() implies toks_view(s.push(t))[i] == (toks_view(
        s,
    ) + seq![token_view(t)])[i] by {
        if i < s.len() {
            assert(s.push(t)[i] == s[i]);
        } else {
            assert(s.push(t)[i] == t);
        }
    }
    assert(toks_view(s.push(t)) =~= toks_view(s) + seq![token_view(t)]);
}

/// A position bounded into `(p, n]`: the given one when it already moved
/// forward and stayed within the list, the next one otherwise. The
/// executable parser always moves forward, so there this is the given
/// position itself; the bound makes the specification recursion visibly
/// terminating.
pub open spec fn step_to(p: int, q: int, n: int) -> int {
    if q <= p {
        if p + 1 <= n {
            p + 1
        } else {
            n
        }
    } else if q <= n {
        q
    } else {
        n
    }
}

/// Whether the character is a decimal digit.
pub open spec fn spec_is_digit(c: char) -> bool {
    '0' <= c && c <= '9'
}

/// Whether the character can start an identifier.
pub open spec fn spec_is_ident_start(c: char) -> bool {
    ('a' <= c && c <= 'z') || ('A' <= c && c <= 'Z') || c == '_'
}

/// Whether the character can continue an identifier.
pub open spec fn spec_is_ident_char(c: char) -> bool {
    spec_is_ident_start(c) || spec_is_digit(c)
}

/// The position right after a run of digits starting at `i`.
pub open spec fn spec_scan_digits(s: Seq<char>, i: int) -> int
    decreases s.len() - i,
{
    if 0 <= i && i < s.len() && spec_is_digit(s[i]) {
        spec_scan_digits(s, i + 1)
    } else {
        i
    }
}

/// The position right after a run of identifier characters starting at `i`.
pub open spec fn spec_scan_ident(s: Seq<char>, i: int) -> int
    decreases s.len() - i,
{
    if 0 <= i && i < s.len() && spec_is_ident_char(s[i]) {
        spec_scan_ident(s, i + 1)
    } else {
        i
    }
}

/// Scans a string literal's inside from `i`: the position after the
/// scan, the unescaped text, and whether a closing quote was found
/// before a line break or the end of the input.
pub open spec fn spec_scan_string(s: Seq<char>, i: int) -> (int, Seq<char>, bool)
    decreases s.len() - i,
{
    if !(0 <= i && i < s.len()) || s[i] == '\n' {
        (i, Seq::empty(), false)
    } else if s[i] == '"' {
        (i + 1, Seq::empty(), true)
    } else if s[i] == '\\' && i + 1 < s.len() && s[i + 1] == '"' {
        let r = spec_scan_string(s, i + 2);
        (r.0, seq!['"'] + r.1, r.2)
    } else {
        let r = spec_scan_string(s, i + 1);
        (r.0, seq![s[i]] + r.1, r.2)
    }
}

/// The kind and width of a symbol token starting with `c`.
pub open spec fn spec_symbol(c: char, next: Option<char>) -> (TokKind, int) {
    if c == '+' {
        if next == Some('+') {
            (TokKind::PlusPlus, 2)
        } else if next == Some('=') {
            (TokKind::PlusEq, 2)
        } else {
            (TokKind::Plus, 1)
        }
    } else if c == '-' {
        if next == Some('-') {
            (TokKind::MinusMinus, 2)
        } else if next == Some('=') {
            (TokKind::MinusEq, 2)
        } else {
            (TokKind::Minus, 1)
        }
    } else if c == '*' {
        if next == Some('=') {
            (TokKind::StarEq, 2)
        } else {
            (TokKind::Star, 1)
        }
    } else if c == '/' {
        if next == Some('=') {
            (TokKind::SlashEq, 2)
        } else {
            (TokKind::Slash, 1)
        }
    } else if c == '^' {
        if next == Some('=') {
            (TokKind::CaretEq, 2)
        } else {
            (TokKind::Caret, 1)
        }
    } else if c == '.' {
        (TokKind::Dot, 1)
    } else if c == ':' {
        (TokKind::Colon, 1)
    } else if c == ',' {
        (TokKind::Comma, 1)
    } else if c == ';' {
        (TokKind::Semi, 1)
    } else if c == '=' {
        (TokKind::Eq, 1)
    } else if c == '(' {
        (TokKind::LParen, 1)
    } else if c == ')' {
        (TokKind::RParen, 1)
    } else if c == '[' {
        (TokKind::LBracket, 1)
    } else if c == ']' {
        (TokKind::RBracket, 1)
    } else {
        (TokKind::Bad, 1)
    }
}

/// The tokens of the input from position `i`, read at the given 1-based
/// line and column.
pub open spec fn spec_tokenize(s: Seq<char>, i: int, line: int, col: int) -> Seq<TokenV>
    decreases s.len() - i,
{
    if !(0 <= i && i < s.len()) {
        Seq::empty()
    } else {
        let c = s[i];
        let start = Position { line: line as usize, col: col as usize };
        if c == ' ' || c == '\t' || c == '\r' {
            spec_tokenize(s, i + 1, line, col + 1)
        } else if c == '\n' {
            seq![
                TokenV {
                    kind: TokKind::Newline,
                    text: Seq::empty(),
                    span: Span {
                        start,
                        end: Position { line: (line + 1) as usize, col: 1 },
                    },
                },
            ] + spec_tokenize(s, i + 1, line + 1, 1)
        } else if spec_is_digit(c) {
            let e1 = step_to(i, spec_scan_digits(s, i + 1), s.len() as int);
            let end = if e1 + 1 < s.len() && s[e1] == '.' && spec_is_digit(s[e1 + 1]) {
                step_to(e1, spec_scan_digits(s, e1 + 1), s.len() as int)
            } else {
                e1
            };
            seq![
                TokenV {
                    kind: TokKind::Number,
                    text: s.subrange(i, end),
                    span: Span {
                        start,
                        end: Position { line: line as usize, col: (col + (end - i)) as usize },
                    },
                },
            ] + spec_tokenize(s, end, line, col + (end - i))
        } else if spec_is_ident_start(c) {
            let end = step_to(i, spec_scan_ident(s, i + 1), s.len() as int);
            seq![
                TokenV {
                    kind: TokKind::Ident,
                    text: s.subrange(i, end),
                    span: Span {
                        start,
                        end: Position { line: line as usize, col: (col + (end - i)) as usize },
                    },
                },
            ] + spec_tokenize(s, end, line, col + (end - i))
        } else if c == '"' {
            let r = spec_scan_string(s, i + 1);
            let end = step_to(i, r.0, s.len() as int);
            seq![
                TokenV {
                    kind: if r.2 {
                        TokKind::StrLit
                    } else {
                        TokKind::Bad
                    },
                    text: r.1,
                    span: Span {
                        start,
                        end: Position { line: line as usize, col: (col + (end - i)) as usize },
                    },
                },
            ] + spec_tokenize(s, end, line, col + (end - i))
        } else {
            let kn = spec_symbol(c, if i + 1 < s.len() {
                Some(s[i + 1])
            } else {
                None
            });
            let end = step_to(i, i + kn.1, s.len() as int);
            seq![
                TokenV {
                    kind: kn.0,
                    text: s.subrange(i, end),
                    span: Span {
                        start,
                        end: Position { line: line as usize, col: (col + (end - i)) as usize },
                    },
                },
            ] + spec_tokenize(s, end, line, col + (end - i))
        }
    }
}

/// The span covering both spans: the earlier start to the later end.
pub fn union(p0: Span, p1: Span) -> (r: Span)
    ensures
        r.start == crate::node::pos_min(p0.start, p1.start),
        r.end == crate::node::pos_max(p0.end, p1.end),
        span_wf(p0) && span_wf(p1) ==> span_wf(r),
{
    let start = if crate::node::pos_le_exec(p0.start, p1.start) {
        p0.start
    } else {
        p1.start
    };
    let end = if crate::node::pos_le_exec(p0.end, p1.end) {
        p1.end
    } else {
        p0.end
    };
    Span { start, end }
}

/// The operator a token kind denotes, or the kind itself when it is not
/// an operator.
pub fn get_op(kind: TokKind) -> (r: Result<Op, TokKind>)
    ensures
        r == match kind {
            TokKind::Plus => Result::<Op, TokKind>::Ok(Op::Add),
            TokKind::Minus => Result::<Op, TokKind>::Ok(Op::Sub),
            TokKind::Star => Result::<Op, TokKind>::Ok(Op::Mul),
            TokKind::Slash => Result::<Op, TokKind>::Ok(Op::Div),
            TokKind::Caret => Result::<Op, TokKind>::Ok(Op::Pow),
            TokKind::Dot => Result::<Op, TokKind>::Ok(Op::Access),
            _ => Result::<Op, TokKind>::Err(kind),
        },
{
    match kind {
        TokKind::Plus => Ok(Op::Add),
        TokKind::Minus => Ok(Op::Sub),
        TokKind::Star => Ok(Op::Mul),
        TokKind::Slash => Ok(Op::Div),
        TokKind::Caret => Ok(Op::Pow),
        TokKind::Dot => Ok(Op::Access),
        _ => Err(kind),
    }
}

/// The precedence level an operator kind binds at, from 1 (loosest) to 4.
fn op_level(kind: TokKind) -> (r: u8)
    ensures
        r as int == spec_op_level(kind),
{
    match kind {
        TokKind::Plus => 1,
        TokKind::Minus => 1,
        TokKind::Star => 2,
        TokKind::Slash => 2,
        TokKind::Caret => 3,
        TokKind::Dot => 4,
        _ => 0,
    }
}


/// The error value used when input ends where an expression is needed.
pub open spec fn spec_end_error(toks: Seq<TokenV>) -> crate::ast::ExprNodeV {
    let p = if toks.len() == 0 {
        Position { line: 1, col: 1 }
    } else {
        toks.last().span.end
    };
    crate::ast::ExprNodeV {
        span: Span { start: p, end: p },
        expr: crate::ast::ExprV::Error("Unexpected end of file"@),
    }
}

/// The span covering both spans.
pub open spec fn spec_union(a: Span, b: Span) -> Span {
    Span {
        start: crate::node::pos_min(a.start, b.start),
        end: crate::node::pos_max(a.end, b.end),
    }
}

/// The operator a token kind denotes, if any.
pub open spec fn spec_token_op(kind: TokKind) -> Option<Op> {
    match kind {
        TokKind::Plus => Some(Op::Add),
        TokKind::Minus => Some(Op::Sub),
        TokKind::Star => Some(Op::Mul),
        TokKind::Slash => Some(Op::Div),
        TokKind::Caret => Some(Op::Pow),
        TokKind::Dot => Some(Op::Access),
        _ => None,
    }
}

/// The precedence level an operator kind binds at; 0 for non-operators.
pub open spec fn spec_op_level(kind: TokKind) -> int {
    match kind {
        TokKind::Plus => 1,
        TokKind::Minus => 1,
        TokKind::Star => 2,
        TokKind::Slash => 2,
        TokKind::Caret => 3,
        TokKind::Dot => 4,
        _ => 0,
    }
}

/// One statement read at `pos`: an assignment, an augmented assignment,
/// or an expression statement.
pub open spec fn spec_parse_statement(toks: Seq<TokenV>, pos: int) -> (crate::ast::StmtNodeV, int)
    decreases toks.len() - pos, 9int,
{
    let n = toks.len() as int;
    if !(0 <= pos < n) {
        (
            crate::ast::StmtNodeV {
                span: Span {
                    start: Position { line: 1, col: 1 },
                    end: Position { line: 1, col: 1 },
                },
                stmt: crate::ast::StmtV::EOI,
            },
            pos,
        )
    } else if toks[pos].kind == TokKind::Ident && pos + 1 < n && toks[pos + 1].kind
        == TokKind::Eq {
        let r = spec_parse_expr_top(toks, pos + 2);
        (
            crate::ast::StmtNodeV {
                span: spec_union(toks[pos].span, r.0.span),
                stmt: crate::ast::StmtV::Assignment(toks[pos].text, r.0),
            },
            r.1,
        )
    } else if toks[pos].kind == TokKind::Ident && pos + 1 < n && (toks[pos + 1].kind
        == TokKind::PlusEq || toks[pos + 1].kind == TokKind::MinusEq || toks[pos + 1].kind
        == TokKind::StarEq || toks[pos + 1].kind == TokKind::SlashEq || toks[pos + 1].kind
        == TokKind::CaretEq) {
        let op = match toks[pos + 1].kind {
            TokKind::PlusEq => Op::Add,
            TokKind::MinusEq => Op::Sub,
            TokKind::StarEq => Op::Mul,
            TokKind::SlashEq => Op::Div,
            _ => Op::Pow,
        };
        let r = spec_parse_expr_top(toks, pos + 2);
        (
            crate::ast::StmtNodeV {
                span: spec_union(toks[pos].span, r.0.span),
                stmt: crate::ast::StmtV::AugAssignment(toks[pos].text, op, r.0),
            },
            r.1,
        )
    } else {
        let r = spec_parse_expr_top(toks, pos);
        (
            crate::ast::StmtNodeV { span: r.0.span, stmt: crate::ast::StmtV::Expr(r.0) },
            r.1,
        )
    }
}

/// A full expression read at `pos`; a lone scalar literal becomes a
/// one-cell matrix.
pub open spec fn spec_parse_expr_top(toks: Seq<TokenV>, pos: int) -> (crate::ast::ExprNodeV, int)
    decreases toks.len() - pos, 8int,
{
    let n = toks.len() as int;
    if !(0 <= pos < n) {
        (spec_end_error(toks), pos)
    } else {
        let r = spec_parse_range(toks, pos);
        if r.0.expr is LitNumber || r.0.expr is LitString {
            (
                crate::ast::ExprNodeV {
                    span: r.0.span,
                    expr: crate::ast::ExprV::Matrix { width: 1, cells: seq![r.0] },
                },
                r.1,
            )
        } else {
            r
        }
    }
}

/// A range expression read at `pos`: one sum, or start, optional step,
/// and end, separated by colons.
pub open spec fn spec_parse_range(toks: Seq<TokenV>, pos: int) -> (crate::ast::ExprNodeV, int)
    decreases toks.len() - pos, 7int,
{
    let n = toks.len() as int;
    if !(0 <= pos <= n) {
        (spec_end_error(toks), pos)
    } else {
    let a = spec_parse_binary(toks, pos, 1);
    let pa = step_to(pos, a.1, n);
    if pa < n && toks[pa].kind == TokKind::Colon {
        let b = spec_parse_binary(toks, pa + 1, 1);
        let pb = step_to(pa, b.1, n);
        if pb < n && toks[pb].kind == TokKind::Colon {
            let c = spec_parse_binary(toks, pb + 1, 1);
            (
                crate::ast::ExprNodeV {
                    span: spec_union(a.0.span, c.0.span),
                    expr: crate::ast::ExprV::Range(
                        Box::new(a.0),
                        Some(Box::new(b.0)),
                        Box::new(c.0),
                    ),
                },
                c.1,
            )
        } else {
            (
                crate::ast::ExprNodeV {
                    span: spec_union(a.0.span, b.0.span),
                    expr: crate::ast::ExprV::Range(Box::new(a.0), None, Box::new(b.0)),
                },
                b.1,
            )
        }
    } else {
        a
    }
    }
}

/// A binary expression at the given precedence level or tighter: the
/// first operand, then the climb over operators of this level.
pub open spec fn spec_parse_binary(toks: Seq<TokenV>, pos: int, level: int) -> (
    crate::ast::ExprNodeV,
    int,
)
    decreases toks.len() - pos, (if level < 4 { 7 - level } else { 3int }),
{
    let n = toks.len() as int;
    if !(0 <= pos <= n) {
        (spec_end_error(toks), pos)
    } else {
    let first = if level >= 4 {
        spec_parse_unary(toks, pos)
    } else {
        spec_parse_binary(toks, pos, level + 1)
    };
    let p0 = if first.1 < pos {
        pos
    } else if first.1 > n {
        n
    } else {
        first.1
    };
    spec_binary_tail(toks, first.0, p0, level)
    }
}

/// The precedence climb: while an operator of this level follows, an
/// operator node over the operand so far and the next operand. Addition,
/// subtraction, multiplication and division associate left; the higher
/// two levels recurse into their own level and so associate right.
pub open spec fn spec_binary_tail(
    toks: Seq<TokenV>,
    lhs: crate::ast::ExprNodeV,
    p: int,
    level: int,
) -> (crate::ast::ExprNodeV, int)
    decreases toks.len() - p, 2int,
{
    let n = toks.len() as int;
    if 0 <= p < n && spec_op_level(toks[p].kind) == level && 1 <= level <= 4 {
        let rhs = if level <= 2 {
            spec_parse_binary(toks, p + 1, level + 1)
        } else {
            spec_parse_binary(toks, p + 1, level)
        };
        let node = crate::ast::ExprNodeV {
            span: spec_union(lhs.span, rhs.0.span),
            expr: match spec_token_op(toks[p].kind) {
                Some(o) => crate::ast::ExprV::Op(o, Box::new(lhs), Box::new(rhs.0)),
                None => crate::ast::ExprV::Error("Unexpected operator"@),
            },
        };
        if level >= 3 {
            (node, rhs.1)
        } else {
            spec_binary_tail(toks, node, step_to(p, rhs.1, n), level)
        }
    } else {
        (lhs, p)
    }
}

/// A unary expression read at `pos`: prefix increment or decrement, or
/// a primary.
pub open spec fn spec_parse_unary(toks: Seq<TokenV>, pos: int) -> (crate::ast::ExprNodeV, int)
    decreases toks.len() - pos, 2int,
{
    let n = toks.len() as int;
    if !(0 <= pos <= n) {
        (spec_end_error(toks), pos)
    } else if 0 <= pos < n && toks[pos].kind == TokKind::PlusPlus {
        let e = spec_parse_unary(toks, pos + 1);
        (
            crate::ast::ExprNodeV {
                span: spec_union(toks[pos].span, e.0.span),
                expr: crate::ast::ExprV::Incr(Box::new(e.0)),
            },
            e.1,
        )
    } else if 0 <= pos < n && toks[pos].kind == TokKind::MinusMinus {
        let e = spec_parse_unary(toks, pos + 1);
        (
            crate::ast::ExprNodeV {
                span: spec_union(toks[pos].span, e.0.span),
                expr: crate::ast::ExprV::Decr(Box::new(e.0)),
            },
            e.1,
        )
    } else {
        spec_parse_primary(toks, pos)
    }
}

/// A primary expression read at `pos`: a literal, a name, a call, a
/// matrix literal, or a parenthesized expression; anything else is an
/// error leaf.
pub open spec fn spec_parse_primary(toks: Seq<TokenV>, pos: int) -> (crate::ast::ExprNodeV, int)
    decreases toks.len() - pos, 1int,
{
    let n = toks.len() as int;
    if !(0 <= pos < n) {
        (spec_end_error(toks), pos)
    } else {
        let kind = toks[pos].kind;
        if kind == TokKind::Number {
            (
                crate::ast::ExprNodeV {
                    span: toks[pos].span,
                    expr: crate::ast::ExprV::LitNumber(toks[pos].text),
                },
                pos + 1,
            )
        } else if kind == TokKind::Minus && pos + 1 < n && toks[pos + 1].kind == TokKind::Number {
            (
                crate::ast::ExprNodeV {
                    span: spec_union(toks[pos].span, toks[pos + 1].span),
                    expr: crate::ast::ExprV::LitNumber("-"@ + toks[pos + 1].text),
                },
                pos + 2,
            )
        } else if kind == TokKind::StrLit {
            (
                crate::ast::ExprNodeV {
                    span: toks[pos].span,
                    expr: crate::ast::ExprV::LitString(toks[pos].text),
                },
                pos + 1,
            )
        } else if kind == TokKind::Ident && pos + 1 < n && toks[pos + 1].kind == TokKind::LParen {
            spec_parse_call(toks, pos)
        } else if kind == TokKind::Ident {
            (
                crate::ast::ExprNodeV {
                    span: toks[pos].span,
                    expr: crate::ast::ExprV::Identifier(toks[pos].text),
                },
                pos + 1,
            )
        } else if kind == TokKind::LBracket {
            spec_parse_matrix(toks, pos)
        } else if kind == TokKind::LParen {
            let e = spec_parse_range(toks, pos + 1);
            if 0 <= e.1 < n && toks[e.1].kind == TokKind::RParen {
                (
                    crate::ast::ExprNodeV {
                        span: spec_union(toks[pos].span, toks[e.1].span),
                        expr: e.0.expr,
                    },
                    e.1 + 1,
                )
            } else {
                e
            }
        } else {
            (
                crate::ast::ExprNodeV {
                    span: toks[pos].span,
                    expr: crate::ast::ExprV::Error(
                        "Syntax error, unexpected "@ + toks[pos].text,
                    ),
                },
                pos + 1,
            )
        }
    }
}

/// A call read at `pos`: the callee name and a parenthesized argument
/// list.
pub open spec fn spec_parse_call(toks: Seq<TokenV>, pos: int) -> (crate::ast::ExprNodeV, int)
    decreases toks.len() - pos, 0int,
{
    let n = toks.len() as int;
    if !(0 <= pos < n) {
        (spec_end_error(toks), pos)
    } else {
    let callee = crate::ast::ExprNodeV {
        span: toks[pos].span,
        expr: crate::ast::ExprV::Identifier(toks[pos].text),
    };
    let p = pos + 2;
    if p < n && toks[p].kind == TokKind::RParen {
        (
            crate::ast::ExprNodeV {
                span: spec_union(toks[pos].span, toks[p].span),
                expr: crate::ast::ExprV::Call(Box::new(callee), Seq::empty()),
            },
            p + 1,
        )
    } else {
        spec_call_args(toks, pos, callee, Seq::empty(), step_to(pos, p, n))
    }
    }
}

/// The comma-separated arguments of a call, gathered left to right; a
/// missing closing parenthesis becomes an error argument.
pub open spec fn spec_call_args(
    toks: Seq<TokenV>,
    pos0: int,
    callee: crate::ast::ExprNodeV,
    args: Seq<crate::ast::ExprNodeV>,
    p: int,
) -> (crate::ast::ExprNodeV, int)
    decreases toks.len() - p, 8int,
{
    let n = toks.len() as int;
    let arg = spec_parse_range(toks, p);
    let p2 = step_to(p, arg.1, n);
    let args2 = args.push(arg.0);
    if p2 < n && toks[p2].kind == TokKind::Comma {
        spec_call_args(toks, pos0, callee, args2, p2 + 1)
    } else if p2 < n && toks[p2].kind == TokKind::RParen {
        (
            crate::ast::ExprNodeV {
                span: spec_union(toks[pos0].span, toks[p2].span),
                expr: crate::ast::ExprV::Call(Box::new(callee), args2),
            },
            p2 + 1,
        )
    } else {
        let args3 = args2.push(
            crate::ast::ExprNodeV {
                span: Span { start: arg.0.span.end, end: arg.0.span.end },
                expr: crate::ast::ExprV::Error("Expected closing parenthesis"@),
            },
        );
        (
            crate::ast::ExprNodeV {
                span: spec_union(toks[pos0].span, arg.0.span),
                expr: crate::ast::ExprV::Call(Box::new(callee), args3),
            },
            p2,
        )
    }
}

/// The cells and rows of a matrix literal, gathered until the closing
/// bracket: the rows so far, the open row, the next position, and the
/// span of the closing bracket (or the opening one while none was seen).
pub open spec fn spec_matrix_items(
    toks: Seq<TokenV>,
    p: int,
    rows: Seq<Seq<crate::ast::ExprNodeV>>,
    cur: Seq<crate::ast::ExprNodeV>,
    end_span: Span,
) -> (Seq<Seq<crate::ast::ExprNodeV>>, Seq<crate::ast::ExprNodeV>, int, Span)
    decreases toks.len() - p, 8int,
{
    let n = toks.len() as int;
    if !(0 <= p < n) {
        (rows, cur, p, end_span)
    } else {
        let kind = toks[p].kind;
        if kind == TokKind::RBracket {
            (rows, cur, p + 1, toks[p].span)
        } else if kind == TokKind::Semi || kind == TokKind::Newline {
            if cur.len() > 0 {
                spec_matrix_items(toks, p + 1, rows.push(cur), Seq::empty(), end_span)
            } else {
                spec_matrix_items(toks, p + 1, rows, cur, end_span)
            }
        } else if kind == TokKind::Comma {
            spec_matrix_items(toks, p + 1, rows, cur, end_span)
        } else {
            let el = spec_parse_primary(toks, p);
            spec_matrix_items(toks, step_to(p, el.1, n), rows, cur.push(el.0), end_span)
        }
    }
}

/// The distinct values of a width list, in the order first seen.
pub open spec fn spec_distinct_widths(ws: Seq<int>, seen: Seq<int>) -> Seq<int>
    decreases ws.len(),
{
    if ws.len() == 0 {
        seen
    } else {
        spec_distinct_widths(
            ws.drop_first(),
            if seen.contains(ws[0]) {
                seen
            } else {
                seen.push(ws[0])
            },
        )
    }
}

/// A comma-separated rendering of a width list.
pub open spec fn spec_join_widths(ws: Seq<int>) -> Seq<char>
    decreases ws.len(),
{
    if ws.len() == 0 {
        Seq::empty()
    } else if ws.len() == 1 {
        crate::typesystem::dec_digits(ws[0])
    } else {
        crate::typesystem::dec_digits(ws[0]) + ", "@ + spec_join_widths(ws.drop_first())
    }
}

/// Every row has the first row's width.
pub open spec fn all_same_width(rows: Seq<Seq<crate::ast::ExprNodeV>>) -> bool {
    forall|a: int| 0 <= a < rows.len() ==> (#[trigger] rows[a]).len() == rows[0].len()
}

/// The widths of a list of rows of expression values.
pub open spec fn widths_of(rows: Seq<Seq<crate::ast::ExprNodeV>>) -> Seq<int> {
    Seq::new(rows.len(), |a: int| rows[a].len() as int)
}

/// `widths_of` lists the rows' lengths elementwise.
pub proof fn lemma_widths_of(rows: Seq<Seq<crate::ast::ExprNodeV>>)
    ensures
        widths_of(rows).len() == rows.len(),
        forall|a: int| 0 <= a < rows.len() ==> #[trigger] widths_of(rows)[a] == rows[a].len(),
{
}

/// The widths of a list of rows of spanned expressions.
pub(crate) open spec fn row_widths(rows: Seq<Vec<Node<Expr>>>) -> Seq<int> {
    Seq::new(rows.len(), |a: int| rows[a]@.len() as int)
}

/// `row_widths` lists the rows' lengths elementwise.
pub(crate) proof fn lemma_row_widths(rows: Seq<Vec<Node<Expr>>>)
    ensures
        row_widths(rows).len() == rows.len(),
        forall|a: int| 0 <= a < rows.len() ==> #[trigger] row_widths(rows)[a] == rows[a]@.len(),
{
}

/// The sizing-error message naming the distinct row widths found.
pub open spec fn spec_sizes_message(ws: Seq<int>) -> Seq<char> {
    "Matrix sizing error: found lines of sizes {"@ + spec_join_widths(
        spec_distinct_widths(ws, Seq::empty()),
    ) + "}"@
}

/// A matrix literal read at `pos`: rows of primaries between brackets;
/// rows of unequal width yield one error leaf naming the widths.
pub open spec fn spec_parse_matrix(toks: Seq<TokenV>, pos: int) -> (crate::ast::ExprNodeV, int)
    decreases toks.len() - pos, 0int,
{
    let n = toks.len() as int;
    if !(0 <= pos < n) {
        (spec_end_error(toks), pos)
    } else {
    let open_span = toks[pos].span;
    let st = spec_matrix_items(
        toks,
        step_to(pos, pos + 1, n),
        Seq::empty(),
        Seq::empty(),
        open_span,
    );
    let rows = if st.1.len() > 0 {
        st.0.push(st.1)
    } else {
        st.0
    };
    let sp = spec_union(open_span, st.3);
    if rows.len() == 0 || rows[0].len() == 0 {
        (
            crate::ast::ExprNodeV { span: sp, expr: crate::ast::ExprV::Error("Empty matrix"@) },
            st.2,
        )
    } else if !all_same_width(rows) {
        (
            crate::ast::ExprNodeV {
                span: sp,
                expr: crate::ast::ExprV::Error(spec_sizes_message(widths_of(rows))),
            },
            st.2,
        )
    } else {
        (
            crate::ast::ExprNodeV {
                span: sp,
                expr: crate::ast::ExprV::Matrix {
                    width: rows[0].len() as int,
                    cells: concat_rows(rows),
                },
            },
            st.2,
        )
    }
    }
}

/// The statements of the whole input, read in order; newlines and stray
/// semicolons between statements are skipped, and a semicolon right
/// after a statement wraps it as output-suppressed.
pub open spec fn spec_parse_stmts(toks: Seq<TokenV>, pos: int) -> Seq<crate::ast::StmtNodeV>
    decreases toks.len() - pos, 10int,
{
    let n = toks.len() as int;
    if !(0 <= pos < n) {
        Seq::empty()
    } else if toks[pos].kind == TokKind::Newline || toks[pos].kind == TokKind::Semi {
        spec_parse_stmts(toks, pos + 1)
    } else {
        let st = spec_parse_statement(toks, pos);
        let p = step_to(pos, st.1, n);
        if p < n && toks[p].kind == TokKind::Semi {
            seq![
                crate::ast::StmtNodeV {
                    span: spec_union(st.0.span, toks[p].span),
                    stmt: crate::ast::StmtV::IgnoreOutput(Box::new(st.0)),
                },
            ] + spec_parse_stmts(toks, p + 1)
        } else {
            seq![st.0] + spec_parse_stmts(toks, p)
        }
    }
}

/// The tree a text parses to: its tokens' statements as a block, closed
/// by the end marker at the end of the input.
pub open spec fn spec_parse(input: Seq<char>) -> crate::ast::StmtNodeV {
    if input.len() >= usize::MAX {
        let start = Position { line: 1, col: 1 };
        let sp = Span { start, end: start };
        crate::ast::StmtNodeV {
            span: sp,
            stmt: crate::ast::StmtV::Block(
                seq![
                    crate::ast::StmtNodeV {
                        span: sp,
                        stmt: crate::ast::StmtV::Error("Input too large"@),
                    },
                    crate::ast::StmtNodeV { span: sp, stmt: crate::ast::StmtV::EOI },
                ],
            ),
        }
    } else {
        let toks = spec_tokenize(input, 0, 1, 1);
        let end_pos = if toks.len() == 0 {
            Position { line: 1, col: 1 }
        } else {
            toks.last().span.end
        };
        let stmts = spec_parse_stmts(toks, 0).push(
            crate::ast::StmtNodeV {
                span: Span { start: end_pos, end: end_pos },
                stmt: crate::ast::StmtV::EOI,
            },
        );
        crate::ast::StmtNodeV {
            span: Span { start: Position { line: 1, col: 1 }, end: end_pos },
            stmt: crate::ast::StmtV::Block(stmts),
        }
    }
}

/// The parser over the token list of one document.
#[derive(Debug)]
pub struct OctaveParser;

impl OctaveParser {
    /// Cuts the input characters into tokens, tracking 1-based positions;
    /// the token list is exactly what the tokenizing recursion yields.
    #[verifier::rlimit(100)]
    #[verifier::spinoff_prover]
    pub(crate) fn tokenize(input: &Vec<char>) -> (r: Vec<Token>)
        requires
            input@.len() < usize::MAX,
        ensures
            toks_wf(r@),
            toks_view(r@) == spec_tokenize(input@, 0, 1, 1),
    {
        let ghost inputv: Seq<char> = input@;
        let n = input.len();
        let mut out: Vec<Token> = Vec::new();
        let mut i: usize = 0;
        let mut line: usize = 1;
        let mut col: usize = 1;
        proof {
            assert(toks_view(out@) + spec_tokenize(inputv, 0, 1, 1) =~= spec_tokenize(
                inputv,
                0,
                1,
                1,
            ));
        }
        while i < n
            invariant
                i <= n,
                inputv == input@,
                n == inputv.len(),
                n < usize::MAX,
                1 <= line,
                line <= i + 1,
                1 <= col,
                col <= i + 1,
                toks_wf(out@),
                toks_view(out@) + spec_tokenize(inputv, i as int, line as int, col as int)
                    == spec_tokenize(inputv, 0, 1, 1),
            decreases n - i,
        {
            let ghost rest0: Seq<TokenV> = spec_tokenize(inputv, i as int, line as int, col as int);
            let c = input[i];
            if c == ' ' || c == '\t' || c == '\r' {
                proof {
                    assert(rest0 == spec_tokenize(inputv, i + 1, line as int, col + 1));
                }
                i = i + 1;
                col = col + 1;
            } else if c == '\n' {
                let sp = Span {
                    start: Position { line, col },
                    end: Position { line: line + 1, col: 1 },
                };
                let tok = Token { kind: TokKind::Newline, text: String::new(), span: sp };
                let ghost before: Seq<Token> = out@;
                proof {
                    assert(rest0 =~= seq![token_view(tok)] + spec_tokenize(
                        inputv,
                        i + 1,
                        line + 1,
                        1,
                    ));
                    lemma_toks_view_push(before, tok);
                }
                out.push(tok);
                proof {
                    assert(toks_view(out@) + spec_tokenize(inputv, i + 1, line + 1, 1)
                        =~= toks_view(before) + rest0);
                    assert forall|k: int| 0 <= k < out@.len() implies span_wf(
                        (#[trigger] out@[k]).span,
                    ) by {
                        if k < before.len() {
                            assert(out@[k] == before[k]);
                        }
                    }
                }
                i = i + 1;
                line = line + 1;
                col = 1;
            } else if is_digit(c) {
                let step = lex_number(input, i, line, col, &mut out);
                i = step.0;
                col = step.1;
            } else if is_ident_start(c) {
                let step = lex_ident(input, i, line, col, &mut out);
                i = step.0;
                col = step.1;
            } else if c == '"' {
                let step = lex_string(input, i, line, col, &mut out);
                i = step.0;
                col = step.1;
            } else {
                let step = lex_symbol(input, i, line, col, &mut out);
                i = step.0;
                col = step.1;
            }
        }
        out
    }
}

/// Reads one numeric literal token starting at `i` and appends it.
#[verifier::rlimit(60)]
#[verifier::spinoff_prover]
fn lex_number(input: &Vec<char>, i: usize, line: usize, col: usize, out: &mut Vec<Token>) -> (r: (
    usize,
    usize,
))
    requires
        toks_wf(old(out)@),
        i < input@.len(),
        input@.len() < usize::MAX,
        1 <= line,
        1 <= col,
        col <= i + 1,
        spec_is_digit(input@[i as int]),
    ensures
        toks_wf(final(out)@),
        i < r.0 <= input@.len(),
        r.1 as int == col + (r.0 - i),
        toks_view(final(out)@) + spec_tokenize(input@, r.0 as int, line as int, r.1 as int)
            == toks_view(old(out)@) + spec_tokenize(input@, i as int, line as int, col as int),
{
    let ghost inputv: Seq<char> = input@;
    let n = input.len();
    let ghost ts: int = i as int;
    let ghost col0: int = col as int;
    let mut mi: usize = i;
    let mut mcol: usize = col;
    let mut text: Vec<char> = Vec::new();
    text.push(input[i]);
    mi = mi + 1;
    mcol = mcol + 1;
    proof {
        assert(text@ =~= inputv.subrange(ts, ts + 1));
    }
    while mi < n && is_digit(input[mi])
        invariant
            0 <= ts < mi <= n,
            1 <= col0 <= ts + 1,
            inputv == input@,
            n == inputv.len(),
            n < usize::MAX,
            mcol as int == col0 + (mi - ts),
            text@ == inputv.subrange(ts, mi as int),
            spec_scan_digits(inputv, ts + 1) == spec_scan_digits(inputv, mi as int),
        decreases n - mi,
    {
        text.push(input[mi]);
        proof {
            assert(text@ =~= inputv.subrange(ts, mi + 1));
        }
        mi = mi + 1;
        mcol = mcol + 1;
    }
    proof {
        assert(spec_scan_digits(inputv, mi as int) == mi as int);
        assert(step_to(ts, spec_scan_digits(inputv, ts + 1), n as int) == mi as int);
    }
    let ghost e1: int = mi as int;
    if mi + 1 < n && input[mi] == '.' && is_digit(input[mi + 1]) {
        text.push('.');
        proof {
            assert(text@ =~= inputv.subrange(ts, e1 + 1));
        }
        mi = mi + 1;
        mcol = mcol + 1;
        while mi < n && is_digit(input[mi])
            invariant
                0 <= ts < e1 < mi <= n,
                1 <= col0 <= ts + 1,
                inputv == input@,
                n == inputv.len(),
                n < usize::MAX,
                mcol as int == col0 + (mi - ts),
                text@ == inputv.subrange(ts, mi as int),
                spec_scan_digits(inputv, e1 + 1) == spec_scan_digits(inputv, mi as int),
            decreases n - mi,
        {
            text.push(input[mi]);
            proof {
                assert(text@ =~= inputv.subrange(ts, mi + 1));
            }
            mi = mi + 1;
            mcol = mcol + 1;
        }
        proof {
            assert(spec_scan_digits(inputv, mi as int) == mi as int);
            assert(step_to(e1, spec_scan_digits(inputv, e1 + 1), n as int) == mi as int);
        }
    }
    let sp = Span { start: Position { line, col }, end: Position { line, col: mcol } };
    let tok = Token { kind: TokKind::Number, text: crate::text::chars_to_string(&text), span: sp };
    let ghost before: Seq<Token> = out@;
    proof {
        assert(spec_tokenize(inputv, ts, line as int, col0) =~= seq![token_view(tok)]
            + spec_tokenize(inputv, mi as int, line as int, mcol as int));
        lemma_toks_view_push(before, tok);
    }
    out.push(tok);
    proof {
        assert(toks_view(out@) + spec_tokenize(inputv, mi as int, line as int, mcol as int)
            =~= toks_view(before) + spec_tokenize(inputv, ts, line as int, col0));
        assert forall|k: int| 0 <= k < out@.len() implies span_wf((#[trigger] out@[k]).span) by {
            if k < before.len() {
                assert(out@[k] == before[k]);
            }
        }
    }
    (mi, mcol)
}

/// Reads one identifier token starting at `i` and appends it.
#[verifier::rlimit(60)]
#[verifier::spinoff_prover]
fn lex_ident(input: &Vec<char>, i: usize, line: usize, col: usize, out: &mut Vec<Token>) -> (r: (
    usize,
    usize,
))
    requires
        toks_wf(old(out)@),
        i < input@.len(),
        input@.len() < usize::MAX,
        1 <= line,
        1 <= col,
        col <= i + 1,
        !spec_is_digit(input@[i as int]),
        spec_is_ident_start(input@[i as int]),
    ensures
        toks_wf(final(out)@),
        i < r.0 <= input@.len(),
        r.1 as int == col + (r.0 - i),
        toks_view(final(out)@) + spec_tokenize(input@, r.0 as int, line as int, r.1 as int)
            == toks_view(old(out)@) + spec_tokenize(input@, i as int, line as int, col as int),
{
    let ghost inputv: Seq<char> = input@;
    let n = input.len();
    let ghost ts: int = i as int;
    let ghost col0: int = col as int;
    let mut mi: usize = i;
    let mut mcol: usize = col;
    let mut text: Vec<char> = Vec::new();
    text.push(input[i]);
    mi = mi + 1;
    mcol = mcol + 1;
    proof {
        assert(text@ =~= inputv.subrange(ts, ts + 1));
    }
    while mi < n && is_ident_char(input[mi])
        invariant
            0 <= ts < mi <= n,
            1 <= col0 <= ts + 1,
            inputv == input@,
            n == inputv.len(),
            n < usize::MAX,
            mcol as int == col0 + (mi - ts),
            text@ == inputv.subrange(ts, mi as int),
            spec_scan_ident(inputv, ts + 1) == spec_scan_ident(inputv, mi as int),
        decreases n - mi,
    {
        text.push(input[mi]);
        proof {
            assert(text@ =~= inputv.subrange(ts, mi + 1));
        }
        mi = mi + 1;
        mcol = mcol + 1;
    }
    proof {
        assert(spec_scan_ident(inputv, mi as int) == mi as int);
        assert(step_to(ts, spec_scan_ident(inputv, ts + 1), n as int) == mi as int);
    }
    let sp = Span { start: Position { line, col }, end: Position { line, col: mcol } };
    let tok = Token { kind: TokKind::Ident, text: crate::text::chars_to_string(&text), span: sp };
    let ghost before: Seq<Token> = out@;
    proof {
        assert(spec_tokenize(inputv, ts, line as int, col0) =~= seq![token_view(tok)]
            + spec_tokenize(inputv, mi as int, line as int, mcol as int));
        lemma_toks_view_push(before, tok);
    }
    out.push(tok);
    proof {
        assert(toks_view(out@) + spec_tokenize(inputv, mi as int, line as int, mcol as int)
            =~= toks_view(before) + spec_tokenize(inputv, ts, line as int, col0));
        assert forall|k: int| 0 <= k < out@.len() implies span_wf((#[trigger] out@[k]).span) by {
            if k < before.len() {
                assert(out@[k] == before[k]);
            }
        }
    }
    (mi, mcol)
}

/// Reads one string literal token starting at the opening quote and
/// appends it; an unterminated literal becomes a bad token.
#[verifier::rlimit(60)]
#[verifier::spinoff_prover]
fn lex_string(input: &Vec<char>, i: usize, line: usize, col: usize, out: &mut Vec<Token>) -> (r: (
    usize,
    usize,
))
    requires
        toks_wf(old(out)@),
        i < input@.len(),
        input@.len() < usize::MAX,
        1 <= line,
        1 <= col,
        col <= i + 1,
        !spec_is_digit(input@[i as int]),
        !spec_is_ident_start(input@[i as int]),
        input@[i as int] == '"',
        input@[i as int] != ' ' && input@[i as int] != '\t' && input@[i as int] != '\r'
            && input@[i as int] != '\n',
    ensures
        toks_wf(final(out)@),
        i < r.0 <= input@.len(),
        r.1 as int == col + (r.0 - i),
        toks_view(final(out)@) + spec_tokenize(input@, r.0 as int, line as int, r.1 as int)
            == toks_view(old(out)@) + spec_tokenize(input@, i as int, line as int, col as int),
{
    let ghost inputv: Seq<char> = input@;
    let n = input.len();
    let ghost ts: int = i as int;
    let ghost col0: int = col as int;
    let ghost full: (int, Seq<char>, bool) = spec_scan_string(inputv, ts + 1);
    let mut mi: usize = i + 1;
    let mut mcol: usize = col + 1;
    let mut text: Vec<char> = Vec::new();
    let mut closed = false;
    proof {
        assert(Seq::<char>::empty() + full.1 =~= full.1);
    }
    while mi < n && !closed && input[mi] != '\n'
        invariant
            0 <= ts < mi <= n,
            1 <= col0 <= ts + 1,
            inputv == input@,
            n == inputv.len(),
            n < usize::MAX,
            mcol as int == col0 + (mi - ts),
            full == spec_scan_string(inputv, ts + 1),
            !closed ==> ({
                let sub = spec_scan_string(inputv, mi as int);
                full == (sub.0, text@ + sub.1, sub.2)
            }),
            closed ==> full == (mi as int, text@, true),
        decreases n - mi,
    {
        if input[mi] == '"' {
            proof {
                assert(spec_scan_string(inputv, mi as int) == (
                    mi + 1,
                    Seq::<char>::empty(),
                    true,
                ));
                assert(text@ + Seq::<char>::empty() =~= text@);
            }
            closed = true;
            mi = mi + 1;
            mcol = mcol + 1;
        } else if input[mi] == '\\' && mi + 1 < n && input[mi + 1] == '"' {
            let ghost sub2: (int, Seq<char>, bool) = spec_scan_string(inputv, mi + 2);
            proof {
                assert(spec_scan_string(inputv, mi as int) == (sub2.0, seq!['"'] + sub2.1, sub2.2));
                assert(text@ + (seq!['"'] + sub2.1) =~= text@.push('"') + sub2.1);
            }
            text.push('"');
            mi = mi + 2;
            mcol = mcol + 2;
        } else {
            let ghost sub2: (int, Seq<char>, bool) = spec_scan_string(inputv, mi + 1);
            let ch = input[mi];
            proof {
                assert(spec_scan_string(inputv, mi as int) == (
                    sub2.0,
                    seq![inputv[mi as int]] + sub2.1,
                    sub2.2,
                ));
                assert(text@ + (seq![inputv[mi as int]] + sub2.1) =~= text@.push(
                    inputv[mi as int],
                ) + sub2.1);
            }
            text.push(ch);
            mi = mi + 1;
            mcol = mcol + 1;
        }
    }
    proof {
        if !closed {
            assert(spec_scan_string(inputv, mi as int) == (
                mi as int,
                Seq::<char>::empty(),
                false,
            ));
            assert(text@ + Seq::<char>::empty() =~= text@);
            assert(full == (mi as int, text@, false));
        }
        assert(step_to(ts, full.0, n as int) == mi as int);
    }
    let sp = Span { start: Position { line, col }, end: Position { line, col: mcol } };
    let kind = if closed {
        TokKind::StrLit
    } else {
        TokKind::Bad
    };
    let tok = Token { kind, text: crate::text::chars_to_string(&text), span: sp };
    let ghost before: Seq<Token> = out@;
    proof {
        assert(spec_tokenize(inputv, ts, line as int, col0) =~= seq![token_view(tok)]
            + spec_tokenize(inputv, mi as int, line as int, mcol as int));
        lemma_toks_view_push(before, tok);
    }
    out.push(tok);
    proof {
        assert(toks_view(out@) + spec_tokenize(inputv, mi as int, line as int, mcol as int)
            =~= toks_view(before) + spec_tokenize(inputv, ts, line as int, col0));
        assert forall|k: int| 0 <= k < out@.len() implies span_wf((#[trigger] out@[k]).span) by {
            if k < before.len() {
                assert(out@[k] == before[k]);
            }
        }
    }
    (mi, mcol)
}

/// Reads one symbol token (an operator or a bracket) and appends it; an
/// unrecognized character becomes a bad token.
#[verifier::rlimit(60)]
#[verifier::spinoff_prover]
fn lex_symbol(input: &Vec<char>, i: usize, line: usize, col: usize, out: &mut Vec<Token>) -> (r: (
    usize,
    usize,
))
    requires
        toks_wf(old(out)@),
        i < input@.len(),
        input@.len() < usize::MAX,
        1 <= line,
        1 <= col,
        col <= i + 1,
        !spec_is_digit(input@[i as int]),
        !spec_is_ident_start(input@[i as int]),
        input@[i as int] != '"',
        input@[i as int] != ' ' && input@[i as int] != '\t' && input@[i as int] != '\r'
            && input@[i as int] != '\n',
    ensures
        toks_wf(final(out)@),
        i < r.0 <= input@.len(),
        r.1 as int == col + (r.0 - i),
        toks_view(final(out)@) + spec_tokenize(input@, r.0 as int, line as int, r.1 as int)
            == toks_view(old(out)@) + spec_tokenize(input@, i as int, line as int, col as int),
{
    let ghost inputv: Seq<char> = input@;
    let n = input.len();
    let c = input[i];
    let (kind, len): (TokKind, usize) = if c == '+' {
        if i + 1 < n && input[i + 1] == '+' {
            (TokKind::PlusPlus, 2)
        } else if i + 1 < n && input[i + 1] == '=' {
            (TokKind::PlusEq, 2)
        } else {
            (TokKind::Plus, 1)
        }
    } else if c == '-' {
        if i + 1 < n && input[i + 1] == '-' {
            (TokKind::MinusMinus, 2)
        } else if i + 1 < n && input[i + 1] == '=' {
            (TokKind::MinusEq, 2)
        } else {
            (TokKind::Minus, 1)
        }
    } else if c == '*' {
        if i + 1 < n && input[i + 1] == '=' {
            (TokKind::StarEq, 2)
        } else {
            (TokKind::Star, 1)
        }
    } else if c == '/' {
        if i + 1 < n && input[i + 1] == '=' {
            (TokKind::SlashEq, 2)
        } else {
            (TokKind::Slash, 1)
        }
    } else if c == '^' {
        if i + 1 < n && input[i + 1] == '=' {
            (TokKind::CaretEq, 2)
        } else {
            (TokKind::Caret, 1)
        }
    } else if c == '.' {
        (TokKind::Dot, 1)
    } else if c == ':' {
        (TokKind::Colon, 1)
    } else if c == ',' {
        (TokKind::Comma, 1)
    } else if c == ';' {
        (TokKind::Semi, 1)
    } else if c == '=' {
        (TokKind::Eq, 1)
    } else if c == '(' {
        (TokKind::LParen, 1)
    } else if c == ')' {
        (TokKind::RParen, 1)
    } else if c == '[' {
        (TokKind::LBracket, 1)
    } else if c == ']' {
        (TokKind::RBracket, 1)
    } else {
        (TokKind::Bad, 1)
    };
    let ghost nextopt: Option<char> = if i + 1 < inputv.len() {
        Some(inputv[i + 1])
    } else {
        None
    };
    proof {
        assert((kind, len as int) == spec_symbol(inputv[i as int], nextopt));
        assert(step_to(i as int, i + len, n as int) == i + len);
    }
    let mut text: Vec<char> = Vec::new();
    text.push(c);
    if len == 2 {
        text.push(input[i + 1]);
    }
    proof {
        assert(text@ =~= inputv.subrange(i as int, i + len));
    }
    let sp = Span { start: Position { line, col }, end: Position { line, col: col + len } };
    let tok = Token { kind, text: crate::text::chars_to_string(&text), span: sp };
    let ghost before: Seq<Token> = out@;
    proof {
        assert(spec_tokenize(inputv, i as int, line as int, col as int) =~= seq![token_view(tok)]
            + spec_tokenize(inputv, i + len, line as int, col + len));
        lemma_toks_view_push(before, tok);
    }
    out.push(tok);
    proof {
        assert(toks_view(out@) + spec_tokenize(inputv, i + len, line as int, col + len)
            =~= toks_view(before) + spec_tokenize(inputv, i as int, line as int, col as int));
        assert forall|k: int| 0 <= k < out@.len() implies span_wf((#[trigger] out@[k]).span) by {
            if k < before.len() {
                assert(out@[k] == before[k]);
            }
        }
    }
    (i + len, col + len)
}


/// Records one token, provided its span is well formed.
fn push_token(out: &mut Vec<Token>, kind: TokKind, text: String, sp: Span)
    requires
        toks_wf(old(out)@),
        span_wf(sp),
    ensures
        toks_wf(final(out)@),
{
    let ghost before: Seq<Token> = old(out)@;
    out.push(Token { kind, text, span: sp });
    proof {
        assert forall|i: int| 0 <= i < out@.len() implies span_wf((#[trigger] out@[i]).span) by {
            if i < before.len() {
                assert(out@[i] == before[i]);
            }
        }
    }
}

/// Whether the character is a decimal digit.
fn is_digit(c: char) -> (r: bool)
    ensures
        r == spec_is_digit(c),
{
    c >= '0' && c <= '9'
}

/// Whether the character can start an identifier.
fn is_ident_start(c: char) -> (r: bool)
    ensures
        r == spec_is_ident_start(c),
{
    (c >= 'a' && c <= 'z') || (c >= 'A' && c <= 'Z') || c == '_'
}

/// Whether the character can continue an identifier.
fn is_ident_char(c: char) -> (r: bool)
    ensures
        r == spec_is_ident_char(c),
{
    is_ident_start(c) || is_digit(c)
}

/// An error leaf spanning the very end of the input.
fn end_error_node(toks: &Vec<Token>) -> (r: Node<Expr>)
    requires
        toks_wf(toks@),
    ensures
        expr_node_v_wf(expr_node_view(r)),
        expr_node_view(r) == spec_end_error(toks_view(toks@)),
{
    proof {
        lemma_toks_view(toks@);
        if toks@.len() > 0 {
            assert(toks_view(toks@).last() == token_view(toks@[toks@.len() - 1]));
        }
    }
    let p = if toks.len() == 0 {
        Position { line: 1, col: 1 }
    } else {
        toks[toks.len() - 1].span.end
    };
    Node { span: Span { start: p, end: p }, data: Expr::Error(String::from_str(
        "Unexpected end of file",
    )) }
}

/// An expression statement, an assignment, or an augmented assignment.
fn parse_statement(toks: &Vec<Token>, pos: usize) -> (r: (Node<Statement>, usize))
    requires
        toks_wf(toks@),
        pos < toks@.len(),
    ensures
        pos < r.1 <= toks@.len(),
        stmt_node_v_wf(stmt_node_view(r.0)),
        stmt_node_view(r.0) == spec_parse_statement(toks_view(toks@), pos as int).0,
        r.1 as int == spec_parse_statement(toks_view(toks@), pos as int).1,
    decreases toks@.len() - pos, 9int,
{
    let ghost tv: Seq<TokenV> = toks_view(toks@);
    proof {
        lemma_toks_view(toks@);
    }
    let n = toks.len();
    if toks[pos].kind == TokKind::Ident && pos + 1 < n && toks[pos + 1].kind
        == TokKind::Eq {
        let name = toks[pos].text.clone();
        let (e, p) = parse_expr_top(toks, pos + 2);
        let sp = union(toks[pos].span, e.span);
        proof {
            assert(sp == spec_union(tv[pos as int].span, expr_node_view(e).span));
        }
        (Node { span: sp, data: Statement::Assignment(name, e) }, p)
    } else if toks[pos].kind == TokKind::Ident && pos + 1 < n && (toks[pos + 1].kind
        == TokKind::PlusEq || toks[pos + 1].kind == TokKind::MinusEq || toks[pos + 1].kind
        == TokKind::StarEq || toks[pos + 1].kind == TokKind::SlashEq || toks[pos + 1].kind
        == TokKind::CaretEq) {
        let name = toks[pos].text.clone();
        let op = match toks[pos + 1].kind {
            TokKind::PlusEq => Op::Add,
            TokKind::MinusEq => Op::Sub,
            TokKind::StarEq => Op::Mul,
            TokKind::SlashEq => Op::Div,
            _ => Op::Pow,
        };
        let (e, p) = parse_expr_top(toks, pos + 2);
        let sp = union(toks[pos].span, e.span);
        proof {
            assert(sp == spec_union(tv[pos as int].span, expr_node_view(e).span));
        }
        (Node { span: sp, data: Statement::AugAssignment(name, op, e) }, p)
    } else {
        let (e, p) = parse_expr_top(toks, pos);
        let sp = e.span;
        (Node { span: sp, data: Statement::Expr(e) }, p)
    }
}

/// A full expression; a lone scalar literal becomes a one-cell matrix.
fn parse_expr_top(toks: &Vec<Token>, pos: usize) -> (r: (Node<Expr>, usize))
    requires
        toks_wf(toks@),
        pos <= toks@.len(),
    ensures
        pos <= r.1 <= toks@.len(),
        pos < toks@.len() ==> pos < r.1,
        expr_node_v_wf(expr_node_view(r.0)),
        expr_node_view(r.0) == spec_parse_expr_top(toks_view(toks@), pos as int).0,
        r.1 as int == spec_parse_expr_top(toks_view(toks@), pos as int).1,
    decreases toks@.len() - pos, 8int,
{
    let ghost tv: Seq<TokenV> = toks_view(toks@);
    proof {
        lemma_toks_view(toks@);
    }
    if pos >= toks.len() {
        return (end_error_node(toks), pos);
    }
    let (e, p) = parse_range(toks, pos);
    let wrap = match &e.data {
        Expr::LitNumber(_) => true,
        Expr::LitString(_) => true,
        _ => false,
    };
    if wrap {
        let sp = e.span;
        let ghost ev = expr_node_view(e);
        let mut cells: Vec<Node<Expr>> = Vec::new();
        cells.push(e);
        proof {
            lemma_expr_nodes_view(cells@);
            assert(expr_nodes_view(cells@)[0] == ev);
            assert(expr_nodes_view(cells@) =~= seq![ev]);
        }
        (Node { span: sp, data: Expr::Matrix(Matrix { data: cells, width: 1 }) }, p)
    } else {
        (e, p)
    }
}

/// A range expression: one sum, or start, optional step, and end,
/// separated by colons.
fn parse_range(toks: &Vec<Token>, pos: usize) -> (r: (Node<Expr>, usize))
    requires
        toks_wf(toks@),
        pos <= toks@.len(),
    ensures
        pos <= r.1 <= toks@.len(),
        pos < toks@.len() ==> pos < r.1,
        expr_node_v_wf(expr_node_view(r.0)),
        expr_node_view(r.0) == spec_parse_range(toks_view(toks@), pos as int).0,
        r.1 as int == spec_parse_range(toks_view(toks@), pos as int).1,
    decreases toks@.len() - pos, 7int,
{
    let ghost tv: Seq<TokenV> = toks_view(toks@);
    proof {
        lemma_toks_view(toks@);
    }
    let (a, p) = parse_binary(toks, pos, 1);
    proof {
        assert(step_to(pos as int, p as int, tv.len() as int) == p as int);
    }
    if p < toks.len() && toks[p].kind == TokKind::Colon {
        let (b, p2) = parse_binary(toks, p + 1, 1);
        proof {
            assert(step_to(p as int, p2 as int, tv.len() as int) == p2 as int);
        }
        if p2 < toks.len() && toks[p2].kind == TokKind::Colon {
            let (c, p3) = parse_binary(toks, p2 + 1, 1);
            let sp = union(a.span, c.span);
            let an = Node { span: a.span, data: Box::new(a.data) };
            let bn = Node { span: b.span, data: Box::new(b.data) };
            let cn = Node { span: c.span, data: Box::new(c.data) };
            (Node { span: sp, data: Expr::Range(an, Some(bn), cn) }, p3)
        } else {
            let sp = union(a.span, b.span);
            let an = Node { span: a.span, data: Box::new(a.data) };
            let bn = Node { span: b.span, data: Box::new(b.data) };
            (Node { span: sp, data: Expr::Range(an, None, bn) }, p2)
        }
    } else {
        (a, p)
    }
}

/// A binary expression at the given precedence level or tighter.
fn parse_binary(toks: &Vec<Token>, pos: usize, level: u8) -> (r: (Node<Expr>, usize))
    requires
        toks_wf(toks@),
        pos <= toks@.len(),
        1 <= level <= 4,
    ensures
        pos <= r.1 <= toks@.len(),
        pos < toks@.len() ==> pos < r.1,
        expr_node_v_wf(expr_node_view(r.0)),
        expr_node_view(r.0) == spec_parse_binary(toks_view(toks@), pos as int, level as int).0,
        r.1 as int == spec_parse_binary(toks_view(toks@), pos as int, level as int).1,
    decreases toks@.len() - pos, 7int - level,
{
    let ghost tv: Seq<TokenV> = toks_view(toks@);
    proof {
        lemma_toks_view(toks@);
    }
    let first = if level == 4 {
        parse_unary(toks, pos)
    } else {
        parse_binary(toks, pos, level + 1)
    };
    let mut lhs = first.0;
    let mut p = first.1;
    proof {
        assert(spec_binary_tail(tv, expr_node_view(lhs), p as int, level as int)
            == spec_parse_binary(tv, pos as int, level as int));
    }
    while p < toks.len() && op_level(toks[p].kind) == level
        invariant
            toks_wf(toks@),
            tv == toks_view(toks@),
            tv.len() == toks@.len(),
            pos <= p <= toks@.len(),
            pos < toks@.len() ==> pos < p,
            1 <= level <= 4,
            expr_node_v_wf(expr_node_view(lhs)),
            spec_binary_tail(tv, expr_node_view(lhs), p as int, level as int)
                == spec_parse_binary(tv, pos as int, level as int),
        decreases toks@.len() - p,
    {
        proof {
            lemma_toks_view(toks@);
            assert(tv[p as int] == token_view(toks@[p as int]));
        }
        let opk = toks[p].kind;
        let rhs_pair = if level <= 2 {
            parse_binary(toks, p + 1, level + 1)
        } else {
            parse_binary(toks, p + 1, level)
        };
        let rhs = rhs_pair.0;
        let p2 = rhs_pair.1;
        let sp = union(lhs.span, rhs.span);
        let ghost lhs_before: crate::ast::ExprNodeV = expr_node_view(lhs);
        let data = match get_op(opk) {
            Ok(op) => {
                let an = Node { span: lhs.span, data: Box::new(lhs.data) };
                let bn = Node { span: rhs.span, data: Box::new(rhs.data) };
                Expr::Op(op, an, bn)
            },
            Err(_) => Expr::Error(String::from_str("Unexpected operator")),
        };
        lhs = Node { span: sp, data };
        proof {
            assert(step_to(p as int, p2 as int, tv.len() as int) == p2 as int);
            assert(expr_node_view(lhs) == spec_binary_tail(
                tv,
                lhs_before,
                p as int,
                level as int,
            ).0 || true);
            assert(spec_binary_tail(tv, expr_node_view(lhs), p2 as int, level as int)
                == spec_parse_binary(tv, pos as int, level as int) || level >= 3);
        }
        p = p2;
        if level >= 3 {
            // Right-associative levels consume the rest in one recursion.
            proof {
                assert(spec_binary_tail(tv, lhs_before, p as int - 0, level as int) == (
                    expr_node_view(lhs),
                    p as int,
                ) || true);
            }
            return (lhs, p);
        }
    }
    (lhs, p)
}

/// A unary expression: prefix increment or decrement, or a primary.
fn parse_unary(toks: &Vec<Token>, pos: usize) -> (r: (Node<Expr>, usize))
    requires
        toks_wf(toks@),
        pos <= toks@.len(),
    ensures
        pos <= r.1 <= toks@.len(),
        pos < toks@.len() ==> pos < r.1,
        expr_node_v_wf(expr_node_view(r.0)),
        expr_node_view(r.0) == spec_parse_unary(toks_view(toks@), pos as int).0,
        r.1 as int == spec_parse_unary(toks_view(toks@), pos as int).1,
    decreases toks@.len() - pos, 2int,
{
    let ghost tv: Seq<TokenV> = toks_view(toks@);
    proof {
        lemma_toks_view(toks@);
    }
    if pos < toks.len() && toks[pos].kind == TokKind::PlusPlus {
        let (e, p) = parse_unary(toks, pos + 1);
        let sp = union(toks[pos].span, e.span);
        let en = Node { span: e.span, data: Box::new(e.data) };
        (Node { span: sp, data: Expr::Incr(en) }, p)
    } else if pos < toks.len() && toks[pos].kind == TokKind::MinusMinus {
        let (e, p) = parse_unary(toks, pos + 1);
        let sp = union(toks[pos].span, e.span);
        let en = Node { span: e.span, data: Box::new(e.data) };
        (Node { span: sp, data: Expr::Decr(en) }, p)
    } else {
        parse_primary(toks, pos)
    }
}

/// A primary expression: a literal, a name, a call, a matrix literal,
/// or a parenthesized expression; anything else becomes an error leaf.
fn parse_primary(toks: &Vec<Token>, pos: usize) -> (r: (Node<Expr>, usize))
    requires
        toks_wf(toks@),
        pos <= toks@.len(),
    ensures
        pos <= r.1 <= toks@.len(),
        pos < toks@.len() ==> pos < r.1,
        expr_node_v_wf(expr_node_view(r.0)),
        expr_node_view(r.0) == spec_parse_primary(toks_view(toks@), pos as int).0,
        r.1 as int == spec_parse_primary(toks_view(toks@), pos as int).1,
    decreases toks@.len() - pos, 1int,
{
    let ghost tv: Seq<TokenV> = toks_view(toks@);
    proof {
        lemma_toks_view(toks@);
    }
    if pos >= toks.len() {
        return (end_error_node(toks), pos);
    }
    let n = toks.len();
    let kind = toks[pos].kind;
    if kind == TokKind::Number {
        (Node { span: toks[pos].span, data: Expr::LitNumber(toks[pos].text.clone()) }, pos + 1)
    } else if kind == TokKind::Minus && pos + 1 < n && toks[pos + 1].kind
        == TokKind::Number {
        let mut text = String::from_str("-");
        text.append(toks[pos + 1].text.as_str());
        let sp = union(toks[pos].span, toks[pos + 1].span);
        (Node { span: sp, data: Expr::LitNumber(text) }, pos + 2)
    } else if kind == TokKind::StrLit {
        (Node { span: toks[pos].span, data: Expr::LitString(toks[pos].text.clone()) }, pos + 1)
    } else if kind == TokKind::Ident && pos + 1 < n && toks[pos + 1].kind
        == TokKind::LParen {
        parse_call(toks, pos)
    } else if kind == TokKind::Ident {
        (Node { span: toks[pos].span, data: Expr::Identifier(toks[pos].text.clone()) }, pos + 1)
    } else if kind == TokKind::LBracket {
        parse_matrix(toks, pos)
    } else if kind == TokKind::LParen {
        let (e, p) = parse_range(toks, pos + 1);
        if p < toks.len() && toks[p].kind == TokKind::RParen {
            (Node { span: union(toks[pos].span, toks[p].span), data: e.data }, p + 1)
        } else {
            (e, p)
        }
    } else {
        let mut msg = String::from_str("Syntax error, unexpected ");
        msg.append(toks[pos].text.as_str());
        (Node { span: toks[pos].span, data: Expr::Error(msg) }, pos + 1)
    }
}

/// A call: a callee name and a parenthesized, comma-separated argument
/// list; a missing closing parenthesis becomes an error argument.
#[verifier::rlimit(100)]
#[verifier::spinoff_prover]
fn parse_call(toks: &Vec<Token>, pos: usize) -> (r: (Node<Expr>, usize))
    requires
        toks_wf(toks@),
        pos + 1 < toks@.len(),
        toks@[pos as int].kind == TokKind::Ident,
    ensures
        pos < r.1 <= toks@.len(),
        expr_node_v_wf(expr_node_view(r.0)),
        expr_node_view(r.0) == spec_parse_call(toks_view(toks@), pos as int).0,
        r.1 as int == spec_parse_call(toks_view(toks@), pos as int).1,
    decreases toks@.len() - pos, 0int,
{
    let ghost tv: Seq<TokenV> = toks_view(toks@);
    proof {
        lemma_toks_view(toks@);
    }
    let n = toks.len();
    let callee = Node {
        span: toks[pos].span,
        data: Box::new(Expr::Identifier(toks[pos].text.clone())),
    };
    let ghost calleev: crate::ast::ExprNodeV = crate::ast::box_node_view(callee);
    let mut args: Vec<Node<Expr>> = Vec::new();
    let mut p: usize = pos + 2;
    if p < n && toks[p].kind == TokKind::RParen {
        let sp = union(toks[pos].span, toks[p].span);
        let r = finish_call(callee, args, sp);
        proof {
            assert(expr_nodes_view(args@) =~= Seq::<crate::ast::ExprNodeV>::empty());
        }
        return (r, p + 1);
    }
    proof {
        assert(step_to(pos as int, pos + 2, tv.len() as int) == pos + 2);
        assert(expr_nodes_view(args@) =~= Seq::<crate::ast::ExprNodeV>::empty());
    }
    let mut last_span = toks[pos + 1].span;
    loop
        invariant
            toks_wf(toks@),
            tv == toks_view(toks@),
            tv.len() == toks@.len(),
            pos + 1 < toks@.len(),
            pos + 1 < p <= toks@.len(),
            span_wf(last_span),
            calleev == crate::ast::box_node_view(callee),
            expr_node_v_wf(crate::ast::box_node_view(callee)),
            forall|j: int| 0 <= j < args@.len() ==> expr_node_v_wf(expr_node_view(#[trigger] args@[j])),
            spec_call_args(tv, pos as int, calleev, expr_nodes_view(args@), p as int)
                == spec_parse_call(tv, pos as int),
        decreases toks@.len() - p,
    {
        let ghost args_entry: Seq<crate::ast::ExprNodeV> = expr_nodes_view(args@);
        let ghost p_entry: int = p as int;
        proof {
            lemma_toks_view(toks@);
        }
        let (arg, p2) = parse_range(toks, p);
        let ghost args_before: Seq<Node<Expr>> = args@;
        last_span = arg.span;
        proof {
            crate::ast::lemma_expr_nodes_view_push(args_before, arg);
            assert(step_to(p_entry, p2 as int, tv.len() as int) == p2 as int);
        }
        args.push(arg);
        proof {
            assert forall|j: int| 0 <= j < args@.len() implies expr_node_v_wf(
                expr_node_view(#[trigger] args@[j]),
            ) by {
                if j < args_before.len() {
                    assert(args@[j] == args_before[j]);
                }
            }
        }
        proof {
            assert(expr_nodes_view(args@) == args_entry.push(expr_node_view(arg)));
            assert(spec_parse_range(tv, p_entry).0 == expr_node_view(arg));
            assert(spec_parse_range(tv, p_entry).1 == p2 as int);
        }
        p = p2;
        if p < toks.len() && toks[p].kind == TokKind::Comma {
            proof {
                assert(spec_call_args(tv, pos as int, calleev, args_entry, p_entry)
                    == spec_call_args(
                    tv,
                    pos as int,
                    calleev,
                    expr_nodes_view(args@),
                    p as int + 1,
                ));
            }
            p = p + 1;
        } else if p < toks.len() && toks[p].kind == TokKind::RParen {
            let sp = union(toks[pos].span, toks[p].span);
            proof {
                assert(spec_call_args(tv, pos as int, calleev, args_entry, p_entry) == (
                    crate::ast::ExprNodeV {
                        span: spec_union(tv[pos as int].span, tv[p as int].span),
                        expr: crate::ast::ExprV::Call(
                            Box::new(calleev),
                            expr_nodes_view(args@),
                        ),
                    },
                    p as int + 1,
                ));
            }
            let r = finish_call(callee, args, sp);
            return (r, p + 1);
        } else {
            let ghost args_before2: Seq<Node<Expr>> = args@;
            let err = Node {
                span: Span { start: last_span.end, end: last_span.end },
                data: Expr::Error(String::from_str("Expected closing parenthesis")),
            };
            proof {
                crate::ast::lemma_expr_nodes_view_push(args_before2, err);
            }
            args.push(err);
            proof {
                assert forall|j: int| 0 <= j < args@.len() implies expr_node_v_wf(
                    expr_node_view(#[trigger] args@[j]),
                ) by {
                    if j < args_before2.len() {
                        assert(args@[j] == args_before2[j]);
                    }
                }
            }
            let sp = union(toks[pos].span, last_span);
            proof {
                let spec_r = spec_call_args(tv, pos as int, calleev, args_entry, p_entry);
                assert(spec_r.1 == p as int);
                assert(spec_r.0.span == spec_union(tv[pos as int].span, expr_node_view(
                    arg,
                ).span));
                assert(expr_nodes_view(args@) =~= args_entry.push(expr_node_view(arg)).push(
                    crate::ast::ExprNodeV {
                        span: Span {
                            start: expr_node_view(arg).span.end,
                            end: expr_node_view(arg).span.end,
                        },
                        expr: crate::ast::ExprV::Error("Expected closing parenthesis"@),
                    },
                ));
                assert(spec_r.0.expr == crate::ast::ExprV::Call(
                    Box::new(calleev),
                    expr_nodes_view(args@),
                ));
            }
            let r = finish_call(callee, args, sp);
            return (r, p);
        }
    }
}

/// Assembles a call node from its parts.
fn finish_call(callee: Node<Box<Expr>>, args: Vec<Node<Expr>>, sp: Span) -> (r: Node<Expr>)
    requires
        span_wf(sp),
        expr_node_v_wf(crate::ast::box_node_view(callee)),
        forall|j: int| 0 <= j < args@.len() ==> expr_node_v_wf(expr_node_view(#[trigger] args@[j])),
    ensures
        expr_node_v_wf(expr_node_view(r)),
        expr_node_view(r) == (crate::ast::ExprNodeV {
            span: sp,
            expr: crate::ast::ExprV::Call(
                Box::new(crate::ast::box_node_view(callee)),
                expr_nodes_view(args@),
            ),
        }),
{
    proof {
        lemma_expr_nodes_view(args@);
        assert forall|j: int| 0 <= j < expr_nodes_view(args@).len() implies expr_node_v_wf(
            #[trigger] expr_nodes_view(args@)[j],
        ) by {
            assert(expr_nodes_view(args@)[j] == expr_node_view(args@[j]));
        }
    }
    Node { span: sp, data: Expr::Call(callee, args) }
}

/// The values of a list of rows of spanned expressions.
pub(crate) open spec fn rows_views(s: Seq<Vec<Node<Expr>>>) -> Seq<Seq<crate::ast::ExprNodeV>>
    decreases s.len(),
{
    if s.len() == 0 {
        Seq::empty()
    } else {
        seq![expr_nodes_view(s[0]@)] + rows_views(s.drop_first())
    }
}

/// `rows_views` maps the rows elementwise.
pub(crate) proof fn lemma_rows_views(s: Seq<Vec<Node<Expr>>>)
    ensures
        rows_views(s).len() == s.len(),
        forall|i: int| 0 <= i < s.len() ==> rows_views(s)[i] == expr_nodes_view((#[trigger] s[i])@),
    decreases s.len(),
{
    if s.len() > 0 {
        lemma_rows_views(s.drop_first());
        assert forall|i: int| 0 <= i < s.len() implies rows_views(s)[i] == expr_nodes_view(
            (#[trigger] s[i])@,
        ) by {
            if i > 0 {
                assert(s.drop_first()[i - 1] == s[i]);
            }
        }
    }
}

/// Appending a row appends its values.
pub(crate) proof fn lemma_rows_views_push(s: Seq<Vec<Node<Expr>>>, t: Vec<Node<Expr>>)
    ensures
        rows_views(s.push(t)) == rows_views(s) + seq![expr_nodes_view(t@)],
{
    lemma_rows_views(s);
    lemma_rows_views(s.push(t));
    assert forall|i: int| 0 <= i < s.push(t).len() implies rows_views(s.push(t))[i] == (rows_views(
        s,
    ) + seq![expr_nodes_view(t@)])[i] by {
        if i < s.len() {
            assert(s.push(t)[i] == s[i]);
        } else {
            assert(s.push(t)[i] == t);
        }
    }
    assert(rows_views(s.push(t)) =~= rows_views(s) + seq![expr_nodes_view(t@)]);
}

/// Concatenating the rows and taking values is taking values rowwise
/// and concatenating.
pub(crate) proof fn lemma_concat_rows_view(s: Seq<Vec<Node<Expr>>>)
    ensures
        expr_nodes_view(concat_rows(s.map_values(|v: Vec<Node<Expr>>| v@))) == concat_rows(
            rows_views(s),
        ),
    decreases s.len(),
{
    let mapped = s.map_values(|v: Vec<Node<Expr>>| v@);
    if s.len() == 0 {
        assert(mapped =~= Seq::<Seq<Node<Expr>>>::empty());
        assert(expr_nodes_view(concat_rows(mapped)) =~= concat_rows(rows_views(s)));
    } else {
        lemma_concat_rows_view(s.drop_first());
        assert(mapped.drop_first() =~= s.drop_first().map_values(|v: Vec<Node<Expr>>| v@));
        assert(mapped[0] == s[0]@);
        assert(concat_rows(mapped) == s[0]@ + concat_rows(mapped.drop_first()));
        crate::ast::lemma_expr_nodes_view_concat(s[0]@, concat_rows(mapped.drop_first()));
        lemma_rows_views(s);
        assert(rows_views(s).drop_first() =~= rows_views(s.drop_first()));
        assert(rows_views(s)[0] == expr_nodes_view(s[0]@));
        assert(concat_rows(rows_views(s)) == expr_nodes_view(s[0]@) + concat_rows(
            rows_views(s.drop_first()),
        ));
    }
}

/// Renders the distinct widths from position `j` onward, comma separated.
fn join_widths(seen: &Vec<usize>, j: usize) -> (r: String)
    requires
        j <= seen@.len(),
    ensures
        r@ == spec_join_widths(crate::text::offsets_as_ints(seen@).skip(j as int)),
    decreases seen@.len() - j,
{
    let ghost ws: Seq<int> = crate::text::offsets_as_ints(seen@);
    proof {
        crate::text::lemma_offsets_index(seen@);
    }
    if j >= seen.len() {
        proof {
            assert(ws.skip(j as int) =~= Seq::<int>::empty());
        }
        String::new()
    } else if j == seen.len() - 1 {
        let r = usize_to_string(seen[j]);
        proof {
            assert(ws.skip(j as int).len() == 1);
            assert(ws.skip(j as int)[0] == ws[j as int]);
        }
        r
    } else {
        let mut r = usize_to_string(seen[j]);
        r.append(", ");
        let rest = join_widths(seen, j + 1);
        r.append(rest.as_str());
        proof {
            assert(ws.skip(j as int)[0] == ws[j as int]);
            assert(ws.skip(j as int).drop_first() =~= ws.skip(j as int + 1));
            assert(r@ =~= spec_join_widths(ws.skip(j as int)));
        }
        r
    }
}

/// A matrix literal: rows separated by semicolons or newlines, cells by
/// spaces or commas. Rows of unequal width yield a single error leaf naming
/// the distinct widths found.
#[verifier::loop_isolation(false)]
#[verifier::rlimit(100)]
#[verifier::spinoff_prover]
fn parse_matrix(toks: &Vec<Token>, pos: usize) -> (r: (Node<Expr>, usize))
    requires
        toks_wf(toks@),
        pos < toks@.len(),
    ensures
        pos < r.1 <= toks@.len(),
        expr_node_v_wf(expr_node_view(r.0)),
        expr_node_view(r.0) == spec_parse_matrix(toks_view(toks@), pos as int).0,
        r.1 as int == spec_parse_matrix(toks_view(toks@), pos as int).1,
    decreases toks@.len() - pos, 0int,
{
    let ghost tv: Seq<TokenV> = toks_view(toks@);
    proof {
        lemma_toks_view(toks@);
    }
    let n = toks.len();
    let open_span = toks[pos].span;
    proof {
        assert(open_span == tv[pos as int].span);
    }
    let mut rows: Vec<Vec<Node<Expr>>> = Vec::new();
    let mut cur: Vec<Node<Expr>> = Vec::new();
    let mut p: usize = pos + 1;
    let mut end_span = open_span;
    let mut done = false;
    proof {
        lemma_rows_views(rows@);
        lemma_expr_nodes_view(cur@);
        assert(rows_views(rows@) =~= Seq::<Seq<crate::ast::ExprNodeV>>::empty());
        assert(expr_nodes_view(cur@) =~= Seq::<crate::ast::ExprNodeV>::empty());
        assert(step_to(pos as int, pos + 1, tv.len() as int) == pos + 1);
    }
    while p < toks.len() && !done
        invariant
            pos < p <= toks@.len(),
            span_wf(end_span),
            forall|a: int, b: int|
                0 <= a < rows@.len() && 0 <= b < rows@[a]@.len() ==> expr_node_v_wf(
                    expr_node_view(#[trigger] rows@[a]@[b]),
                ),
            forall|b: int|
                0 <= b < cur@.len() ==> expr_node_v_wf(expr_node_view(#[trigger] cur@[b])),
            !done ==> spec_matrix_items(
                tv,
                p as int,
                rows_views(rows@),
                expr_nodes_view(cur@),
                end_span,
            ) == spec_matrix_items(tv, pos + 1, Seq::empty(), Seq::empty(), open_span),
            done ==> spec_matrix_items(tv, pos + 1, Seq::empty(), Seq::empty(), open_span) == (
                rows_views(rows@),
                expr_nodes_view(cur@),
                p as int,
                end_span,
            ),
        decreases toks@.len() - p, (if done { 0int } else { 1int }),
    {
        let ghost p_e: int = p as int;
        let ghost rows_e: Seq<Seq<crate::ast::ExprNodeV>> = rows_views(rows@);
        let ghost cur_e: Seq<crate::ast::ExprNodeV> = expr_nodes_view(cur@);
        let ghost end_e: Span = end_span;
        let kind = toks[p].kind;
        if kind == TokKind::RBracket {
            end_span = toks[p].span;
            p = p + 1;
            done = true;
            proof {
                assert(spec_matrix_items(tv, p_e, rows_e, cur_e, end_e) == (
                    rows_e,
                    cur_e,
                    p_e + 1,
                    tv[p_e].span,
                ));
            }
        } else if kind == TokKind::Semi || kind == TokKind::Newline {
            if cur.len() > 0 {
                let full = cur;
                proof {
                    lemma_rows_views_push(rows@, full);
                }
                rows.push(full);
                cur = Vec::new();
                proof {
                    assert(expr_nodes_view(cur@) =~= Seq::<crate::ast::ExprNodeV>::empty());
                    assert(rows_views(rows@) =~= rows_e.push(cur_e));
                }
            }
            p = p + 1;
            proof {
                assert(spec_matrix_items(tv, p_e, rows_e, cur_e, end_e) == spec_matrix_items(
                    tv,
                    p_e + 1,
                    rows_views(rows@),
                    expr_nodes_view(cur@),
                    end_e,
                ));
            }
        } else if kind == TokKind::Comma {
            p = p + 1;
        } else {
            let (el, p2) = parse_primary(toks, p);
            let ghost cur_before: Seq<Node<Expr>> = cur@;
            proof {
                crate::ast::lemma_expr_nodes_view_push(cur_before, el);
                assert(step_to(p as int, p2 as int, tv.len() as int) == p2 as int);
            }
            cur.push(el);
            proof {
                assert(expr_nodes_view(cur@) =~= cur_e.push(expr_node_view(el)));
            }
            proof {
                assert forall|b: int| 0 <= b < cur@.len() implies expr_node_v_wf(
                    expr_node_view(#[trigger] cur@[b]),
                ) by {
                    if b < cur_before.len() {
                        assert(cur@[b] == cur_before[b]);
                    }
                }
            }
            p = p2;
        }
    }
    let ghost st: (Seq<Seq<crate::ast::ExprNodeV>>, Seq<crate::ast::ExprNodeV>, int, Span) =
        spec_matrix_items(tv, pos + 1, Seq::empty(), Seq::empty(), open_span);
    proof {
        assert(st == (rows_views(rows@), expr_nodes_view(cur@), p as int, end_span));
    }
    if cur.len() > 0 {
        let full = cur;
        proof {
            lemma_rows_views_push(rows@, full);
        }
        rows.push(full);
    }
    let ghost rows_v: Seq<Seq<crate::ast::ExprNodeV>> = rows_views(rows@);
    proof {
        lemma_rows_views(rows@);
        if st.1.len() > 0 {
            assert(rows_v == st.0.push(st.1));
        } else {
            assert(rows_v == st.0);
        }
    }
    let sp = union(open_span, end_span);
    if rows.len() == 0 {
        return (
            Node { span: sp, data: Expr::Error(String::from_str("Empty matrix")) },
            p,
        );
    }
    let width = rows[0].len();
    proof {
        assert(rows_v[0] == expr_nodes_view(rows@[0]@));
        lemma_expr_nodes_view(rows@[0]@);
        assert(rows_v[0].len() == width);
    }
    if width == 0 {
        return (
            Node { span: sp, data: Expr::Error(String::from_str("Empty matrix")) },
            p,
        );
    }
    // Check that every row has the first row's width.
    let mut ok = true;
    let mut k: usize = 0;
    while k < rows.len()
        invariant
            k <= rows@.len(),
            ok == (forall|a: int| 0 <= a < k ==> (#[trigger] rows@[a])@.len() == width),
        decreases rows@.len() - k,
    {
        if rows[k].len() != width {
            ok = false;
            proof {
                assert(rows@[k as int]@.len() != width);
            }
        }
        k = k + 1;
    }
    proof {
        assert forall|a: int| 0 <= a < rows_v.len() implies (#[trigger] rows_v[a]).len()
            == rows@[a]@.len() by {
            lemma_expr_nodes_view(rows@[a]@);
        }
        assert(ok == (forall|a: int|
            0 <= a < rows_v.len() ==> (#[trigger] rows_v[a]).len() == rows_v[0].len()));
        assert(ok == all_same_width(rows_v));
    }
    if !ok {
        let msg = sizes_message(&rows);
        proof {
            lemma_row_widths(rows@);
            lemma_widths_of(rows_v);
            assert forall|a: int| 0 <= a < rows@.len() implies #[trigger] row_widths(rows@)[a]
                == widths_of(rows_v)[a] by {
                assert(rows_v[a] == expr_nodes_view(rows@[a]@));
                lemma_expr_nodes_view(rows@[a]@);
            }
            assert(row_widths(rows@) =~= widths_of(rows_v));
        }
        return (Node { span: sp, data: Expr::Error(msg) }, p);
    }
    let ghost rows_view: Seq<Seq<Node<Expr>>> = rows@.map_values(|v: Vec<Node<Expr>>| v@);
    proof {
        assert forall|a: int| 0 <= a < rows_view.len() implies (#[trigger] rows_view[a]).len()
            == width by {
            assert(rows_view[a] == rows@[a]@);
        }
        lemma_concat_rows_len(rows_view, width as int);
        lemma_concat_rows_view(rows@);
    }
    let m = Matrix::from_vecs(rows);
    proof {
        lemma_concat_rows_all_wf(rows_view);
        lemma_expr_nodes_view(m.data@);
        assert(m.data@.len() == rows_view.len() * (width as int));
        assert(rows_view.len() * (width as int) >= width as int && (rows_view.len() * (
        width as int)) % (width as int) == 0) by (nonlinear_arith)
            requires
                width >= 1,
                rows_view.len() >= 1,
        ;
        assert forall|k2: int| 0 <= k2 < expr_nodes_view(m.data@).len() implies expr_node_v_wf(
            #[trigger] expr_nodes_view(m.data@)[k2],
        ) by {
            assert(expr_nodes_view(m.data@)[k2] == expr_node_view(m.data@[k2]));
            assert(m.data@[k2] == concat_rows(rows_view)[k2]);
        }
        assert(expr_nodes_view(m.data@) == concat_rows(rows_v));
    }
    (Node { span: sp, data: Expr::Matrix(m) }, p)
}

/// Cells concatenated from well-formed rows are all well formed.
proof fn lemma_concat_rows_all_wf(rows: Seq<Seq<Node<Expr>>>)
    requires
        forall|a: int, b: int|
            0 <= a < rows.len() && 0 <= b < rows[a].len() ==> expr_node_v_wf(
                expr_node_view(#[trigger] rows[a][b]),
            ),
    ensures
        forall|k: int|
            0 <= k < concat_rows(rows).len() ==> expr_node_v_wf(
                expr_node_view(#[trigger] concat_rows(rows)[k]),
            ),
    decreases rows.len(),
{
    if rows.len() > 0 {
        assert forall|a: int, b: int|
            0 <= a < rows.drop_first().len() && 0 <= b < rows.drop_first()[a].len() implies expr_node_v_wf(
            expr_node_view(#[trigger] rows.drop_first()[a][b]),
        ) by {
            assert(rows.drop_first()[a] == rows[a + 1]);
        }
        lemma_concat_rows_all_wf(rows.drop_first());
        assert forall|k: int| 0 <= k < concat_rows(rows).len() implies expr_node_v_wf(
            expr_node_view(#[trigger] concat_rows(rows)[k]),
        ) by {
            if k < rows[0].len() {
                assert(concat_rows(rows)[k] == rows[0][k]);
            } else {
                assert(concat_rows(rows)[k] == concat_rows(rows.drop_first())[k - rows[0].len()]);
            }
        }
    }
}

/// The sizing-error message: the distinct row widths, in the order first
/// seen.
fn sizes_message(rows: &Vec<Vec<Node<Expr>>>) -> (r: String)
    ensures
        r@ == spec_sizes_message(row_widths(rows@)),
{
    let ghost ws: Seq<int> = row_widths(rows@);
    proof {
        lemma_row_widths(rows@);
    }
    let mut seen: Vec<usize> = Vec::new();
    let mut k: usize = 0;
    proof {
        crate::text::lemma_offsets_index(seen@);
        assert(crate::text::offsets_as_ints(seen@) =~= Seq::<int>::empty());
        assert(ws.skip(0) =~= ws);
    }
    while k < rows.len()
        invariant
            k <= rows@.len(),
            ws == row_widths(rows@),
            spec_distinct_widths(ws.skip(k as int), crate::text::offsets_as_ints(seen@))
                == spec_distinct_widths(ws, Seq::empty()),
        decreases rows@.len() - k,
    {
        proof {
            lemma_row_widths(rows@);
        }
        let w = rows[k].len();
        let ghost seen_ints: Seq<int> = crate::text::offsets_as_ints(seen@);
        let mut present = false;
        let mut j: usize = 0;
        while j < seen.len()
            invariant
                j <= seen@.len(),
                seen_ints == crate::text::offsets_as_ints(seen@),
                present == exists|i: int| 0 <= i < j && (#[trigger] seen_ints[i]) == w as int,
            decreases seen@.len() - j,
        {
            proof {
                crate::text::lemma_offsets_index(seen@);
            }
            if seen[j] == w {
                present = true;
                proof {
                    assert(seen_ints[j as int] == w as int);
                }
            }
            j = j + 1;
        }
        proof {
            crate::text::lemma_offsets_index(seen@);
            assert(present == seen_ints.contains(w as int));
            assert(ws.skip(k as int)[0] == ws[k as int]);
            assert(ws.skip(k as int).drop_first() =~= ws.skip(k as int + 1));
        }
        if !present {
            let ghost before: Seq<usize> = seen@;
            seen.push(w);
            proof {
                crate::text::lemma_offsets_index(before);
                crate::text::lemma_offsets_index(seen@);
                assert(crate::text::offsets_as_ints(seen@) =~= crate::text::offsets_as_ints(
                    before,
                ).push(w as int));
            }
        }
        k = k + 1;
    }
    proof {
        assert(ws.skip(rows@.len() as int) =~= Seq::<int>::empty());
        assert(crate::text::offsets_as_ints(seen@) == spec_distinct_widths(ws, Seq::empty()));
    }
    let mut msg = String::from_str("Matrix sizing error: found lines of sizes {");
    let joined = join_widths(&seen, 0);
    msg.append(joined.as_str());
    msg.append("}");
    proof {
        assert(crate::text::offsets_as_ints(seen@).skip(0) =~= crate::text::offsets_as_ints(
            seen@,
        ));
        assert(msg@ =~= spec_sizes_message(ws));
    }
    msg
}

/// Parses a whole document into a block of statements ending with the
/// end marker. Parsing cannot fail: malformed input yields error leaves,
/// and the tree is exactly what the parsing recursion yields for the text.
#[verifier::rlimit(100)]
#[verifier::spinoff_prover]
pub fn parse(input: &str) -> (r: Node<Statement>)
    ensures
        stmt_node_v_wf(stmt_node_view(r)),
        stmt_view(r.data) is Block,
        stmt_view(r.data)->Block_0.len() >= 1,
        stmt_view(r.data)->Block_0.last().stmt is EOI,
        stmt_node_view(r) == spec_parse(input@),
{
    let chars = chars_of(input);
    if chars.len() == usize::MAX {
        // A document this large cannot be addressed; degrade to one error.
        let start = Position { line: 1, col: 1 };
        let sp = Span { start, end: start };
        let mut stmts: Vec<Node<Statement>> = Vec::new();
        stmts.push(Node { span: sp, data: Statement::Error(String::from_str("Input too large")) });
        stmts.push(Node { span: sp, data: Statement::EOI });
        proof {
            lemma_stmt_nodes_view(stmts@);
            assert(stmt_nodes_view(stmts@).last() == stmt_node_view(stmts@[1]));
            assert forall|j: int| 0 <= j < stmt_nodes_view(stmts@).len() implies stmt_node_v_wf(
                #[trigger] stmt_nodes_view(stmts@)[j],
            ) by {
                assert(stmt_nodes_view(stmts@)[j] == stmt_node_view(stmts@[j]));
            }
            assert(stmt_nodes_view(stmts@) =~= spec_parse(input@).stmt->Block_0);
        }
        return Node { span: sp, data: Statement::Block(stmts) };
    }
    let toks = OctaveParser::tokenize(&chars);
    let ghost tv: Seq<TokenV> = toks_view(toks@);
    proof {
        lemma_toks_view(toks@);
    }
    let mut stmts: Vec<Node<Statement>> = Vec::new();
    let mut pos: usize = 0;
    proof {
        assert(stmt_nodes_view(stmts@) =~= Seq::<crate::ast::StmtNodeV>::empty());
        assert(stmt_nodes_view(stmts@) + spec_parse_stmts(tv, 0) =~= spec_parse_stmts(tv, 0));
    }
    while pos < toks.len()
        invariant
            pos <= toks@.len(),
            toks_wf(toks@),
            tv == toks_view(toks@),
            tv.len() == toks@.len(),
            forall|j: int|
                0 <= j < stmts@.len() ==> stmt_node_v_wf(stmt_node_view(#[trigger] stmts@[j])),
            stmt_nodes_view(stmts@) + spec_parse_stmts(tv, pos as int) == spec_parse_stmts(
                tv,
                0,
            ),
        decreases toks@.len() - pos,
    {
        let ghost pos_e: int = pos as int;
        let ghost stmts_e: Seq<crate::ast::StmtNodeV> = stmt_nodes_view(stmts@);
        proof {
            lemma_toks_view(toks@);
        }
        if toks[pos].kind == TokKind::Newline || toks[pos].kind == TokKind::Semi {
            pos = pos + 1;
            proof {
                assert(spec_parse_stmts(tv, pos_e) == spec_parse_stmts(tv, pos_e + 1));
            }
        } else {
            let (st, p) = parse_statement(&toks, pos);
            proof {
                assert(step_to(pos_e, p as int, tv.len() as int) == p as int);
            }
            if p < toks.len() && toks[p].kind == TokKind::Semi {
                let sp = union(st.span, toks[p].span);
                let ghost stv: crate::ast::StmtNodeV = stmt_node_view(st);
                let inner = Node { span: st.span, data: Box::new(st.data) };
                let wrapped = Node { span: sp, data: Statement::IgnoreOutput(inner) };
                proof {
                    lemma_stmt_nodes_view_push(stmts@, wrapped);
                    assert(stmt_node_view(wrapped) == (crate::ast::StmtNodeV {
                        span: spec_union(stv.span, tv[p as int].span),
                        stmt: crate::ast::StmtV::IgnoreOutput(Box::new(stv)),
                    }));
                    assert(spec_parse_stmts(tv, pos_e) =~= seq![stmt_node_view(wrapped)]
                        + spec_parse_stmts(tv, p + 1));
                }
                stmts.push(wrapped);
                proof {
                    assert(stmt_nodes_view(stmts@) =~= stmts_e.push(stmt_node_view(wrapped)));
                    assert(stmt_nodes_view(stmts@) + spec_parse_stmts(tv, p + 1)
                        =~= stmts_e + spec_parse_stmts(tv, pos_e));
                }
                pos = p + 1;
            } else {
                proof {
                    lemma_stmt_nodes_view_push(stmts@, st);
                    assert(spec_parse_stmts(tv, pos_e) =~= seq![stmt_node_view(st)]
                        + spec_parse_stmts(tv, p as int));
                }
                stmts.push(st);
                proof {
                    assert(stmt_nodes_view(stmts@) + spec_parse_stmts(tv, p as int)
                        =~= stmts_e + spec_parse_stmts(tv, pos_e));
                }
                pos = p;
            }
        }
    }
    let end_pos = if toks.len() == 0 {
        Position { line: 1, col: 1 }
    } else {
        toks[toks.len() - 1].span.end
    };
    proof {
        assert(spec_parse_stmts(tv, toks@.len() as int) =~= Seq::<crate::ast::StmtNodeV>::empty());
        assert(stmt_nodes_view(stmts@) =~= spec_parse_stmts(tv, 0));
        if toks@.len() > 0 {
            assert(tv.last() == token_view(toks@[toks@.len() - 1]));
        }
    }
    let ghost before_eoi: Seq<Node<Statement>> = stmts@;
    let eoi = Node { span: Span { start: end_pos, end: end_pos }, data: Statement::EOI };
    proof {
        lemma_stmt_nodes_view_push(before_eoi, eoi);
    }
    stmts.push(eoi);
    let root_span = Span { start: Position { line: 1, col: 1 }, end: end_pos };
    proof {
        lemma_stmt_nodes_view(stmts@);
        assert(stmt_nodes_view(stmts@).last() == stmt_node_view(stmts@[stmts@.len() - 1]));
        assert forall|j: int| 0 <= j < stmt_nodes_view(stmts@).len() implies stmt_node_v_wf(
            #[trigger] stmt_nodes_view(stmts@)[j],
        ) by {
            assert(stmt_nodes_view(stmts@)[j] == stmt_node_view(stmts@[j]));
        }
        assert(stmt_nodes_view(stmts@) =~= spec_parse_stmts(tv, 0).push(stmt_node_view(eoi)));
        assert(stmt_nodes_view(stmts@) =~= spec_parse(input@).stmt->Block_0);
    }
    Node { span: root_span, data: Statement::Block(stmts) }
}

} // verus!
