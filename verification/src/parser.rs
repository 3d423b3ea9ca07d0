//! Recursive-descent parser from tokens to the syntax tree.
//!
//! Each parsing function takes the token list and a position and, on
//! success, returns what it parsed with the position just past it; that
//! position is always further on and never past the end.
use vstd::prelude::*;
use crate::ast::{
    Causality, ClassDefinition, ClassType, Component, Connection, Extend, Import, Modification, Name,
    StoredDefinition, Variability, ComponentRefPart, ComponentReference, Equation, EquationBlock, Expression, ExpressionBranch, ForIndex,
    Location, OpBinary, OpUnary, Statement, StatementBlock, Subscript, TerminalType, Token,
};
use crate::lexer::{Keyword, LexToken, Symbol, TokenKind};
use crate::text::chars_to_string;

verus! {

/// A parse error: the position of the token that could not be parsed
/// (the number of tokens when the input ended too early).
#[derive(Debug, Clone, Copy, PartialEq, Eq)]
pub struct ParseError {
    pub pos: usize,
}

/// The parse of `T` ending at the returned position.
pub open spec fn advanced<T>(r: Result<(T, usize), ParseError>, toks: Seq<LexToken>, pos: int) -> bool {
    match r {
        Ok((_, p)) => pos < p <= toks.len(),
        Err(e) => e.pos <= toks.len(),
    }
}

/// Saturating conversion of a position to the 32-bit width of locations.
pub fn to_u32(x: usize) -> (r: u32)
    ensures
        r == if x <= u32::MAX { x as u32 } else { u32::MAX },
{
    if x <= 4294967295usize { x as u32 } else { 4294967295u32 }
}

/// The location a token spans.
pub fn token_location(t: &LexToken) -> (r: Location)
    ensures
        r.start_line == (if t.line <= u32::MAX { t.line as u32 } else { u32::MAX }),
{
    Location {
        start_line: to_u32(t.line),
        start_column: to_u32(t.column),
        end_line: to_u32(t.line),
        end_column: to_u32(t.column),
        start: to_u32(t.start),
        end: to_u32(t.end),
        file_name: String::new(),
    }
}

/// The location spanning from the start of one token to the end of another.
pub fn span_location(first: &LexToken, last: &LexToken) -> (r: Location)
    ensures
        r.start_line == (if first.line <= u32::MAX { first.line as u32 } else { u32::MAX }),
        r.start_column == (if first.column <= u32::MAX { first.column as u32 } else { u32::MAX }),
        r.end_line == (if last.line <= u32::MAX { last.line as u32 } else { u32::MAX }),
        r.end_column == (if last.column <= u32::MAX { last.column as u32 } else { u32::MAX }),
{
    Location {
        start_line: to_u32(first.line),
        start_column: to_u32(first.column),
        end_line: to_u32(last.line),
        end_column: to_u32(last.column),
        start: to_u32(first.start),
        end: to_u32(last.end),
        file_name: String::new(),
    }
}

/// The syntax-tree token for a lexical token, with the quotes of a string
/// literal left out of its text.
pub fn to_token(t: &LexToken) -> (r: Token)
    ensures
        t.kind != TokenKind::Str ==> r.text@ == t.text@,
        t.kind == TokenKind::Str && t.text@.len() >= 2 ==> r.text@ == t.text@.subrange(1, t.text@.len() - 1),
        r.location.start_line == (if t.line <= u32::MAX { t.line as u32 } else { u32::MAX }),
{
    let text = if t.kind == TokenKind::Str && t.text.len() >= 2 {
        let inner = crate::lexer::slice_chars(&t.text, 1, t.text.len() - 1);
        chars_to_string(&inner)
    } else {
        chars_to_string(&t.text)
    };
    Token { text, location: token_location(t), token_number: 0, token_type: 0 }
}

/// Whether the token at `pos` is the symbol `s`.
pub fn at_symbol(toks: &[LexToken], pos: usize, s: Symbol) -> (r: bool)
    ensures
        r == (pos < toks@.len() && toks@[pos as int].kind == TokenKind::Symbol(s)),
        toks@.len() <= usize::MAX,
{
    pos < toks.len() && toks[pos].kind == TokenKind::Symbol(s)
}

/// Whether the token at `pos` is the keyword `k`.
pub fn at_keyword(toks: &[LexToken], pos: usize, k: Keyword) -> (r: bool)
    ensures
        r == (pos < toks@.len() && toks@[pos as int].kind == TokenKind::Keyword(k)),
        toks@.len() <= usize::MAX,
{
    pos < toks.len() && toks[pos].kind == TokenKind::Keyword(k)
}

/// Whether the token at `pos` is an identifier.
pub fn at_ident(toks: &[LexToken], pos: usize) -> (r: bool)
    ensures
        r == (pos < toks@.len() && toks@[pos as int].kind == TokenKind::Ident),
        toks@.len() <= usize::MAX,
{
    pos < toks.len() && toks[pos].kind == TokenKind::Ident
}

/// Consumes the symbol `s` at `pos`.
pub fn expect_symbol(toks: &[LexToken], pos: usize, s: Symbol) -> (r: Result<usize, ParseError>)
    ensures
        match r {
            Ok(p) => p == pos + 1 && pos < toks@.len() && toks@[pos as int].kind == TokenKind::Symbol(s),
            Err(e) => e.pos == (if pos <= toks@.len() { pos } else { toks@.len() as usize })
                && !(pos < toks@.len() && toks@[pos as int].kind == TokenKind::Symbol(s)),
        },
{
    if at_symbol(toks, pos, s) {
        Ok(pos + 1)
    } else {
        Err(ParseError { pos: if pos <= toks.len() { pos } else { toks.len() } })
    }
}

/// Consumes the keyword `k` at `pos`.
pub fn expect_keyword(toks: &[LexToken], pos: usize, k: Keyword) -> (r: Result<usize, ParseError>)
    ensures
        match r {
            Ok(p) => p == pos + 1 && pos < toks@.len() && toks@[pos as int].kind == TokenKind::Keyword(k),
            Err(e) => e.pos == (if pos <= toks@.len() { pos } else { toks@.len() as usize })
                && !(pos < toks@.len() && toks@[pos as int].kind == TokenKind::Keyword(k)),
        },
{
    if at_keyword(toks, pos, k) {
        Ok(pos + 1)
    } else {
        Err(ParseError { pos: if pos <= toks.len() { pos } else { toks.len() } })
    }
}

/// Consumes an identifier at `pos`.
pub fn expect_ident(toks: &[LexToken], pos: usize) -> (r: Result<(Token, usize), ParseError>)
    ensures
        match r {
            Ok((t, p)) => p == pos + 1 && pos < toks@.len() && toks@[pos as int].kind == TokenKind::Ident
                && t.text@ == toks@[pos as int].text@,
            Err(e) => e.pos <= toks@.len() && !(pos < toks@.len() && toks@[pos as int].kind == TokenKind::Ident),
        },
{
    if at_ident(toks, pos) {
        Ok((to_token(&toks[pos]), pos + 1))
    } else {
        Err(ParseError { pos: if pos <= toks.len() { pos } else { toks.len() } })
    }
}

/// The error for an unexpected token at `pos`.
pub fn error_at(toks: &[LexToken], pos: usize) -> (e: ParseError)
    ensures
        e.pos <= toks@.len(),
{
    ParseError { pos: if pos <= toks.len() { pos } else { toks.len() } }
}


/// The precedence level of a binary operator, tightest first: 2 power,
/// 3 multiplicative, 4 additive, 5 relational, 7 `and`, 8 `or`.
pub open spec fn op_level(op: OpBinary) -> nat {
    match op {
        OpBinary::Exp => 2,
        OpBinary::Mul | OpBinary::Div | OpBinary::MulElem | OpBinary::DivElem => 3,
        OpBinary::Add | OpBinary::Sub | OpBinary::AddElem | OpBinary::SubElem => 4,
        OpBinary::Eq | OpBinary::Neq | OpBinary::Lt | OpBinary::Le | OpBinary::Gt | OpBinary::Ge => 5,
        OpBinary::And => 7,
        OpBinary::Or => 8,
        OpBinary::Empty => 0,
    }
}

/// The level of the operator at the top of an expression; 0 where it is
/// not a binary operation.
pub open spec fn top_level(e: Expression) -> nat {
    match e {
        Expression::Binary { op, .. } => op_level(op),
        _ => 0,
    }
}

/// Whether token `q` is an opening parenthesis.
pub open spec fn is_lparen(toks: Seq<LexToken>, q: int) -> bool {
    0 <= q < toks.len() && toks[q].kind == TokenKind::Symbol(Symbol::LParen)
}

/// Whether an expression parsed from tokens `pos..p` groups to the right only
/// where written: if its top is a binary operation whose right operand is a
/// binary operation binding no tighter, a parenthesis opens within the span.
pub open spec fn right_grouped(e: Expression, toks: Seq<LexToken>, pos: int, p: int) -> bool {
    match e {
        Expression::Binary { op, rhs, .. } => top_level(*rhs) >= op_level(op) ==> exists|q: int| pos < q < p && #[trigger] is_lparen(toks, q),
        _ => true,
    }
}

proof fn lemma_right_grouped_widen(e: Expression, toks: Seq<LexToken>, a: int, b: int, a2: int, b2: int)
    requires
        right_grouped(e, toks, a, b),
        a2 <= a,
        b <= b2,
    ensures
        right_grouped(e, toks, a2, b2),
{
    match e {
        Expression::Binary { op, rhs, .. } => {
            if top_level(*rhs) >= op_level(op) {
                let q = choose|q: int| a < q < b && #[trigger] is_lparen(toks, q);
                assert(a2 < q < b2 && is_lparen(toks, q));
            }
        },
        _ => {},
    }
}

/// Which binary operator of a precedence level the token at `pos` is.
/// Levels: 3 multiplicative, 4 additive, 5 relational, 7 `and`, 8 `or`.
fn binary_op_at(toks: &[LexToken], pos: usize, level: u8) -> (r: Option<OpBinary>)
    ensures
        r is Some ==> pos < toks@.len(),
        r matches Some(op) ==> op_level(op) == level,
        toks@.len() <= usize::MAX,
{
    if pos >= toks.len() {
        return None;
    }
    match toks[pos].kind {
        TokenKind::Symbol(s) => {
            if level == 3 {
                match s {
                    Symbol::Star => Some(OpBinary::Mul),
                    Symbol::Slash => Some(OpBinary::Div),
                    Symbol::DotStar => Some(OpBinary::MulElem),
                    Symbol::DotSlash => Some(OpBinary::DivElem),
                    _ => None,
                }
            } else if level == 4 {
                match s {
                    Symbol::Plus => Some(OpBinary::Add),
                    Symbol::Minus => Some(OpBinary::Sub),
                    Symbol::DotPlus => Some(OpBinary::AddElem),
                    Symbol::DotMinus => Some(OpBinary::SubElem),
                    _ => None,
                }
            } else if level == 5 {
                match s {
                    Symbol::Lt => Some(OpBinary::Lt),
                    Symbol::Le => Some(OpBinary::Le),
                    Symbol::Gt => Some(OpBinary::Gt),
                    Symbol::Ge => Some(OpBinary::Ge),
                    Symbol::EqEq => Some(OpBinary::Eq),
                    Symbol::Neq => Some(OpBinary::Neq),
                    _ => None,
                }
            } else {
                None
            }
        },
        TokenKind::Keyword(k) => {
            if level == 7 && k == Keyword::And {
                Some(OpBinary::And)
            } else if level == 8 && k == Keyword::Or {
                Some(OpBinary::Or)
            } else {
                None
            }
        },
        _ => None,
    }
}

/// Parses an expression at a precedence level, lowest binding first:
/// 10 expression (with `if`), 9 range `a:b:c`, 8 `or`, 7 `and`, 6 `not`,
/// 5 relation, 4 additive (with a leading sign), 3 multiplicative, 2 power.
pub fn parse_level(toks: &[LexToken], pos: usize, level: u8) -> (r: Result<(Expression, usize), ParseError>)
    requires
        2 <= level <= 10,
        pos <= toks@.len(),
    ensures
        advanced(r, toks@, pos as int),
        r matches Ok((e, p)) ==> (top_level(e) > level ==> is_lparen(toks@, pos as int)) && right_grouped(e, toks@, pos as int, p as int),
    decreases toks@.len() - pos, level,
{
    if level == 10 {
        if at_keyword(toks, pos, Keyword::If) {
            return parse_if_expression(toks, pos);
        }
        return parse_level(toks, pos, 9);
    }
    if level == 9 {
        let (first, p1) = match parse_level(toks, pos, 8) {
            Ok(x) => x,
            Err(e) => return Err(e),
        };
        if !at_symbol(toks, p1, Symbol::Colon) {
            return Ok((first, p1));
        }
        let (second, p2) = match parse_level(toks, p1 + 1, 8) {
            Ok(x) => x,
            Err(e) => return Err(e),
        };
        if !at_symbol(toks, p2, Symbol::Colon) {
            return Ok((Expression::Range { start: Box::new(first), step: None, end: Box::new(second) }, p2));
        }
        let (third, p3) = match parse_level(toks, p2 + 1, 8) {
            Ok(x) => x,
            Err(e) => return Err(e),
        };
        return Ok((
            Expression::Range { start: Box::new(first), step: Some(Box::new(second)), end: Box::new(third) },
            p3,
        ));
    }
    if level == 6 {
        if at_keyword(toks, pos, Keyword::Not) {
            let (inner, p) = match parse_level(toks, pos + 1, 5) {
                Ok(x) => x,
                Err(e) => return Err(e),
            };
            return Ok((Expression::Unary { op: OpUnary::Not, rhs: Box::new(inner) }, p));
        }
        return parse_level(toks, pos, 5);
    }
    if level == 5 {
        let (lhs, p1) = match parse_level(toks, pos, 4) {
            Ok(x) => x,
            Err(e) => return Err(e),
        };
        match binary_op_at(toks, p1, 5) {
            Some(op) => {
                let (rhs, p2) = match parse_level(toks, p1 + 1, 4) {
                    Ok(x) => x,
                    Err(e) => return Err(e),
                };
                proof {
                    if top_level(rhs) >= op_level(op) {
                        assert(is_lparen(toks@, p1 + 1));
                    }
                }
                return Ok((Expression::Binary { op, lhs: Box::new(lhs), rhs: Box::new(rhs) }, p2));
            },
            None => {
                return Ok((lhs, p1));
            },
        }
    }
    if level == 2 {
        let (base, p1) = match parse_primary(toks, pos) {
            Ok(x) => x,
            Err(e) => return Err(e),
        };
        if at_symbol(toks, p1, Symbol::Caret) {
            let (exponent, p2) = match parse_primary(toks, p1 + 1) {
                Ok(x) => x,
                Err(e) => return Err(e),
            };
            proof {
                if top_level(exponent) >= 2 {
                    assert(is_lparen(toks@, p1 + 1));
                }
            }
            return Ok((Expression::Binary { op: OpBinary::Exp, lhs: Box::new(base), rhs: Box::new(exponent) }, p2));
        }
        return Ok((base, p1));
    }
    // left-associative levels: 3, 4, 7, 8
    let mut start = pos;
    let mut sign = OpUnary::Empty;
    if level == 4 && pos < toks.len() {
        match toks[pos].kind {
            TokenKind::Symbol(Symbol::Minus) => {
                sign = OpUnary::Minus;
            },
            TokenKind::Symbol(Symbol::Plus) => {
                sign = OpUnary::Plus;
            },
            TokenKind::Symbol(Symbol::DotMinus) => {
                sign = OpUnary::DotMinus;
            },
            TokenKind::Symbol(Symbol::DotPlus) => {
                sign = OpUnary::DotPlus;
            },
            _ => {},
        }
        if sign != OpUnary::Empty {
            start = pos + 1;
        }
    }
    let (first, p1) = match parse_level(toks, start, level - 1) {
        Ok(x) => x,
        Err(e) => return Err(e),
    };
    let mut lhs = if sign != OpUnary::Empty {
        Expression::Unary { op: sign, rhs: Box::new(first) }
    } else {
        first
    };
    proof {
        if sign == OpUnary::Empty {
            assert(start == pos);
        }
        lemma_right_grouped_widen(first, toks@, start as int, p1 as int, pos as int, p1 as int);
    }
    let mut p = p1;
    loop
        invariant
            pos < p <= toks@.len(),
            3 <= level <= 8,
            top_level(lhs) > level ==> is_lparen(toks@, pos as int),
            right_grouped(lhs, toks@, pos as int, p as int),
        decreases toks@.len() - p,
    {
        match binary_op_at(toks, p, level) {
            Some(op) => {
                let (rhs, q) = match parse_level(toks, p + 1, level - 1) {
                    Ok(x) => x,
                    Err(e) => return Err(e),
                };
                proof {
                    if top_level(rhs) >= op_level(op) {
                        assert(is_lparen(toks@, p + 1));
                    }
                }
                lhs = Expression::Binary { op, lhs: Box::new(lhs), rhs: Box::new(rhs) };
                p = q;
            },
            None => {
                return Ok((lhs, p));
            },
        }
    }
}

/// Parses `if c then e {elseif c then e} else e` starting at `if`.
fn parse_if_expression(toks: &[LexToken], pos: usize) -> (r: Result<(Expression, usize), ParseError>)
    requires
        pos < toks@.len() <= usize::MAX,
    ensures
        advanced(r, toks@, pos as int),
        r matches Ok((e, _)) ==> e is If,
    decreases toks@.len() - pos, 1u8,
{
    let mut branches: Vec<ExpressionBranch> = Vec::new();
    let mut p = pos + 1;
    loop
        invariant
            pos < p <= toks@.len(),
        decreases toks@.len() - p,
    {
        let (cond, p1) = match parse_level(toks, p, 10) {
            Ok(x) => x,
            Err(e) => return Err(e),
        };
        let p2 = match expect_keyword(toks, p1, Keyword::Then) {
            Ok(q) => q,
            Err(e) => return Err(e),
        };
        let (value, p3) = match parse_level(toks, p2, 10) {
            Ok(x) => x,
            Err(e) => return Err(e),
        };
        branches.push(ExpressionBranch { cond, value });
        if at_keyword(toks, p3, Keyword::Elseif) {
            p = p3 + 1;
        } else {
            let p4 = match expect_keyword(toks, p3, Keyword::Else) {
                Ok(q) => q,
                Err(e) => return Err(e),
            };
            let (else_value, p5) = match parse_level(toks, p4, 10) {
                Ok(x) => x,
                Err(e) => return Err(e),
            };
            return Ok((Expression::If { branches, else_branch: Box::new(else_value) }, p5));
        }
    }
}

/// Parses a primary expression: a literal, a component reference or call,
/// a parenthesised expression or tuple, or an array `{...}`.
pub fn parse_primary(toks: &[LexToken], pos: usize) -> (r: Result<(Expression, usize), ParseError>)
    requires
        pos <= toks@.len(),
    ensures
        advanced(r, toks@, pos as int),
        r matches Ok((e, p)) ==> (e is Binary ==> is_lparen(toks@, pos as int)) && right_grouped(e, toks@, pos as int, p as int),
    decreases toks@.len() - pos, 1u8,
{
    if pos >= toks.len() {
        return Err(error_at(toks, pos));
    }
    match toks[pos].kind {
        TokenKind::UnsignedInteger => Ok((
            Expression::Terminal { terminal_type: TerminalType::UnsignedInteger, token: to_token(&toks[pos]) },
            pos + 1,
        )),
        TokenKind::UnsignedReal => Ok((
            Expression::Terminal { terminal_type: TerminalType::UnsignedReal, token: to_token(&toks[pos]) },
            pos + 1,
        )),
        TokenKind::Str => Ok((
            Expression::Terminal { terminal_type: TerminalType::String, token: to_token(&toks[pos]) },
            pos + 1,
        )),
        TokenKind::Keyword(Keyword::True) | TokenKind::Keyword(Keyword::False) => Ok((
            Expression::Terminal { terminal_type: TerminalType::Bool, token: to_token(&toks[pos]) },
            pos + 1,
        )),
        TokenKind::Keyword(Keyword::End) => Ok((
            Expression::Terminal { terminal_type: TerminalType::End, token: to_token(&toks[pos]) },
            pos + 1,
        )),
        TokenKind::Keyword(Keyword::Initial) => {
            if at_symbol(toks, pos + 1, Symbol::LParen) {
                let ident = to_token(&toks[pos]);
                let mut parts: Vec<ComponentRefPart> = Vec::new();
                parts.push(ComponentRefPart { ident, subs: None });
                let comp = ComponentReference { local: false, parts };
                let (args, p) = match parse_call_arguments(toks, pos + 2) {
                    Ok(x) => x,
                    Err(e) => return Err(e),
                };
                Ok((Expression::FunctionCall { comp, args }, p))
            } else {
                Err(error_at(toks, pos))
            }
        },
        TokenKind::Ident => {
            let (comp, p1) = match parse_component_reference(toks, pos) {
                Ok(x) => x,
                Err(e) => return Err(e),
            };
            if at_symbol(toks, p1, Symbol::LParen) {
                let (args, p2) = match parse_call_arguments(toks, p1 + 1) {
                    Ok(x) => x,
                    Err(e) => return Err(e),
                };
                Ok((Expression::FunctionCall { comp, args }, p2))
            } else {
                Ok((Expression::ComponentReference(comp), p1))
            }
        },
        TokenKind::Symbol(Symbol::LParen) => {
            let (first, p1) = match parse_level(toks, pos + 1, 10) {
                Ok(x) => x,
                Err(e) => return Err(e),
            };
            if at_symbol(toks, p1, Symbol::RParen) {
                proof {
                    lemma_right_grouped_widen(first, toks@, pos + 1, p1 as int, pos as int, p1 + 1);
                }
                return Ok((first, p1 + 1));
            }
            let mut elements: Vec<Expression> = Vec::new();
            elements.push(first);
            let mut p = p1;
            loop
                invariant
                    pos < p <= toks@.len(),
                decreases toks@.len() - p,
            {
                if at_symbol(toks, p, Symbol::RParen) {
                    return Ok((Expression::Tuple { elements }, p + 1));
                }
                let q = match expect_symbol(toks, p, Symbol::Comma) {
                    Ok(q) => q,
                    Err(e) => return Err(e),
                };
                let (e, q2) = match parse_level(toks, q, 10) {
                    Ok(x) => x,
                    Err(e) => return Err(e),
                };
                elements.push(e);
                p = q2;
            }
        },
        TokenKind::Symbol(Symbol::LBrace) => {
            let mut elements: Vec<Expression> = Vec::new();
            if at_symbol(toks, pos + 1, Symbol::RBrace) {
                return Ok((Expression::Array { elements }, pos + 2));
            }
            let mut p = pos + 1;
            loop
                invariant
                    pos < p <= toks@.len(),
                decreases toks@.len() - p,
            {
                let (e, q) = match parse_level(toks, p, 10) {
                    Ok(x) => x,
                    Err(e) => return Err(e),
                };
                elements.push(e);
                if at_symbol(toks, q, Symbol::Comma) {
                    p = q + 1;
                } else {
                    let q2 = match expect_symbol(toks, q, Symbol::RBrace) {
                        Ok(q2) => q2,
                        Err(e) => return Err(e),
                    };
                    return Ok((Expression::Array { elements }, q2));
                }
            }
        },
        _ => Err(error_at(toks, pos)),
    }
}

/// Parses the arguments of a call after its `(`, through the closing `)`.
/// An argument `name = value` becomes a named argument.
pub fn parse_call_arguments(toks: &[LexToken], pos: usize) -> (r: Result<(Vec<Expression>, usize), ParseError>)
    requires
        pos <= toks@.len(),
    ensures
        advanced(r, toks@, pos as int),
    decreases toks@.len() - pos + 1, 0u8,
{
    let mut args: Vec<Expression> = Vec::new();
    if at_symbol(toks, pos, Symbol::RParen) {
        return Ok((args, pos + 1));
    }
    let mut p = pos;
    loop
        invariant
            pos <= p <= toks@.len(),
        decreases toks@.len() - p,
    {
        let (arg, q) = if at_ident(toks, p) && at_symbol(toks, p + 1, Symbol::Equals) {
            let name = to_token(&toks[p]);
            let (value, q) = match parse_level(toks, p + 2, 10) {
                Ok(x) => x,
                Err(e) => return Err(e),
            };
            (Expression::NamedArgument { name, value: Box::new(value) }, q)
        } else {
            match parse_level(toks, p, 10) {
                Ok(x) => x,
                Err(e) => return Err(e),
            }
        };
        args.push(arg);
        if at_symbol(toks, q, Symbol::Comma) {
            p = q + 1;
        } else {
            let q2 = match expect_symbol(toks, q, Symbol::RParen) {
                Ok(q2) => q2,
                Err(e) => return Err(e),
            };
            return Ok((args, q2));
        }
    }
}

/// Parses a component reference `a[i].b.c[j, :]`.
pub fn parse_component_reference(toks: &[LexToken], pos: usize) -> (r: Result<(ComponentReference, usize), ParseError>)
    requires
        pos <= toks@.len(),
    ensures
        advanced(r, toks@, pos as int),
        r matches Ok((c, _)) ==> c.parts@.len() > 0,
    decreases toks@.len() - pos, 0u8,
{
    let mut parts: Vec<ComponentRefPart> = Vec::new();
    let mut p = pos;
    loop
        invariant
            pos <= p <= toks@.len(),
            parts@.len() > 0 ==> pos < p,
        decreases toks@.len() - p,
    {
        let (ident, p1) = match expect_ident(toks, p) {
            Ok(x) => x,
            Err(e) => return Err(e),
        };
        let mut p2 = p1;
        let mut subs: Option<Vec<Subscript>> = None;
        if at_symbol(toks, p1, Symbol::LBracket) {
            let (s, q) = match parse_subscripts(toks, p1 + 1) {
                Ok(x) => x,
                Err(e) => return Err(e),
            };
            subs = Some(s);
            p2 = q;
        }
        parts.push(ComponentRefPart { ident, subs });
        if at_symbol(toks, p2, Symbol::Dot) && at_ident(toks, p2 + 1) {
            p = p2 + 1;
        } else {
            return Ok((ComponentReference { local: false, parts }, p2));
        }
    }
}

/// Parses subscripts after a `[`, through the closing `]`.
pub fn parse_subscripts(toks: &[LexToken], pos: usize) -> (r: Result<(Vec<Subscript>, usize), ParseError>)
    requires
        pos <= toks@.len(),
    ensures
        advanced(r, toks@, pos as int),
    decreases toks@.len() - pos + 1, 0u8,
{
    let mut subs: Vec<Subscript> = Vec::new();
    let mut p = pos;
    loop
        invariant
            pos <= p <= toks@.len(),
        decreases toks@.len() - p,
    {
        let (sub, q) = if at_symbol(toks, p, Symbol::Colon) {
            (Subscript::Range { token: to_token(&toks[p]) }, p + 1)
        } else {
            match parse_level(toks, p, 10) {
                Ok((e, q)) => (Subscript::Expression(e), q),
                Err(e) => return Err(e),
            }
        };
        subs.push(sub);
        if at_symbol(toks, q, Symbol::Comma) {
            p = q + 1;
        } else {
            let q2 = match expect_symbol(toks, q, Symbol::RBracket) {
                Ok(q2) => q2,
                Err(e) => return Err(e),
            };
            return Ok((subs, q2));
        }
    }
}


/// A description and annotation following a declaration or equation.
pub struct TrailingComment {
    pub description: Vec<Token>,
    pub annotation: Vec<Expression>,
}

/// Parses an optional comment: string literals joined by `+`, then an
/// optional `annotation(...)`. May consume nothing.
pub fn parse_comment(toks: &[LexToken], pos: usize) -> (r: Result<(TrailingComment, usize), ParseError>)
    requires
        pos <= toks@.len(),
    ensures
        r matches Ok((_, p)) ==> pos <= p <= toks@.len(),
        r matches Err(e) ==> e.pos <= toks@.len(),
{
    let mut description: Vec<Token> = Vec::new();
    let mut p = pos;
    if p < toks.len() && toks[p].kind == TokenKind::Str {
        description.push(to_token(&toks[p]));
        p = p + 1;
        while at_symbol(toks, p, Symbol::Plus) && p + 1 < toks.len() && toks[p + 1].kind == TokenKind::Str
            invariant
                pos <= p <= toks@.len(),
            decreases toks@.len() - p,
        {
            description.push(to_token(&toks[p + 1]));
            p = p + 2;
        }
    }
    let mut annotation: Vec<Expression> = Vec::new();
    if at_keyword(toks, p, Keyword::Annotation) {
        let q = match expect_symbol(toks, p + 1, Symbol::LParen) {
            Ok(q) => q,
            Err(e) => return Err(e),
        };
        let (args, q2) = match parse_call_arguments(toks, q) {
            Ok(x) => x,
            Err(e) => return Err(e),
        };
        annotation = args;
        p = q2;
    }
    Ok((TrailingComment { description, annotation }, p))
}

/// Parses for-loop indices `i in r, j` up to `loop`.
fn parse_for_indices(toks: &[LexToken], pos: usize) -> (r: Result<(Vec<ForIndex>, usize), ParseError>)
    requires
        pos <= toks@.len(),
    ensures
        advanced(r, toks@, pos as int),
{
    let mut indices: Vec<ForIndex> = Vec::new();
    let mut p = pos;
    loop
        invariant
            pos <= p <= toks@.len(),
        decreases toks@.len() - p,
    {
        let (ident, p1) = match expect_ident(toks, p) {
            Ok(x) => x,
            Err(e) => return Err(e),
        };
        let mut p2 = p1;
        let mut range = Expression::Empty;
        if at_keyword(toks, p1, Keyword::In) {
            let (e, q) = match parse_level(toks, p1 + 1, 10) {
                Ok(x) => x,
                Err(e) => return Err(e),
            };
            range = e;
            p2 = q;
        }
        indices.push(ForIndex { ident, range });
        if at_symbol(toks, p2, Symbol::Comma) {
            p = p2 + 1;
        } else {
            return Ok((indices, p2));
        }
    }
}

/// Whether the token at `pos` ends a list of equations or statements.
fn at_list_end(toks: &[LexToken], pos: usize) -> (r: bool)
    ensures
        !r ==> pos < toks@.len(),
{
    if pos >= toks.len() {
        return true;
    }
    match toks[pos].kind {
        TokenKind::Keyword(k) => k == Keyword::End || k == Keyword::Else || k == Keyword::Elseif || k
            == Keyword::Elsewhen || k == Keyword::Equation || k == Keyword::Algorithm || k == Keyword::Initial
            || k == Keyword::Public || k == Keyword::Protected || k == Keyword::Annotation,
        _ => false,
    }
}

/// Parses equations until a keyword that ends the list.
pub fn parse_equation_list(toks: &[LexToken], pos: usize) -> (r: Result<(Vec<Equation>, usize), ParseError>)
    requires
        pos <= toks@.len(),
    ensures
        r matches Ok((_, p)) ==> pos <= p <= toks@.len(),
        r matches Err(e) ==> e.pos <= toks@.len(),
    decreases toks@.len() - pos + 1, 0u8,
{
    let mut eqs: Vec<Equation> = Vec::new();
    let mut p = pos;
    while !at_list_end(toks, p)
        invariant
            pos <= p <= toks@.len(),
        decreases toks@.len() - p,
    {
        let (eq, q) = match parse_equation(toks, p) {
            Ok(x) => x,
            Err(e) => return Err(e),
        };
        eqs.push(eq);
        p = q;
    }
    Ok((eqs, p))
}

/// Parses `end <keyword> ;`.
fn expect_end_of(toks: &[LexToken], pos: usize, k: Keyword) -> (r: Result<usize, ParseError>)
    ensures
        r matches Ok(p) ==> p == pos + 3 && p <= toks@.len(),
        r matches Err(e) ==> e.pos <= toks@.len(),
{
    let p1 = match expect_keyword(toks, pos, Keyword::End) {
        Ok(q) => q,
        Err(e) => return Err(e),
    };
    let p2 = match expect_keyword(toks, p1, k) {
        Ok(q) => q,
        Err(e) => return Err(e),
    };
    expect_symbol(toks, p2, Symbol::Semicolon)
}

/// Parses one equation, through its `;`.
pub fn parse_equation(toks: &[LexToken], pos: usize) -> (r: Result<(Equation, usize), ParseError>)
    requires
        pos <= toks@.len(),
    ensures
        advanced(r, toks@, pos as int),
    decreases toks@.len() - pos, 1u8,
{
    if at_keyword(toks, pos, Keyword::If) || at_keyword(toks, pos, Keyword::When) {
        let is_if = at_keyword(toks, pos, Keyword::If);
        let mut blocks: Vec<EquationBlock> = Vec::new();
        let mut p = pos + 1;
        loop
            invariant
                pos < p <= toks@.len(),
            decreases toks@.len() - p,
        {
            let (cond, p1) = match parse_level(toks, p, 10) {
                Ok(x) => x,
                Err(e) => return Err(e),
            };
            let p2 = match expect_keyword(toks, p1, Keyword::Then) {
                Ok(q) => q,
                Err(e) => return Err(e),
            };
            let (eqs, p3) = match parse_equation_list(toks, p2) {
                Ok(x) => x,
                Err(e) => return Err(e),
            };
            blocks.push(EquationBlock { cond, eqs });
            if (is_if && at_keyword(toks, p3, Keyword::Elseif)) || (!is_if && at_keyword(toks, p3, Keyword::Elsewhen)) {
                p = p3 + 1;
            } else if is_if {
                let mut else_block: Option<Vec<Equation>> = None;
                let mut p4 = p3;
                if at_keyword(toks, p3, Keyword::Else) {
                    let (eqs2, q) = match parse_equation_list(toks, p3 + 1) {
                        Ok(x) => x,
                        Err(e) => return Err(e),
                    };
                    else_block = Some(eqs2);
                    p4 = q;
                }
                let p5 = match expect_end_of(toks, p4, Keyword::If) {
                    Ok(q) => q,
                    Err(e) => return Err(e),
                };
                return Ok((Equation::If { cond_blocks: blocks, else_block }, p5));
            } else {
                let p5 = match expect_end_of(toks, p3, Keyword::When) {
                    Ok(q) => q,
                    Err(e) => return Err(e),
                };
                return Ok((Equation::When(blocks), p5));
            }
        }
    }
    if at_keyword(toks, pos, Keyword::For) {
        let (indices, p1) = match parse_for_indices(toks, pos + 1) {
            Ok(x) => x,
            Err(e) => return Err(e),
        };
        let p2 = match expect_keyword(toks, p1, Keyword::Loop) {
            Ok(q) => q,
            Err(e) => return Err(e),
        };
        let (equations, p3) = match parse_equation_list(toks, p2) {
            Ok(x) => x,
            Err(e) => return Err(e),
        };
        let p4 = match expect_end_of(toks, p3, Keyword::For) {
            Ok(q) => q,
            Err(e) => return Err(e),
        };
        return Ok((Equation::For { indices, equations }, p4));
    }
    if at_keyword(toks, pos, Keyword::Connect) {
        let p1 = match expect_symbol(toks, pos + 1, Symbol::LParen) {
            Ok(q) => q,
            Err(e) => return Err(e),
        };
        let (lhs, p2) = match parse_component_reference(toks, p1) {
            Ok(x) => x,
            Err(e) => return Err(e),
        };
        let p3 = match expect_symbol(toks, p2, Symbol::Comma) {
            Ok(q) => q,
            Err(e) => return Err(e),
        };
        let (rhs, p4) = match parse_component_reference(toks, p3) {
            Ok(x) => x,
            Err(e) => return Err(e),
        };
        let p5 = match expect_symbol(toks, p4, Symbol::RParen) {
            Ok(q) => q,
            Err(e) => return Err(e),
        };
        let (_c, p6) = match parse_comment(toks, p5) {
            Ok(x) => x,
            Err(e) => return Err(e),
        };
        let p7 = match expect_symbol(toks, p6, Symbol::Semicolon) {
            Ok(q) => q,
            Err(e) => return Err(e),
        };
        return Ok((Equation::Connect { lhs, rhs }, p7));
    }
    let (lhs, p1) = match parse_level(toks, pos, 9) {
        Ok(x) => x,
        Err(e) => return Err(e),
    };
    let mut p2 = p1;
    let eq = if at_symbol(toks, p1, Symbol::Equals) {
        let (rhs, q) = match parse_level(toks, p1 + 1, 10) {
            Ok(x) => x,
            Err(e) => return Err(e),
        };
        p2 = q;
        Equation::Simple { lhs, rhs }
    } else {
        match lhs {
            Expression::FunctionCall { comp, args } => Equation::FunctionCall { comp, args },
            _ => return Err(error_at(toks, p1)),
        }
    };
    let (_c, p3) = match parse_comment(toks, p2) {
        Ok(x) => x,
        Err(e) => return Err(e),
    };
    let p4 = match expect_symbol(toks, p3, Symbol::Semicolon) {
        Ok(q) => q,
        Err(e) => return Err(e),
    };
    Ok((eq, p4))
}

/// Parses statements until a keyword that ends the list.
pub fn parse_statement_list(toks: &[LexToken], pos: usize) -> (r: Result<(Vec<Statement>, usize), ParseError>)
    requires
        pos <= toks@.len(),
    ensures
        r matches Ok((_, p)) ==> pos <= p <= toks@.len(),
        r matches Err(e) ==> e.pos <= toks@.len(),
    decreases toks@.len() - pos + 1, 0u8,
{
    let mut stmts: Vec<Statement> = Vec::new();
    let mut p = pos;
    while !at_list_end(toks, p)
        invariant
            pos <= p <= toks@.len(),
        decreases toks@.len() - p,
    {
        let (st, q) = match parse_statement(toks, p) {
            Ok(x) => x,
            Err(e) => return Err(e),
        };
        stmts.push(st);
        p = q;
    }
    Ok((stmts, p))
}

/// Parses one statement, through its `;`.
pub fn parse_statement(toks: &[LexToken], pos: usize) -> (r: Result<(Statement, usize), ParseError>)
    requires
        pos <= toks@.len(),
    ensures
        advanced(r, toks@, pos as int),
    decreases toks@.len() - pos, 1u8,
{
    if at_keyword(toks, pos, Keyword::Return) || at_keyword(toks, pos, Keyword::Break) {
        let token = to_token(&toks[pos]);
        let is_return = at_keyword(toks, pos, Keyword::Return);
        let p1 = match expect_symbol(toks, pos + 1, Symbol::Semicolon) {
            Ok(q) => q,
            Err(e) => return Err(e),
        };
        return Ok((if is_return { Statement::Return { token } } else { Statement::Break { token } }, p1));
    }
    if at_keyword(toks, pos, Keyword::If) || at_keyword(toks, pos, Keyword::When) {
        let is_if = at_keyword(toks, pos, Keyword::If);
        let mut blocks: Vec<StatementBlock> = Vec::new();
        let mut p = pos + 1;
        loop
            invariant
                pos < p <= toks@.len(),
            decreases toks@.len() - p,
        {
            let (cond, p1) = match parse_level(toks, p, 10) {
                Ok(x) => x,
                Err(e) => return Err(e),
            };
            let p2 = match expect_keyword(toks, p1, Keyword::Then) {
                Ok(q) => q,
                Err(e) => return Err(e),
            };
            let (stmts, p3) = match parse_statement_list(toks, p2) {
                Ok(x) => x,
                Err(e) => return Err(e),
            };
            blocks.push(StatementBlock { cond, stmts });
            if (is_if && at_keyword(toks, p3, Keyword::Elseif)) || (!is_if && at_keyword(toks, p3, Keyword::Elsewhen)) {
                p = p3 + 1;
            } else if is_if {
                let mut else_block: Option<Vec<Statement>> = None;
                let mut p4 = p3;
                if at_keyword(toks, p3, Keyword::Else) {
                    let (s2, q) = match parse_statement_list(toks, p3 + 1) {
                        Ok(x) => x,
                        Err(e) => return Err(e),
                    };
                    else_block = Some(s2);
                    p4 = q;
                }
                let p5 = match expect_end_of(toks, p4, Keyword::If) {
                    Ok(q) => q,
                    Err(e) => return Err(e),
                };
                return Ok((Statement::If { cond_blocks: blocks, else_block }, p5));
            } else {
                let p5 = match expect_end_of(toks, p3, Keyword::When) {
                    Ok(q) => q,
                    Err(e) => return Err(e),
                };
                return Ok((Statement::When(blocks), p5));
            }
        }
    }
    if at_keyword(toks, pos, Keyword::For) {
        let (indices, p1) = match parse_for_indices(toks, pos + 1) {
            Ok(x) => x,
            Err(e) => return Err(e),
        };
        let p2 = match expect_keyword(toks, p1, Keyword::Loop) {
            Ok(q) => q,
            Err(e) => return Err(e),
        };
        let (equations, p3) = match parse_statement_list(toks, p2) {
            Ok(x) => x,
            Err(e) => return Err(e),
        };
        let p4 = match expect_end_of(toks, p3, Keyword::For) {
            Ok(q) => q,
            Err(e) => return Err(e),
        };
        return Ok((Statement::For { indices, equations }, p4));
    }
    if at_keyword(toks, pos, Keyword::While) {
        let (cond, p1) = match parse_level(toks, pos + 1, 10) {
            Ok(x) => x,
            Err(e) => return Err(e),
        };
        let p2 = match expect_keyword(toks, p1, Keyword::Loop) {
            Ok(q) => q,
            Err(e) => return Err(e),
        };
        let (stmts, p3) = match parse_statement_list(toks, p2) {
            Ok(x) => x,
            Err(e) => return Err(e),
        };
        let p4 = match expect_end_of(toks, p3, Keyword::While) {
            Ok(q) => q,
            Err(e) => return Err(e),
        };
        return Ok((Statement::While(StatementBlock { cond, stmts }), p4));
    }
    let (comp, p1) = match parse_component_reference(toks, pos) {
        Ok(x) => x,
        Err(e) => return Err(e),
    };
    let (st, p2) = if at_symbol(toks, p1, Symbol::Assign) {
        let (value, q) = match parse_level(toks, p1 + 1, 10) {
            Ok(x) => x,
            Err(e) => return Err(e),
        };
        (Statement::Assignment { comp, value }, q)
    } else if at_symbol(toks, p1, Symbol::LParen) {
        let (args, q) = match parse_call_arguments(toks, p1 + 1) {
            Ok(x) => x,
            Err(e) => return Err(e),
        };
        (Statement::FunctionCall { comp, args }, q)
    } else {
        return Err(error_at(toks, p1));
    };
    let (_c, p3) = match parse_comment(toks, p2) {
        Ok(x) => x,
        Err(e) => return Err(e),
    };
    let p4 = match expect_symbol(toks, p3, Symbol::Semicolon) {
        Ok(q) => q,
        Err(e) => return Err(e),
    };
    Ok((st, p4))
}


/// Parses a dotted name `a.b.c`.
pub fn parse_name(toks: &[LexToken], pos: usize) -> (r: Result<(Name, usize), ParseError>)
    requires
        pos <= toks@.len(),
    ensures
        advanced(r, toks@, pos as int),
        r matches Ok((n, _)) ==> n.name@.len() > 0,
{
    let mut name: Vec<Token> = Vec::new();
    let mut p = pos;
    loop
        invariant
            pos <= p <= toks@.len(),
            name@.len() > 0 ==> pos < p,
        decreases toks@.len() - p,
    {
        let (t, p1) = match expect_ident(toks, p) {
            Ok(x) => x,
            Err(e) => return Err(e),
        };
        name.push(t);
        if at_symbol(toks, p1, Symbol::Dot) && at_ident(toks, p1 + 1) {
            p = p1 + 1;
        } else {
            return Ok((Name { name }, p1));
        }
    }
}

/// Parses the arguments of a class modification after its `(`, through
/// the closing `)`: each is `name = value`.
fn parse_modifications(toks: &[LexToken], pos: usize) -> (r: Result<(Vec<Modification>, usize), ParseError>)
    requires
        pos <= toks@.len(),
    ensures
        advanced(r, toks@, pos as int),
{
    let mut mods: Vec<Modification> = Vec::new();
    if at_symbol(toks, pos, Symbol::RParen) {
        return Ok((mods, pos + 1));
    }
    let mut p = pos;
    loop
        invariant
            pos <= p <= toks@.len(),
        decreases toks@.len() - p,
    {
        let (ident, p1) = match expect_ident(toks, p) {
            Ok(x) => x,
            Err(e) => return Err(e),
        };
        let p2 = match expect_symbol(toks, p1, Symbol::Equals) {
            Ok(q) => q,
            Err(e) => return Err(e),
        };
        let (value, p3) = match parse_level(toks, p2, 10) {
            Ok(x) => x,
            Err(e) => return Err(e),
        };
        mods.push(Modification { name: ident.text, value });
        if at_symbol(toks, p3, Symbol::Comma) {
            p = p3 + 1;
        } else {
            let q = match expect_symbol(toks, p3, Symbol::RParen) {
                Ok(q) => q,
                Err(e) => return Err(e),
            };
            return Ok((mods, q));
        }
    }
}

/// Type prefixes of a component clause.
struct Prefixes {
    variability: Variability,
    causality: Causality,
    connection: Connection,
}

/// Parses the type prefixes (`flow`, `parameter`, `input`, ...) of a component clause.
fn parse_prefixes(toks: &[LexToken], pos: usize) -> (r: (Prefixes, usize))
    requires
        pos <= toks@.len(),
    ensures
        pos <= r.1 <= toks@.len(),
{
    let mut pre = Prefixes { variability: Variability::Empty, causality: Causality::Empty, connection: Connection::Empty };
    let mut p = pos;
    while p < toks.len()
        invariant
            pos <= p <= toks@.len(),
        decreases toks@.len() - p,
    {
        match toks[p].kind {
            TokenKind::Keyword(Keyword::Parameter) => {
                pre.variability = Variability::Parameter(to_token(&toks[p]));
            },
            TokenKind::Keyword(Keyword::Constant) => {
                pre.variability = Variability::Constant(to_token(&toks[p]));
            },
            TokenKind::Keyword(Keyword::Discrete) => {
                pre.variability = Variability::Discrete(to_token(&toks[p]));
            },
            TokenKind::Keyword(Keyword::Input) => {
                pre.causality = Causality::Input(to_token(&toks[p]));
            },
            TokenKind::Keyword(Keyword::Output) => {
                pre.causality = Causality::Output(to_token(&toks[p]));
            },
            TokenKind::Keyword(Keyword::Flow) => {
                pre.connection = Connection::Flow(to_token(&toks[p]));
            },
            TokenKind::Keyword(Keyword::Stream) => {
                pre.connection = Connection::Stream(to_token(&toks[p]));
            },
            _ => {
                return (pre, p);
            },
        }
        p = p + 1;
    }
    (pre, p)
}

/// Copies a dotted name.
pub fn copy_name(n: &Name) -> (r: Name)
    ensures
        r.name@.len() == n.name@.len(),
        forall|i: int| 0 <= i < n.name@.len() ==> (#[trigger] r.name@[i]).text@ == n.name@[i].text@,
{
    let mut v: Vec<Token> = Vec::new();
    let mut i: usize = 0;
    while i < n.name.len()
        invariant
            i <= n.name@.len(),
            v@.len() == i,
            forall|j: int| 0 <= j < i ==> (#[trigger] v@[j]).text@ == n.name@[j].text@,
        decreases n.name.len() - i,
    {
        v.push(copy_token(&n.name[i]));
        i = i + 1;
    }
    Name { name: v }
}

/// Copies a token.
pub fn copy_token(t: &Token) -> (r: Token)
    ensures
        r.text@ == t.text@,
        r.location.start_line == t.location.start_line,
        r.location.start_column == t.location.start_column,
        r.location.start == t.location.start,
        r.token_number == t.token_number,
        r.token_type == t.token_type,
{
    Token { text: t.text.clone(), location: copy_location(&t.location), token_number: t.token_number, token_type: t.token_type }
}

/// Copies a location.
pub fn copy_location(l: &Location) -> (r: Location)
    ensures
        r.start_line == l.start_line,
        r.start_column == l.start_column,
        r.end_line == l.end_line,
        r.end_column == l.end_column,
        r.start == l.start,
        r.end == l.end,
        r.file_name@ == l.file_name@,
{
    Location {
        start_line: l.start_line,
        start_column: l.start_column,
        end_line: l.end_line,
        end_column: l.end_column,
        start: l.start,
        end: l.end,
        file_name: l.file_name.clone(),
    }
}

fn copy_prefixes(p: &Prefixes) -> (r: Prefixes) {
    Prefixes {
        variability: match &p.variability {
            Variability::Empty => Variability::Empty,
            Variability::Constant(t) => Variability::Constant(copy_token(t)),
            Variability::Discrete(t) => Variability::Discrete(copy_token(t)),
            Variability::Parameter(t) => Variability::Parameter(copy_token(t)),
        },
        causality: match &p.causality {
            Causality::Empty => Causality::Empty,
            Causality::Input(t) => Causality::Input(copy_token(t)),
            Causality::Output(t) => Causality::Output(copy_token(t)),
        },
        connection: match &p.connection {
            Connection::Empty => Connection::Empty,
            Connection::Flow(t) => Connection::Flow(copy_token(t)),
            Connection::Stream(t) => Connection::Stream(copy_token(t)),
        },
    }
}

/// Parses a component clause `prefixes Type[dims] a[d] (mods) = e "doc", b;`
/// through its `;`, giving one component per declared name.
pub fn parse_component_clause(toks: &[LexToken], pos: usize) -> (r: Result<(Vec<Component>, usize), ParseError>)
    requires
        pos <= toks@.len(),
    ensures
        advanced(r, toks@, pos as int),
        r matches Ok((cs, _)) ==> cs@.len() > 0,
{
    let (pre, p0) = parse_prefixes(toks, pos);
    let (type_path, p1) = match parse_name(toks, p0) {
        Ok(x) => x,
        Err(e) => return Err(e),
    };
    let mut p = p1;
    if at_symbol(toks, p1, Symbol::LBracket) {
        // dimensions on the type apply to every declared name
        let (_dims, q) = match parse_subscripts(toks, p1 + 1) {
            Ok(x) => x,
            Err(e) => return Err(e),
        };
        p = q;
    }
    let mut comps: Vec<Component> = Vec::new();
    loop
        invariant
            pos < p <= toks@.len(),
        decreases toks@.len() - p,
    {
        let ident_pos = p;
        let (ident, p2) = match expect_ident(toks, p) {
            Ok(x) => x,
            Err(e) => return Err(e),
        };
        let mut q = p2;
        let mut shape: Vec<Subscript> = Vec::new();
        if at_symbol(toks, q, Symbol::LBracket) {
            let (dims, q2) = match parse_subscripts(toks, q + 1) {
                Ok(x) => x,
                Err(e) => return Err(e),
            };
            shape = dims;
            q = q2;
        }
        let mut modifications: Vec<Modification> = Vec::new();
        if at_symbol(toks, q, Symbol::LParen) {
            let (mods, q2) = match parse_modifications(toks, q + 1) {
                Ok(x) => x,
                Err(e) => return Err(e),
            };
            modifications = mods;
            q = q2;
        }
        let mut start = Expression::Empty;
        if at_symbol(toks, q, Symbol::Equals) || at_symbol(toks, q, Symbol::Assign) {
            let (e, q2) = match parse_level(toks, q + 1, 10) {
                Ok(x) => x,
                Err(e) => return Err(e),
            };
            start = e;
            q = q2;
        }
        let (c, q3) = match parse_comment(toks, q) {
            Ok(x) => x,
            Err(e) => return Err(e),
        };
        let location = token_location(&toks[ident_pos]);
        let pre_i = copy_prefixes(&pre);
        comps.push(Component {
            name: ident.text,
            type_path: copy_name(&type_path),
            variability: pre_i.variability,
            causality: pre_i.causality,
            connection: pre_i.connection,
            description: c.description,
            start,
            shape,
            modifications,
            annotation: c.annotation,
            location,
        });
        if at_symbol(toks, q3, Symbol::Comma) {
            p = q3 + 1;
        } else {
            let q4 = match expect_symbol(toks, q3, Symbol::Semicolon) {
                Ok(q4) => q4,
                Err(e) => return Err(e),
            };
            return Ok((comps, q4));
        }
    }
}

/// The class kind named by the keyword at `pos`, if it is one.
fn class_type_at(toks: &[LexToken], pos: usize) -> (r: Option<ClassType>)
    ensures
        r is Some ==> pos < toks@.len(),
{
    if pos >= toks.len() {
        return None;
    }
    match toks[pos].kind {
        TokenKind::Keyword(Keyword::Model) => Some(ClassType::Model),
        TokenKind::Keyword(Keyword::Class) => Some(ClassType::Class),
        TokenKind::Keyword(Keyword::Block) => Some(ClassType::Block),
        TokenKind::Keyword(Keyword::Connector) => Some(ClassType::Connector),
        TokenKind::Keyword(Keyword::Record) => Some(ClassType::Record),
        TokenKind::Keyword(Keyword::Type) => Some(ClassType::Type),
        TokenKind::Keyword(Keyword::Package) => Some(ClassType::Package),
        TokenKind::Keyword(Keyword::Function) => Some(ClassType::Function),
        TokenKind::Keyword(Keyword::Operator) => Some(ClassType::Operator),
        _ => None,
    }
}

/// Whether a class definition starts at `pos`.
fn at_class_start(toks: &[LexToken], pos: usize) -> (r: bool) {
    at_keyword(toks, pos, Keyword::Encapsulated) || at_keyword(toks, pos, Keyword::Partial) || class_type_at(toks, pos).is_some()
}

/// Parses a class definition through `end Name;`.
pub fn parse_class_definition(toks: &[LexToken], pos: usize) -> (r: Result<(ClassDefinition, usize), ParseError>)
    requires
        pos <= toks@.len(),
    ensures
        advanced(r, toks@, pos as int),
    decreases toks@.len() - pos, 2u8,
{
    let mut p = pos;
    let mut encapsulated = false;
    if at_keyword(toks, p, Keyword::Encapsulated) {
        encapsulated = true;
        p = p + 1;
    }
    if at_keyword(toks, p, Keyword::Partial) {
        p = p + 1;
    }
    let class_type = match class_type_at(toks, p) {
        Some(t) => t,
        None => return Err(error_at(toks, p)),
    };
    p = p + 1;
    if class_type == ClassType::Operator && (at_keyword(toks, p, Keyword::Record) || at_keyword(toks, p, Keyword::Function)) {
        p = p + 1;
    }
    let (name, p1) = match expect_ident(toks, p) {
        Ok(x) => x,
        Err(e) => return Err(e),
    };
    let (doc, p2) = match parse_comment(toks, p1) {
        Ok(x) => x,
        Err(e) => return Err(e),
    };
    let mut class = ClassDefinition {
        name,
        class_type,
        encapsulated,
        extends: Vec::new(),
        imports: Vec::new(),
        classes: Vec::new(),
        components: Vec::new(),
        equations: Vec::new(),
        initial_equations: Vec::new(),
        algorithms: Vec::new(),
        initial_algorithms: Vec::new(),
        location: Location {
            start_line: 0,
            start_column: 0,
            end_line: 0,
            end_column: 0,
            start: 0,
            end: 0,
            file_name: String::new(),
        },
        description: doc.description,
    };
    let p3 = match parse_composition(toks, p2, &mut class) {
        Ok(q) => q,
        Err(e) => return Err(e),
    };
    let p4 = match expect_keyword(toks, p3, Keyword::End) {
        Ok(q) => q,
        Err(e) => return Err(e),
    };
    let (_end_name, p5) = match expect_ident(toks, p4) {
        Ok(x) => x,
        Err(e) => return Err(e),
    };
    let p6 = match expect_symbol(toks, p5, Symbol::Semicolon) {
        Ok(q) => q,
        Err(e) => return Err(e),
    };
    class.location = span_location(&toks[pos], &toks[p6 - 1]);
    Ok((class, p6))
}

/// Parses the elements and sections of a class up to its `end`, adding them to `class`.
pub fn parse_composition(toks: &[LexToken], pos: usize, class: &mut ClassDefinition) -> (r: Result<usize, ParseError>)
    requires
        pos <= toks@.len(),
    ensures
        r matches Ok(p) ==> pos <= p <= toks@.len(),
        r matches Err(e) ==> e.pos <= toks@.len(),
    decreases toks@.len() - pos + 1, 0u8,
{
    let mut p = pos;
    loop
        invariant
            pos <= p <= toks@.len(),
        decreases toks@.len() - p,
    {
        if p >= toks.len() || at_keyword(toks, p, Keyword::End) {
            return Ok(p);
        }
        if at_keyword(toks, p, Keyword::Public) || at_keyword(toks, p, Keyword::Protected) {
            p = p + 1;
        } else if at_keyword(toks, p, Keyword::Equation) {
            let (eqs, q) = match parse_equation_list(toks, p + 1) {
                Ok(x) => x,
                Err(e) => return Err(e),
            };
            let mut eqs = eqs;
            class.equations.append(&mut eqs);
            p = q;
        } else if at_keyword(toks, p, Keyword::Initial) && at_keyword(toks, p + 1, Keyword::Equation) {
            let (eqs, q) = match parse_equation_list(toks, p + 2) {
                Ok(x) => x,
                Err(e) => return Err(e),
            };
            let mut eqs = eqs;
            class.initial_equations.append(&mut eqs);
            p = q;
        } else if at_keyword(toks, p, Keyword::Algorithm) {
            let (stmts, q) = match parse_statement_list(toks, p + 1) {
                Ok(x) => x,
                Err(e) => return Err(e),
            };
            class.algorithms.push(stmts);
            p = q;
        } else if at_keyword(toks, p, Keyword::Initial) && at_keyword(toks, p + 1, Keyword::Algorithm) {
            let (stmts, q) = match parse_statement_list(toks, p + 2) {
                Ok(x) => x,
                Err(e) => return Err(e),
            };
            class.initial_algorithms.push(stmts);
            p = q;
        } else if at_keyword(toks, p, Keyword::Annotation) {
            let (_c, q) = match parse_comment(toks, p) {
                Ok(x) => x,
                Err(e) => return Err(e),
            };
            let q2 = match expect_symbol(toks, q, Symbol::Semicolon) {
                Ok(q2) => q2,
                Err(e) => return Err(e),
            };
            p = q2;
        } else if at_keyword(toks, p, Keyword::Extends) {
            let location = token_location(&toks[p]);
            let (comp, q) = match parse_name(toks, p + 1) {
                Ok(x) => x,
                Err(e) => return Err(e),
            };
            let mut q1 = q;
            if at_symbol(toks, q, Symbol::LParen) {
                let (_mods, q2) = match parse_modifications(toks, q + 1) {
                    Ok(x) => x,
                    Err(e) => return Err(e),
                };
                q1 = q2;
            }
            let (_c, q3) = match parse_comment(toks, q1) {
                Ok(x) => x,
                Err(e) => return Err(e),
            };
            let q4 = match expect_symbol(toks, q3, Symbol::Semicolon) {
                Ok(q4) => q4,
                Err(e) => return Err(e),
            };
            class.extends.push(Extend { comp, location });
            p = q4;
        } else if at_keyword(toks, p, Keyword::Import) {
            let (imp, q) = match parse_import(toks, p) {
                Ok(x) => x,
                Err(e) => return Err(e),
            };
            class.imports.push(imp);
            p = q;
        } else if at_class_start(toks, p) {
            let (nested, q) = match parse_class_definition(toks, p) {
                Ok(x) => x,
                Err(e) => return Err(e),
            };
            class.classes.push(nested);
            p = q;
        } else {
            let (comps, q) = match parse_component_clause(toks, p) {
                Ok(x) => x,
                Err(e) => return Err(e),
            };
            let mut comps = comps;
            class.components.append(&mut comps);
            p = q;
        }
    }
}

/// Parses an import clause starting at `import`, through its `;`.
fn parse_import(toks: &[LexToken], pos: usize) -> (r: Result<(Import, usize), ParseError>)
    requires
        pos < toks@.len(),
    ensures
        advanced(r, toks@, pos as int),
{
    let location = token_location(&toks[pos]);
    let p0 = pos + 1;
    if at_ident(toks, p0) && at_symbol(toks, p0 + 1, Symbol::Equals) {
        let alias = to_token(&toks[p0]);
        let (path, q) = match parse_name(toks, p0 + 2) {
            Ok(x) => x,
            Err(e) => return Err(e),
        };
        let q2 = match expect_symbol(toks, q, Symbol::Semicolon) {
            Ok(q2) => q2,
            Err(e) => return Err(e),
        };
        return Ok((Import::Renamed { alias, path, location }, q2));
    }
    let (path, q) = match parse_name(toks, p0) {
        Ok(x) => x,
        Err(e) => return Err(e),
    };
    if at_symbol(toks, q, Symbol::DotStar) {
        let q2 = match expect_symbol(toks, q + 1, Symbol::Semicolon) {
            Ok(q2) => q2,
            Err(e) => return Err(e),
        };
        return Ok((Import::Unqualified { path, location }, q2));
    }
    if at_symbol(toks, q, Symbol::Dot) && at_symbol(toks, q + 1, Symbol::LBrace) {
        let mut names: Vec<Token> = Vec::new();
        let mut p = q + 2;
        loop
            invariant
                pos < p <= toks@.len(),
            decreases toks@.len() - p,
        {
            let (t, p1) = match expect_ident(toks, p) {
                Ok(x) => x,
                Err(e) => return Err(e),
            };
            names.push(t);
            if at_symbol(toks, p1, Symbol::Comma) {
                p = p1 + 1;
            } else {
                let p2 = match expect_symbol(toks, p1, Symbol::RBrace) {
                    Ok(p2) => p2,
                    Err(e) => return Err(e),
                };
                let p3 = match expect_symbol(toks, p2, Symbol::Semicolon) {
                    Ok(p3) => p3,
                    Err(e) => return Err(e),
                };
                return Ok((Import::Selective { path, names, location }, p3));
            }
        }
    }
    let q2 = match expect_symbol(toks, q, Symbol::Semicolon) {
        Ok(q2) => q2,
        Err(e) => return Err(e),
    };
    Ok((Import::Qualified { path, location }, q2))
}

/// Parses a whole file: an optional `within` clause, then class definitions
/// up to the end of the tokens.
pub fn parse_stored_definition(toks: &[LexToken]) -> (r: Result<StoredDefinition, ParseError>)
    ensures
        r matches Err(e) ==> e.pos <= toks@.len(),
{
    let mut p: usize = 0;
    let mut within: Option<Name> = None;
    if at_keyword(toks, 0, Keyword::Within) {
        if at_symbol(toks, 1, Symbol::Semicolon) {
            within = Some(Name { name: Vec::new() });
            p = 2;
        } else {
            let (n, q) = match parse_name(toks, 1) {
                Ok(x) => x,
                Err(e) => return Err(e),
            };
            let q2 = match expect_symbol(toks, q, Symbol::Semicolon) {
                Ok(q2) => q2,
                Err(e) => return Err(e),
            };
            within = Some(n);
            p = q2;
        }
    }
    let mut class_list: Vec<ClassDefinition> = Vec::new();
    while p < toks.len()
        invariant
            p <= toks@.len(),
        decreases toks@.len() - p,
    {
        let (c, q) = match parse_class_definition(toks, p) {
            Ok(x) => x,
            Err(e) => return Err(e),
        };
        class_list.push(c);
        p = q;
    }
    Ok(StoredDefinition { class_list, within })
}

} // verus!
