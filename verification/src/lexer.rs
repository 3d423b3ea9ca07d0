//! Lexical analysis of Modelica source text.
//!
//! The lexer splits the characters of a source file into tokens and
//! comments. On success every character of the input lies inside exactly one
//! token or comment, or is white space; each token's text is the slice of the
//! input it spans, and its kind agrees with that text.
use vstd::prelude::*;

verus! {

/// Reserved words of Modelica.
#[derive(Debug, Clone, Copy, PartialEq, Eq, Structural)]
pub enum Keyword {
    Algorithm,
    And,
    Annotation,
    Block,
    Break,
    Class,
    Connect,
    Connector,
    Constant,
    Discrete,
    Else,
    Elseif,
    Elsewhen,
    Encapsulated,
    End,
    Equation,
    Extends,
    False,
    Flow,
    For,
    Function,
    If,
    Import,
    In,
    Initial,
    Input,
    Loop,
    Model,
    Not,
    Operator,
    Or,
    Output,
    Package,
    Parameter,
    Partial,
    Protected,
    Public,
    Record,
    Return,
    Stream,
    Then,
    True,
    Type,
    When,
    While,
    Within,
}

/// Punctuation and operator symbols.
#[derive(Debug, Clone, Copy, PartialEq, Eq, Structural)]
pub enum Symbol {
    LParen,
    RParen,
    LBrace,
    RBrace,
    LBracket,
    RBracket,
    Comma,
    Semicolon,
    Colon,
    Dot,
    Assign,
    Equals,
    Plus,
    Minus,
    Star,
    Slash,
    Caret,
    DotPlus,
    DotMinus,
    DotStar,
    DotSlash,
    DotCaret,
    Lt,
    Le,
    Gt,
    Ge,
    EqEq,
    Neq,
}

/// The spelling of a keyword.
pub open spec fn keyword_text(k: Keyword) -> Seq<char> {
    match k {
        Keyword::Algorithm => seq!['a', 'l', 'g', 'o', 'r', 'i', 't', 'h', 'm'],
        Keyword::And => seq!['a', 'n', 'd'],
        Keyword::Annotation => seq!['a', 'n', 'n', 'o', 't', 'a', 't', 'i', 'o', 'n'],
        Keyword::Block => seq!['b', 'l', 'o', 'c', 'k'],
        Keyword::Break => seq!['b', 'r', 'e', 'a', 'k'],
        Keyword::Class => seq!['c', 'l', 'a', 's', 's'],
        Keyword::Connect => seq!['c', 'o', 'n', 'n', 'e', 'c', 't'],
        Keyword::Connector => seq!['c', 'o', 'n', 'n', 'e', 'c', 't', 'o', 'r'],
        Keyword::Constant => seq!['c', 'o', 'n', 's', 't', 'a', 'n', 't'],
        Keyword::Discrete => seq!['d', 'i', 's', 'c', 'r', 'e', 't', 'e'],
        Keyword::Else => seq!['e', 'l', 's', 'e'],
        Keyword::Elseif => seq!['e', 'l', 's', 'e', 'i', 'f'],
        Keyword::Elsewhen => seq!['e', 'l', 's', 'e', 'w', 'h', 'e', 'n'],
        Keyword::Encapsulated => seq!['e', 'n', 'c', 'a', 'p', 's', 'u', 'l', 'a', 't', 'e', 'd'],
        Keyword::End => seq!['e', 'n', 'd'],
        Keyword::Equation => seq!['e', 'q', 'u', 'a', 't', 'i', 'o', 'n'],
        Keyword::Extends => seq!['e', 'x', 't', 'e', 'n', 'd', 's'],
        Keyword::False => seq!['f', 'a', 'l', 's', 'e'],
        Keyword::Flow => seq!['f', 'l', 'o', 'w'],
        Keyword::For => seq!['f', 'o', 'r'],
        Keyword::Function => seq!['f', 'u', 'n', 'c', 't', 'i', 'o', 'n'],
        Keyword::If => seq!['i', 'f'],
        Keyword::Import => seq!['i', 'm', 'p', 'o', 'r', 't'],
        Keyword::In => seq!['i', 'n'],
        Keyword::Initial => seq!['i', 'n', 'i', 't', 'i', 'a', 'l'],
        Keyword::Input => seq!['i', 'n', 'p', 'u', 't'],
        Keyword::Loop => seq!['l', 'o', 'o', 'p'],
        Keyword::Model => seq!['m', 'o', 'd', 'e', 'l'],
        Keyword::Not => seq!['n', 'o', 't'],
        Keyword::Operator => seq!['o', 'p', 'e', 'r', 'a', 't', 'o', 'r'],
        Keyword::Or => seq!['o', 'r'],
        Keyword::Output => seq!['o', 'u', 't', 'p', 'u', 't'],
        Keyword::Package => seq!['p', 'a', 'c', 'k', 'a', 'g', 'e'],
        Keyword::Parameter => seq!['p', 'a', 'r', 'a', 'm', 'e', 't', 'e', 'r'],
        Keyword::Partial => seq!['p', 'a', 'r', 't', 'i', 'a', 'l'],
        Keyword::Protected => seq!['p', 'r', 'o', 't', 'e', 'c', 't', 'e', 'd'],
        Keyword::Public => seq!['p', 'u', 'b', 'l', 'i', 'c'],
        Keyword::Record => seq!['r', 'e', 'c', 'o', 'r', 'd'],
        Keyword::Return => seq!['r', 'e', 't', 'u', 'r', 'n'],
        Keyword::Stream => seq!['s', 't', 'r', 'e', 'a', 'm'],
        Keyword::Then => seq!['t', 'h', 'e', 'n'],
        Keyword::True => seq!['t', 'r', 'u', 'e'],
        Keyword::Type => seq!['t', 'y', 'p', 'e'],
        Keyword::When => seq!['w', 'h', 'e', 'n'],
        Keyword::While => seq!['w', 'h', 'i', 'l', 'e'],
        Keyword::Within => seq!['w', 'i', 't', 'h', 'i', 'n'],
    }
}

/// The spelling of a symbol.
pub open spec fn symbol_text(s: Symbol) -> Seq<char> {
    match s {
        Symbol::LParen => seq!['('],
        Symbol::RParen => seq![')'],
        Symbol::LBrace => seq!['{'],
        Symbol::RBrace => seq!['}'],
        Symbol::LBracket => seq!['['],
        Symbol::RBracket => seq![']'],
        Symbol::Comma => seq![','],
        Symbol::Semicolon => seq![';'],
        Symbol::Colon => seq![':'],
        Symbol::Dot => seq!['.'],
        Symbol::Assign => seq![':', '='],
        Symbol::Equals => seq!['='],
        Symbol::Plus => seq!['+'],
        Symbol::Minus => seq!['-'],
        Symbol::Star => seq!['*'],
        Symbol::Slash => seq!['/'],
        Symbol::Caret => seq!['^'],
        Symbol::DotPlus => seq!['.', '+'],
        Symbol::DotMinus => seq!['.', '-'],
        Symbol::DotStar => seq!['.', '*'],
        Symbol::DotSlash => seq!['.', '/'],
        Symbol::DotCaret => seq!['.', '^'],
        Symbol::Lt => seq!['<'],
        Symbol::Le => seq!['<', '='],
        Symbol::Gt => seq!['>'],
        Symbol::Ge => seq!['>', '='],
        Symbol::EqEq => seq!['=', '='],
        Symbol::Neq => seq!['<', '>'],
    }
}

/// The spelling of a keyword, as characters.
pub fn keyword_chars(k: Keyword) -> (r: &'static [char])
    ensures
        r@ == keyword_text(k),
{
    match k {
        Keyword::Algorithm => &['a', 'l', 'g', 'o', 'r', 'i', 't', 'h', 'm'],
        Keyword::And => &['a', 'n', 'd'],
        Keyword::Annotation => &['a', 'n', 'n', 'o', 't', 'a', 't', 'i', 'o', 'n'],
        Keyword::Block => &['b', 'l', 'o', 'c', 'k'],
        Keyword::Break => &['b', 'r', 'e', 'a', 'k'],
        Keyword::Class => &['c', 'l', 'a', 's', 's'],
        Keyword::Connect => &['c', 'o', 'n', 'n', 'e', 'c', 't'],
        Keyword::Connector => &['c', 'o', 'n', 'n', 'e', 'c', 't', 'o', 'r'],
        Keyword::Constant => &['c', 'o', 'n', 's', 't', 'a', 'n', 't'],
        Keyword::Discrete => &['d', 'i', 's', 'c', 'r', 'e', 't', 'e'],
        Keyword::Else => &['e', 'l', 's', 'e'],
        Keyword::Elseif => &['e', 'l', 's', 'e', 'i', 'f'],
        Keyword::Elsewhen => &['e', 'l', 's', 'e', 'w', 'h', 'e', 'n'],
        Keyword::Encapsulated => &['e', 'n', 'c', 'a', 'p', 's', 'u', 'l', 'a', 't', 'e', 'd'],
        Keyword::End => &['e', 'n', 'd'],
        Keyword::Equation => &['e', 'q', 'u', 'a', 't', 'i', 'o', 'n'],
        Keyword::Extends => &['e', 'x', 't', 'e', 'n', 'd', 's'],
        Keyword::False => &['f', 'a', 'l', 's', 'e'],
        Keyword::Flow => &['f', 'l', 'o', 'w'],
        Keyword::For => &['f', 'o', 'r'],
        Keyword::Function => &['f', 'u', 'n', 'c', 't', 'i', 'o', 'n'],
        Keyword::If => &['i', 'f'],
        Keyword::Import => &['i', 'm', 'p', 'o', 'r', 't'],
        Keyword::In => &['i', 'n'],
        Keyword::Initial => &['i', 'n', 'i', 't', 'i', 'a', 'l'],
        Keyword::Input => &['i', 'n', 'p', 'u', 't'],
        Keyword::Loop => &['l', 'o', 'o', 'p'],
        Keyword::Model => &['m', 'o', 'd', 'e', 'l'],
        Keyword::Not => &['n', 'o', 't'],
        Keyword::Operator => &['o', 'p', 'e', 'r', 'a', 't', 'o', 'r'],
        Keyword::Or => &['o', 'r'],
        Keyword::Output => &['o', 'u', 't', 'p', 'u', 't'],
        Keyword::Package => &['p', 'a', 'c', 'k', 'a', 'g', 'e'],
        Keyword::Parameter => &['p', 'a', 'r', 'a', 'm', 'e', 't', 'e', 'r'],
        Keyword::Partial => &['p', 'a', 'r', 't', 'i', 'a', 'l'],
        Keyword::Protected => &['p', 'r', 'o', 't', 'e', 'c', 't', 'e', 'd'],
        Keyword::Public => &['p', 'u', 'b', 'l', 'i', 'c'],
        Keyword::Record => &['r', 'e', 'c', 'o', 'r', 'd'],
        Keyword::Return => &['r', 'e', 't', 'u', 'r', 'n'],
        Keyword::Stream => &['s', 't', 'r', 'e', 'a', 'm'],
        Keyword::Then => &['t', 'h', 'e', 'n'],
        Keyword::True => &['t', 'r', 'u', 'e'],
        Keyword::Type => &['t', 'y', 'p', 'e'],
        Keyword::When => &['w', 'h', 'e', 'n'],
        Keyword::While => &['w', 'h', 'i', 'l', 'e'],
        Keyword::Within => &['w', 'i', 't', 'h', 'i', 'n'],
    }
}

/// Every keyword, in alphabetical order.
pub fn all_keywords() -> (r: Vec<Keyword>)
    ensures
        forall|k: Keyword| r@.contains(k),
{
    let r = vec![Keyword::Algorithm, Keyword::And, Keyword::Annotation, Keyword::Block, Keyword::Break, Keyword::Class, Keyword::Connect, Keyword::Connector, Keyword::Constant, Keyword::Discrete, Keyword::Else, Keyword::Elseif, Keyword::Elsewhen, Keyword::Encapsulated, Keyword::End, Keyword::Equation, Keyword::Extends, Keyword::False, Keyword::Flow, Keyword::For, Keyword::Function, Keyword::If, Keyword::Import, Keyword::In, Keyword::Initial, Keyword::Input, Keyword::Loop, Keyword::Model, Keyword::Not, Keyword::Operator, Keyword::Or, Keyword::Output, Keyword::Package, Keyword::Parameter, Keyword::Partial, Keyword::Protected, Keyword::Public, Keyword::Record, Keyword::Return, Keyword::Stream, Keyword::Then, Keyword::True, Keyword::Type, Keyword::When, Keyword::While, Keyword::Within];
    assert forall|k: Keyword| r@.contains(k) by {
        match k {
            Keyword::Algorithm => assert(r@[0] == k),
            Keyword::And => assert(r@[1] == k),
            Keyword::Annotation => assert(r@[2] == k),
            Keyword::Block => assert(r@[3] == k),
            Keyword::Break => assert(r@[4] == k),
            Keyword::Class => assert(r@[5] == k),
            Keyword::Connect => assert(r@[6] == k),
            Keyword::Connector => assert(r@[7] == k),
            Keyword::Constant => assert(r@[8] == k),
            Keyword::Discrete => assert(r@[9] == k),
            Keyword::Else => assert(r@[10] == k),
            Keyword::Elseif => assert(r@[11] == k),
            Keyword::Elsewhen => assert(r@[12] == k),
            Keyword::Encapsulated => assert(r@[13] == k),
            Keyword::End => assert(r@[14] == k),
            Keyword::Equation => assert(r@[15] == k),
            Keyword::Extends => assert(r@[16] == k),
            Keyword::False => assert(r@[17] == k),
            Keyword::Flow => assert(r@[18] == k),
            Keyword::For => assert(r@[19] == k),
            Keyword::Function => assert(r@[20] == k),
            Keyword::If => assert(r@[21] == k),
            Keyword::Import => assert(r@[22] == k),
            Keyword::In => assert(r@[23] == k),
            Keyword::Initial => assert(r@[24] == k),
            Keyword::Input => assert(r@[25] == k),
            Keyword::Loop => assert(r@[26] == k),
            Keyword::Model => assert(r@[27] == k),
            Keyword::Not => assert(r@[28] == k),
            Keyword::Operator => assert(r@[29] == k),
            Keyword::Or => assert(r@[30] == k),
            Keyword::Output => assert(r@[31] == k),
            Keyword::Package => assert(r@[32] == k),
            Keyword::Parameter => assert(r@[33] == k),
            Keyword::Partial => assert(r@[34] == k),
            Keyword::Protected => assert(r@[35] == k),
            Keyword::Public => assert(r@[36] == k),
            Keyword::Record => assert(r@[37] == k),
            Keyword::Return => assert(r@[38] == k),
            Keyword::Stream => assert(r@[39] == k),
            Keyword::Then => assert(r@[40] == k),
            Keyword::True => assert(r@[41] == k),
            Keyword::Type => assert(r@[42] == k),
            Keyword::When => assert(r@[43] == k),
            Keyword::While => assert(r@[44] == k),
            Keyword::Within => assert(r@[45] == k),
        }
    }
    r
}


/// ASCII letters and the underscore, which may start an identifier.
pub open spec fn is_letter(c: char) -> bool {
    ('a' <= c && c <= 'z') || ('A' <= c && c <= 'Z') || c == '_'
}

/// Decimal digits.
pub open spec fn is_digit(c: char) -> bool {
    '0' <= c && c <= '9'
}

/// Characters that may continue an identifier.
pub open spec fn is_ident_char(c: char) -> bool {
    is_letter(c) || is_digit(c)
}

/// White space between tokens.
pub open spec fn is_space(c: char) -> bool {
    c == ' ' || c == '\t' || c == '\n' || c == '\r'
}

/// The text of some keyword.
pub open spec fn is_keyword_text(s: Seq<char>) -> bool {
    exists|k: Keyword| keyword_text(k) == s
}

/// `s` occurs in `chars` at position `i`.
pub open spec fn occurs_at(chars: Seq<char>, i: int, s: Seq<char>) -> bool {
    0 <= i && i + s.len() <= chars.len() && chars.subrange(i, i + s.len()) == s
}

/// Whether two character slices are equal.
pub fn chars_equal(a: &[char], b: &[char]) -> (r: bool)
    ensures
        r == (a@ == b@),
{
    if a.len() != b.len() {
        return false;
    }
    let mut i: usize = 0;
    while i < a.len()
        invariant
            a@.len() == b@.len(),
            i <= a@.len(),
            forall|j: int| 0 <= j < i ==> a@[j] == b@[j],
        decreases a.len() - i,
    {
        if a[i] != b[i] {
            return false;
        }
        i = i + 1;
    }
    assert(a@ =~= b@);
    true
}

/// The keyword spelled by `text`, if any.
pub fn keyword_of(text: &[char]) -> (r: Option<Keyword>)
    ensures
        match r {
            Some(k) => keyword_text(k) == text@,
            None => !is_keyword_text(text@),
        },
{
    let all = all_keywords();
    let mut i: usize = 0;
    while i < all.len()
        invariant
            forall|k: Keyword| all@.contains(k),
            i <= all@.len(),
            forall|j: int| 0 <= j < i ==> keyword_text(#[trigger] all@[j]) != text@,
        decreases all.len() - i,
    {
        let k = all[i];
        if chars_equal(keyword_chars(k), text) {
            return Some(k);
        }
        i = i + 1;
    }
    assert forall|k: Keyword| keyword_text(k) != text@ by {
        assert(all@.contains(k));
        let j = choose|j: int| 0 <= j < all@.len() && all@[j] == k;
    }
    None
}

/// The symbol that starts at position `i`, taking the longest match.
pub fn symbol_at(chars: &[char], i: usize) -> (r: Option<Symbol>)
    requires
        i < chars@.len(),
    ensures
        match r {
            Some(s) => occurs_at(chars@, i as int, symbol_text(s)),
            None => forall|s: Symbol| !occurs_at(chars@, i as int, #[trigger] symbol_text(s)),
        },
{
    let c = chars[i];
    let has_next = i + 1 < chars.len();
    let d = if has_next { chars[i + 1] } else { ' ' };
    proof {
        if has_next {
            assert(chars@[i as int + 1] == d);
        }
    }
    let r = if c == '(' {
        Some(Symbol::LParen)
    } else if c == ')' {
        Some(Symbol::RParen)
    } else if c == '{' {
        Some(Symbol::LBrace)
    } else if c == '}' {
        Some(Symbol::RBrace)
    } else if c == '[' {
        Some(Symbol::LBracket)
    } else if c == ']' {
        Some(Symbol::RBracket)
    } else if c == ',' {
        Some(Symbol::Comma)
    } else if c == ';' {
        Some(Symbol::Semicolon)
    } else if c == ':' {
        if has_next && d == '=' { Some(Symbol::Assign) } else { Some(Symbol::Colon) }
    } else if c == '.' {
        if has_next && d == '+' {
            Some(Symbol::DotPlus)
        } else if has_next && d == '-' {
            Some(Symbol::DotMinus)
        } else if has_next && d == '*' {
            Some(Symbol::DotStar)
        } else if has_next && d == '/' {
            Some(Symbol::DotSlash)
        } else if has_next && d == '^' {
            Some(Symbol::DotCaret)
        } else {
            Some(Symbol::Dot)
        }
    } else if c == '=' {
        if has_next && d == '=' { Some(Symbol::EqEq) } else { Some(Symbol::Equals) }
    } else if c == '+' {
        Some(Symbol::Plus)
    } else if c == '-' {
        Some(Symbol::Minus)
    } else if c == '*' {
        Some(Symbol::Star)
    } else if c == '/' {
        Some(Symbol::Slash)
    } else if c == '^' {
        Some(Symbol::Caret)
    } else if c == '<' {
        if has_next && d == '=' {
            Some(Symbol::Le)
        } else if has_next && d == '>' {
            Some(Symbol::Neq)
        } else {
            Some(Symbol::Lt)
        }
    } else if c == '>' {
        if has_next && d == '=' { Some(Symbol::Ge) } else { Some(Symbol::Gt) }
    } else {
        None
    };
    proof {
        match r {
            Some(s) => {
                assert(chars@.subrange(i as int, i as int + symbol_text(s).len()) =~= symbol_text(s));
            },
            None => {
                assert forall|s: Symbol| !occurs_at(chars@, i as int, #[trigger] symbol_text(s)) by {
                    if occurs_at(chars@, i as int, symbol_text(s)) {
                        assert(chars@.subrange(i as int, i as int + symbol_text(s).len())[0] == symbol_text(s)[0]);
                    }
                }
            },
        }
    }
    r
}


/// The number of line breaks in `s`.
pub open spec fn newlines(s: Seq<char>) -> nat
    decreases s.len(),
{
    if s.len() == 0 {
        0
    } else {
        newlines(s.drop_last()) + if s.last() == '\n' { 1nat } else { 0nat }
    }
}

/// The 1-based line on which position `p` of `chars` lies.
pub open spec fn line_at(chars: Seq<char>, p: int) -> nat {
    1 + newlines(chars.take(p))
}

proof fn lemma_line_step(chars: Seq<char>, p: int)
    requires
        0 <= p < chars.len(),
    ensures
        line_at(chars, p + 1) == line_at(chars, p) + if chars[p] == '\n' { 1nat } else { 0nat },
{
    assert(chars.take(p + 1).drop_last() =~= chars.take(p));
}

/// Kinds of tokens.
#[derive(Debug, Clone, Copy, PartialEq, Eq, Structural)]
pub enum TokenKind {
    Ident,
    Keyword(Keyword),
    UnsignedInteger,
    UnsignedReal,
    Str,
    Symbol(Symbol),
}

/// A token with the span of the input it covers.
#[derive(Debug, Clone)]
pub struct LexToken {
    pub kind: TokenKind,
    pub text: Vec<char>,
    /// First position of the token.
    pub start: usize,
    /// One past its last position.
    pub end: usize,
    /// 1-based line of `start`.
    pub line: usize,
    /// 1-based column of `start`.
    pub column: usize,
}

/// A comment (`// ...` or `/* ... */`) with the span of the input it covers.
#[derive(Debug, Clone)]
pub struct LexComment {
    pub text: Vec<char>,
    pub start: usize,
    pub end: usize,
    pub line: usize,
}

/// The result of lexing: tokens and comments in source order.
#[derive(Debug, Clone)]
pub struct Lexed {
    pub tokens: Vec<LexToken>,
    pub comments: Vec<LexComment>,
}

/// Why lexing stopped.
#[derive(Debug, Clone, Copy, PartialEq, Eq, Structural)]
pub enum LexErrorKind {
    UnexpectedCharacter,
    UnterminatedString,
    UnterminatedQuotedIdent,
    UnterminatedComment,
}

/// A lexing error at a position of the input.
#[derive(Debug, Clone, Copy, PartialEq, Eq)]
pub struct LexError {
    pub kind: LexErrorKind,
    pub pos: usize,
    pub line: usize,
}

/// A token's kind agrees with its text.
pub open spec fn kind_ok(k: TokenKind, s: Seq<char>) -> bool {
    match k {
        TokenKind::Ident => s.len() > 0 && !is_keyword_text(s) && (
            (is_letter(s[0]) && forall|j: int| 0 <= j < s.len() ==> is_ident_char(#[trigger] s[j]))
            || (s.len() >= 2 && s[0] == '\'' && s.last() == '\'')),
        TokenKind::Keyword(kw) => s == keyword_text(kw),
        TokenKind::UnsignedInteger => s.len() > 0 && forall|j: int| 0 <= j < s.len() ==> is_digit(#[trigger] s[j]),
        TokenKind::UnsignedReal => s.len() > 0 && is_digit(s[0]),
        TokenKind::Str => s.len() >= 2 && s[0] == '"' && s.last() == '"',
        TokenKind::Symbol(y) => s == symbol_text(y),
    }
}

/// A token is the slice of `chars` it spans, on the line it reports.
pub open spec fn token_ok(chars: Seq<char>, t: LexToken) -> bool {
    &&& t.start < t.end <= chars.len()
    &&& t.text@ == chars.subrange(t.start as int, t.end as int)
    &&& kind_ok(t.kind, t.text@)
    &&& t.line == line_at(chars, t.start as int)
}

/// A comment is the slice of `chars` it spans, on the line it reports.
pub open spec fn comment_ok(chars: Seq<char>, c: LexComment) -> bool {
    &&& c.start + 2 <= c.end <= chars.len()
    &&& c.text@ == chars.subrange(c.start as int, c.end as int)
    &&& c.text@[0] == '/' && (c.text@[1] == '/' || c.text@[1] == '*')
    &&& c.line == line_at(chars, c.start as int)
}

/// Position `p` lies in a token, in a comment, or is white space.
pub open spec fn covered(chars: Seq<char>, toks: Seq<LexToken>, cms: Seq<LexComment>, p: int) -> bool {
    ||| is_space(chars[p])
    ||| exists|i: int| 0 <= i < toks.len() && toks[i].start <= p < #[trigger] toks[i].end
    ||| exists|i: int| 0 <= i < cms.len() && cms[i].start <= p < #[trigger] cms[i].end
}

/// Tokens and comments are well formed, in order, do not overlap and, up to
/// position `upto`, leave out white space only.
pub open spec fn lexed_ok(chars: Seq<char>, toks: Seq<LexToken>, cms: Seq<LexComment>, upto: int) -> bool {
    &&& forall|i: int| 0 <= i < toks.len() ==> token_ok(chars, #[trigger] toks[i])
    &&& forall|i: int| 0 <= i < cms.len() ==> comment_ok(chars, #[trigger] cms[i])
    &&& forall|i: int, j: int| 0 <= i < j < toks.len() ==> #[trigger] toks[i].end <= #[trigger] toks[j].start
    &&& forall|i: int, j: int| 0 <= i < j < cms.len() ==> #[trigger] cms[i].end <= #[trigger] cms[j].start
    &&& forall|i: int, j: int| 0 <= i < toks.len() && 0 <= j < cms.len() ==>
        #[trigger] toks[i].end <= #[trigger] cms[j].start || cms[j].end <= toks[i].start
    &&& forall|i: int| 0 <= i < toks.len() ==> #[trigger] toks[i].end <= upto
    &&& forall|i: int| 0 <= i < cms.len() ==> #[trigger] cms[i].end <= upto
    &&& forall|p: int| 0 <= p < upto ==> #[trigger] covered(chars, toks, cms, p)
}

fn scan_ident(chars: &[char], i: usize) -> (j: usize)
    requires
        chars@.len() < usize::MAX,
        i < chars@.len(),
        is_letter(chars@[i as int]),
    ensures
        i < j <= chars@.len(),
        forall|p: int| i <= p < j ==> is_ident_char(#[trigger] chars@[p]),
        j == chars@.len() || !is_ident_char(chars@[j as int]),
{
    let mut j = i + 1;
    while j < chars.len() && (is_letter_exec(chars[j]) || is_digit_exec(chars[j]))
        invariant
            i < j <= chars@.len(),
            forall|p: int| i <= p < j ==> is_ident_char(#[trigger] chars@[p]),
        decreases chars@.len() - j,
    {
        j = j + 1;
    }
    j
}

fn is_letter_exec(c: char) -> (r: bool)
    ensures
        r == is_letter(c),
{
    ('a' <= c && c <= 'z') || ('A' <= c && c <= 'Z') || c == '_'
}

fn is_digit_exec(c: char) -> (r: bool)
    ensures
        r == is_digit(c),
{
    '0' <= c && c <= '9'
}

fn scan_digits(chars: &[char], i: usize) -> (j: usize)
    requires
        i <= chars@.len(),
    ensures
        i <= j <= chars@.len(),
        forall|p: int| i <= p < j ==> is_digit(#[trigger] chars@[p]),
        j == chars@.len() || !is_digit(chars@[j as int]),
{
    let mut j = i;
    while j < chars.len() && is_digit_exec(chars[j])
        invariant
            i <= j <= chars@.len(),
            forall|p: int| i <= p < j ==> is_digit(#[trigger] chars@[p]),
        decreases chars@.len() - j,
    {
        j = j + 1;
    }
    j
}

/// Scans an unsigned number starting with a digit: digits, an optional
/// fraction and an optional exponent. Returns its end and whether it is real.
fn scan_number(chars: &[char], i: usize) -> (r: (usize, bool))
    requires
        chars@.len() < usize::MAX,
        i < chars@.len(),
        is_digit(chars@[i as int]),
    ensures
        i < r.0 <= chars@.len(),
        !r.1 ==> forall|p: int| i <= p < r.0 ==> is_digit(#[trigger] chars@[p]),
{
    let mut j = scan_digits(chars, i);
    let mut is_real = false;
    if j < chars.len() && chars[j] == '.' {
        is_real = true;
        j = scan_digits(chars, j + 1);
    }
    if j < chars.len() && (chars[j] == 'e' || chars[j] == 'E') {
        let mut k = j + 1;
        if k < chars.len() && (chars[k] == '+' || chars[k] == '-') {
            k = k + 1;
        }
        if k < chars.len() && is_digit_exec(chars[k]) {
            is_real = true;
            j = scan_digits(chars, k);
        }
    }
    (j, is_real)
}

/// Scans a string literal starting at its opening quote; `None` if it is not closed.
fn scan_string(chars: &[char], i: usize) -> (r: Option<usize>)
    requires
        chars@.len() < usize::MAX,
        i < chars@.len(),
        chars@[i as int] == '"',
    ensures
        r matches Some(j) ==> i + 2 <= j <= chars@.len() && chars@[j - 1] == '"',
{
    let mut j = i + 1;
    while j < chars.len()
        invariant
            i < j <= chars@.len(),
        decreases chars@.len() - j,
    {
        let c = chars[j];
        if c == '"' {
            return Some(j + 1);
        }
        if c == '\\' && j + 1 < chars.len() {
            j = j + 2;
        } else {
            j = j + 1;
        }
    }
    None
}

/// Scans a quoted identifier starting at its opening quote; `None` if it is not closed.
fn scan_quoted_ident(chars: &[char], i: usize) -> (r: Option<usize>)
    requires
        chars@.len() < usize::MAX,
        i < chars@.len(),
        chars@[i as int] == '\'',
    ensures
        r matches Some(j) ==> i + 2 <= j <= chars@.len() && chars@[j - 1] == '\'',
{
    let mut j = i + 1;
    while j < chars.len()
        invariant
            i < j <= chars@.len(),
        decreases chars@.len() - j,
    {
        let c = chars[j];
        if c == '\'' {
            return Some(j + 1);
        }
        if c == '\\' && j + 1 < chars.len() {
            j = j + 2;
        } else {
            j = j + 1;
        }
    }
    None
}

/// Scans a line comment up to (not including) the end of its line.
fn scan_line_comment(chars: &[char], i: usize) -> (j: usize)
    requires
        chars@.len() < usize::MAX,
        i + 2 <= chars@.len(),
    ensures
        i + 2 <= j <= chars@.len(),
{
    let mut j = i + 2;
    while j < chars.len() && chars[j] != '\n'
        invariant
            i + 2 <= j <= chars@.len(),
        decreases chars@.len() - j,
    {
        j = j + 1;
    }
    j
}

/// Scans a block comment up to and including its `*/`; `None` if it is not closed.
fn scan_block_comment(chars: &[char], i: usize) -> (r: Option<usize>)
    requires
        chars@.len() < usize::MAX,
        i + 2 <= chars@.len(),
    ensures
        r matches Some(j) ==> i + 4 <= j <= chars@.len(),
{
    let mut j = i + 2;
    while j + 1 < chars.len()
        invariant
            i + 2 <= j <= chars@.len(),
            chars@.len() < usize::MAX,
        decreases chars@.len() - j,
    {
        if chars[j] == '*' && chars[j + 1] == '/' {
            return Some(j + 2);
        }
        j = j + 1;
    }
    None
}

/// Copies `chars[start..end]`.
pub fn slice_chars(chars: &[char], start: usize, end: usize) -> (r: Vec<char>)
    requires
        start <= end <= chars@.len(),
    ensures
        r@ == chars@.subrange(start as int, end as int),
{
    let mut r: Vec<char> = Vec::new();
    let mut k = start;
    while k < end
        invariant
            start <= k <= end <= chars@.len(),
            r@ == chars@.subrange(start as int, k as int),
        decreases end - k,
    {
        r.push(chars[k]);
        proof {
            assert(r@ =~= chars@.subrange(start as int, k as int + 1));
        }
        k = k + 1;
    }
    r
}


/// The spelling of a symbol, as characters.
pub fn symbol_chars(s: Symbol) -> (r: &'static [char])
    ensures
        r@ == symbol_text(s),
{
    match s {
        Symbol::LParen => &['('],
        Symbol::RParen => &[')'],
        Symbol::LBrace => &['{'],
        Symbol::RBrace => &['}'],
        Symbol::LBracket => &['['],
        Symbol::RBracket => &[']'],
        Symbol::Comma => &[','],
        Symbol::Semicolon => &[';'],
        Symbol::Colon => &[':'],
        Symbol::Dot => &['.'],
        Symbol::Assign => &[':', '='],
        Symbol::Equals => &['='],
        Symbol::Plus => &['+'],
        Symbol::Minus => &['-'],
        Symbol::Star => &['*'],
        Symbol::Slash => &['/'],
        Symbol::Caret => &['^'],
        Symbol::DotPlus => &['.', '+'],
        Symbol::DotMinus => &['.', '-'],
        Symbol::DotStar => &['.', '*'],
        Symbol::DotSlash => &['.', '/'],
        Symbol::DotCaret => &['.', '^'],
        Symbol::Lt => &['<'],
        Symbol::Le => &['<', '='],
        Symbol::Gt => &['>'],
        Symbol::Ge => &['>', '='],
        Symbol::EqEq => &['=', '='],
        Symbol::Neq => &['<', '>'],
    }
}

proof fn lemma_newlines_bound(s: Seq<char>)
    ensures
        newlines(s) <= s.len(),
    decreases s.len(),
{
    if s.len() > 0 {
        lemma_newlines_bound(s.drop_last());
    }
}

/// Walks from `from` to `to`, counting lines; returns the line of `to` and
/// the position where that line starts.
fn advance_lines(chars: &[char], from: usize, to: usize, line: usize, line_start: usize) -> (r: (usize, usize))
    requires
        from <= to <= chars@.len(),
        chars@.len() < usize::MAX,
        line == line_at(chars@, from as int),
        line_start <= from,
    ensures
        r.0 == line_at(chars@, to as int),
        r.1 <= to,
{
    let mut k = from;
    let mut ln = line;
    let mut ls = line_start;
    while k < to
        invariant
            from <= k <= to <= chars@.len(),
            chars@.len() < usize::MAX,
            ln == line_at(chars@, k as int),
            ls <= k,
        decreases to - k,
    {
        proof {
            lemma_line_step(chars@, k as int);
            lemma_newlines_bound(chars@.take(k as int));
        }
        if chars[k] == '\n' {
            ln = ln + 1;
            ls = k + 1;
        }
        k = k + 1;
    }
    (ln, ls)
}

proof fn lemma_skip_space(chars: Seq<char>, toks: Seq<LexToken>, cms: Seq<LexComment>, i: int)
    requires
        lexed_ok(chars, toks, cms, i),
        0 <= i < chars.len(),
        is_space(chars[i]),
    ensures
        lexed_ok(chars, toks, cms, i + 1),
{
    assert forall|p: int| 0 <= p < i + 1 implies #[trigger] covered(chars, toks, cms, p) by {
        if p < i {
            assert(covered(chars, toks, cms, p));
        }
    }
}

proof fn lemma_push_token(chars: Seq<char>, toks: Seq<LexToken>, cms: Seq<LexComment>, t: LexToken)
    requires
        lexed_ok(chars, toks, cms, t.start as int),
        token_ok(chars, t),
    ensures
        lexed_ok(chars, toks.push(t), cms, t.end as int),
{
    let nt = toks.push(t);
    assert forall|i: int| 0 <= i < nt.len() implies token_ok(chars, #[trigger] nt[i]) by {
        if i < toks.len() {
            assert(nt[i] == toks[i]);
        }
    }
    assert forall|i: int, j: int| 0 <= i < j < nt.len() implies #[trigger] nt[i].end <= #[trigger] nt[j].start by {
        assert(nt[i] == toks[i]);
        if j < toks.len() {
            assert(nt[j] == toks[j]);
        }
    }
    assert forall|i: int, j: int| 0 <= i < nt.len() && 0 <= j < cms.len() implies
        #[trigger] nt[i].end <= #[trigger] cms[j].start || cms[j].end <= nt[i].start by {
        if i < toks.len() {
            assert(nt[i] == toks[i]);
        }
    }
    assert forall|i: int| 0 <= i < nt.len() implies #[trigger] nt[i].end <= t.end by {
        if i < toks.len() {
            assert(nt[i] == toks[i]);
        }
    }
    assert forall|p: int| 0 <= p < t.end implies #[trigger] covered(chars, nt, cms, p) by {
        if p < t.start {
            assert(covered(chars, toks, cms, p));
            if !is_space(chars[p]) {
                if exists|i: int| 0 <= i < toks.len() && toks[i].start <= p < #[trigger] toks[i].end {
                    let i = choose|i: int| 0 <= i < toks.len() && toks[i].start <= p < #[trigger] toks[i].end;
                    assert(nt[i] == toks[i]);
                }
            }
        } else {
            assert(nt[toks.len() as int] == t);
        }
    }
}

proof fn lemma_push_comment(chars: Seq<char>, toks: Seq<LexToken>, cms: Seq<LexComment>, c: LexComment)
    requires
        lexed_ok(chars, toks, cms, c.start as int),
        comment_ok(chars, c),
    ensures
        lexed_ok(chars, toks, cms.push(c), c.end as int),
{
    let nc = cms.push(c);
    assert forall|i: int| 0 <= i < nc.len() implies comment_ok(chars, #[trigger] nc[i]) by {
        if i < cms.len() {
            assert(nc[i] == cms[i]);
        }
    }
    assert forall|i: int, j: int| 0 <= i < j < nc.len() implies #[trigger] nc[i].end <= #[trigger] nc[j].start by {
        assert(nc[i] == cms[i]);
        if j < cms.len() {
            assert(nc[j] == cms[j]);
        }
    }
    assert forall|i: int, j: int| 0 <= i < toks.len() && 0 <= j < nc.len() implies
        #[trigger] toks[i].end <= #[trigger] nc[j].start || nc[j].end <= toks[i].start by {
        if j < cms.len() {
            assert(nc[j] == cms[j]);
        }
    }
    assert forall|i: int| 0 <= i < nc.len() implies #[trigger] nc[i].end <= c.end by {
        if i < cms.len() {
            assert(nc[i] == cms[i]);
        }
    }
    assert forall|p: int| 0 <= p < c.end implies #[trigger] covered(chars, toks, nc, p) by {
        if p < c.start {
            assert(covered(chars, toks, cms, p));
            if !is_space(chars[p]) {
                if exists|i: int| 0 <= i < cms.len() && cms[i].start <= p < #[trigger] cms[i].end {
                    let i = choose|i: int| 0 <= i < cms.len() && cms[i].start <= p < #[trigger] cms[i].end;
                    assert(nc[i] == cms[i]);
                }
            }
        } else {
            assert(nc[cms.len() as int] == c);
        }
    }
}

/// What a lexing error says of the input at its position.
pub open spec fn error_at(chars: Seq<char>, e: LexError) -> bool {
    let p = e.pos as int;
    let c = chars[p];
    &&& 0 <= p < chars.len()
    &&& e.line == line_at(chars, p)
    &&& match e.kind {
        LexErrorKind::UnexpectedCharacter => !is_space(c) && !is_letter(c) && !is_digit(c) && c != '"'
            && c != '\'' && forall|s: Symbol| !occurs_at(chars, p, #[trigger] symbol_text(s)),
        LexErrorKind::UnterminatedString => c == '"',
        LexErrorKind::UnterminatedQuotedIdent => c == '\'',
        LexErrorKind::UnterminatedComment => occurs_at(chars, p, seq!['/', '*']),
    }
}

/// Splits `chars` into tokens and comments.
pub fn lex(chars: &[char]) -> (r: Result<Lexed, LexError>)
    requires
        chars@.len() < usize::MAX,
    ensures
        r matches Ok(l) ==> lexed_ok(chars@, l.tokens@, l.comments@, chars@.len() as int),
        r matches Err(e) ==> error_at(chars@, e),
{
    let n = chars.len();
    let mut toks: Vec<LexToken> = Vec::new();
    let mut cms: Vec<LexComment> = Vec::new();
    let mut i: usize = 0;
    let mut line: usize = 1;
    let mut line_start: usize = 0;
    proof {
        assert(chars@.take(0) =~= Seq::<char>::empty());
    }
    while i < n
        invariant
            i <= n,
            n == chars@.len(),
            n < usize::MAX,
            line == line_at(chars@, i as int),
            line_start <= i,
            lexed_ok(chars@, toks@, cms@, i as int),
        decreases n - i,
    {
        let c = chars[i];
        if c == ' ' || c == '\t' || c == '\r' || c == '\n' {
            proof {
                lemma_skip_space(chars@, toks@, cms@, i as int);
            }
            let (l2, s2) = advance_lines(chars, i, i + 1, line, line_start);
            line = l2;
            line_start = s2;
            i = i + 1;
        } else {
            let column = i - line_start + 1;
            let has_next = i + 1 < n;
            let d = if has_next { chars[i + 1] } else { ' ' };
            if c == '/' && has_next && (d == '/' || d == '*') {
                let end = if d == '/' {
                    scan_line_comment(chars, i)
                } else {
                    match scan_block_comment(chars, i) {
                        Some(j) => j,
                        None => {
                            proof {
                                assert(chars@.subrange(i as int, i as int + 2) =~= seq!['/', '*']);
                            }
                            return Err(LexError { kind: LexErrorKind::UnterminatedComment, pos: i, line });
                        },
                    }
                };
                let text = slice_chars(chars, i, end);
                let cm = LexComment { text, start: i, end, line };
                proof {
                    assert(text@[0] == chars@[i as int]);
                    assert(text@[1] == chars@[i as int + 1]);
                    lemma_push_comment(chars@, toks@, cms@, cm);
                }
                cms.push(cm);
                let (l2, s2) = advance_lines(chars, i, end, line, line_start);
                line = l2;
                line_start = s2;
                i = end;
            } else {
                let mut end: usize = i;
                let mut kind = TokenKind::Ident;
                if is_letter_exec(c) {
                    end = scan_ident(chars, i);
                } else if c == '\'' {
                    match scan_quoted_ident(chars, i) {
                        Some(j) => {
                            end = j;
                        },
                        None => {
                            return Err(LexError { kind: LexErrorKind::UnterminatedQuotedIdent, pos: i, line });
                        },
                    }
                } else if is_digit_exec(c) {
                    let (j, is_real) = scan_number(chars, i);
                    end = j;
                    kind = if is_real { TokenKind::UnsignedReal } else { TokenKind::UnsignedInteger };
                } else if c == '"' {
                    match scan_string(chars, i) {
                        Some(j) => {
                            end = j;
                            kind = TokenKind::Str;
                        },
                        None => {
                            return Err(LexError { kind: LexErrorKind::UnterminatedString, pos: i, line });
                        },
                    }
                } else {
                    match symbol_at(chars, i) {
                        Some(sy) => {
                            end = i + symbol_chars(sy).len();
                            kind = TokenKind::Symbol(sy);
                        },
                        None => {
                            return Err(LexError { kind: LexErrorKind::UnexpectedCharacter, pos: i, line });
                        },
                    }
                }
                let text = slice_chars(chars, i, end);
                if is_letter_exec(c) || c == '\'' {
                    match keyword_of(&text) {
                        Some(k) => {
                            kind = TokenKind::Keyword(k);
                        },
                        None => {},
                    }
                }
                let t = LexToken { kind, text, start: i, end, line, column };
                proof {
                    assert(text@[0] == c);
                    if kind is UnsignedReal {
                        assert(is_digit(c));
                    }
                    if kind is Str {
                        assert(text@.last() == chars@[end - 1]);
                    }
                    if kind is Ident && c == '\'' {
                        assert(text@.last() == chars@[end - 1]);
                    }
                    if kind is Ident && c != '\'' {
                        assert forall|j: int| 0 <= j < text@.len() implies is_ident_char(#[trigger] text@[j]) by {
                            assert(text@[j] == chars@[i + j]);
                        }
                    }
                    if kind is UnsignedInteger {
                        assert forall|j: int| 0 <= j < text@.len() implies is_digit(#[trigger] text@[j]) by {
                            assert(text@[j] == chars@[i + j]);
                        }
                    }
                    lemma_push_token(chars@, toks@, cms@, t);
                }
                toks.push(t);
                let (l2, s2) = advance_lines(chars, i, end, line, line_start);
                line = l2;
                line_start = s2;
                i = end;
            }
        }
    }
    Ok(Lexed { tokens: toks, comments: cms })
}

} // verus!
