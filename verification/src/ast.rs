//! Abstract syntax tree of Modelica source code.
use vstd::prelude::*;

verus! {

/// A source location of a token.
#[derive(Debug, Default, Clone, PartialEq)]
pub struct Location {
    pub start_line: u32,
    pub start_column: u32,
    pub end_line: u32,
    pub end_column: u32,
    pub start: u32,
    pub end: u32,
    pub file_name: String,
}

/// Specialised kinds of Modelica classes.
#[derive(Debug, Default, Clone, Copy, PartialEq, Eq, Structural)]
pub enum ClassType {
    #[default]
    Model,
    Class,
    Block,
    Connector,
    Record,
    Type,
    Package,
    Function,
    Operator,
}

/// A lexical token: its text and where it stood in the source.
#[derive(Debug, Default, Clone)]
pub struct Token {
    pub text: String,
    pub location: Location,
    pub token_number: u32,
    pub token_type: u16,
}

/// A dotted name such as `Modelica.SIunits.Voltage`.
#[derive(Debug, Default, Clone)]
pub struct Name {
    pub name: Vec<Token>,
}

/// Binary operators of Modelica expressions.
#[derive(Debug, Default, Clone, Copy, PartialEq, Eq, Structural)]
pub enum OpBinary {
    #[default]
    Empty,
    Add,
    Sub,
    Mul,
    Div,
    Eq,
    Neq,
    Lt,
    Le,
    Gt,
    Ge,
    And,
    Or,
    Exp,
    AddElem,
    SubElem,
    MulElem,
    DivElem,
}

/// Unary operators of Modelica expressions.
#[derive(Debug, Default, Clone, Copy, PartialEq, Eq, Structural)]
pub enum OpUnary {
    #[default]
    Empty,
    Minus,
    Plus,
    DotMinus,
    DotPlus,
    Not,
}

/// Kinds of literal terminals.
#[derive(Debug, Default, Clone, Copy, PartialEq, Eq, Structural)]
pub enum TerminalType {
    #[default]
    Empty,
    UnsignedReal,
    UnsignedInteger,
    String,
    Bool,
    End,
}

/// One part of a component reference, `ident[subs]`.
#[derive(Debug, Default)]
pub struct ComponentRefPart {
    pub ident: Token,
    pub subs: Option<Vec<Subscript>>,
}

/// A possibly dotted, possibly subscripted reference such as `a.b[1].c`.
#[derive(Debug, Default)]
pub struct ComponentReference {
    pub local: bool,
    pub parts: Vec<ComponentRefPart>,
}

/// An array subscript.
#[derive(Debug, Default)]
pub enum Subscript {
    #[default]
    Empty,
    Expression(Expression),
    Range { token: Token },
}

/// Expressions.
#[derive(Debug, Default)]
pub enum Expression {
    #[default]
    Empty,
    Range { start: Box<Expression>, step: Option<Box<Expression>>, end: Box<Expression> },
    Unary { op: OpUnary, rhs: Box<Expression> },
    Binary { op: OpBinary, lhs: Box<Expression>, rhs: Box<Expression> },
    Terminal { terminal_type: TerminalType, token: Token },
    ComponentReference(ComponentReference),
    FunctionCall { comp: ComponentReference, args: Vec<Expression> },
    Array { elements: Vec<Expression> },
    Tuple { elements: Vec<Expression> },
    If { branches: Vec<ExpressionBranch>, else_branch: Box<Expression> },
    /// A named argument `name = value` of a call or modification.
    NamedArgument { name: Token, value: Box<Expression> },
}

/// One `cond then value` branch of an if-expression.
#[derive(Debug, Default)]
pub struct ExpressionBranch {
    pub cond: Expression,
    pub value: Expression,
}

/// A condition with the equations it guards.
#[derive(Debug, Default)]
pub struct EquationBlock {
    pub cond: Expression,
    pub eqs: Vec<Equation>,
}

/// A condition with the statements it guards.
#[derive(Debug, Default)]
pub struct StatementBlock {
    pub cond: Expression,
    pub stmts: Vec<Statement>,
}

/// A loop index `i in range` of a `for` clause.
#[derive(Debug, Default)]
pub struct ForIndex {
    pub ident: Token,
    pub range: Expression,
}

/// Equations.
#[derive(Debug, Default)]
pub enum Equation {
    #[default]
    Empty,
    Simple { lhs: Expression, rhs: Expression },
    Connect { lhs: ComponentReference, rhs: ComponentReference },
    For { indices: Vec<ForIndex>, equations: Vec<Equation> },
    When(Vec<EquationBlock>),
    If { cond_blocks: Vec<EquationBlock>, else_block: Option<Vec<Equation>> },
    FunctionCall { comp: ComponentReference, args: Vec<Expression> },
}

/// Algorithm statements.
#[derive(Debug, Default)]
pub enum Statement {
    #[default]
    Empty,
    Assignment { comp: ComponentReference, value: Expression },
    Return { token: Token },
    Break { token: Token },
    For { indices: Vec<ForIndex>, equations: Vec<Statement> },
    While(StatementBlock),
    If { cond_blocks: Vec<StatementBlock>, else_block: Option<Vec<Statement>> },
    When(Vec<StatementBlock>),
    FunctionCall { comp: ComponentReference, args: Vec<Expression> },
}

/// Variability prefix of a declaration.
#[derive(Debug, Default, Clone)]
pub enum Variability {
    #[default]
    Empty,
    Constant(Token),
    Discrete(Token),
    Parameter(Token),
}

/// Connection prefix of a declaration.
#[derive(Debug, Default, Clone)]
pub enum Connection {
    #[default]
    Empty,
    Flow(Token),
    Stream(Token),
}

/// Causality prefix of a declaration.
#[derive(Debug, Default, Clone)]
pub enum Causality {
    #[default]
    Empty,
    Input(Token),
    Output(Token),
}

/// A modification `name = value` in a declaration.
#[derive(Debug, Default)]
pub struct Modification {
    pub name: String,
    pub value: Expression,
}

/// A declared component (variable, parameter, sub-model instance).
#[derive(Debug, Default)]
pub struct Component {
    pub name: String,
    pub type_path: Name,
    pub variability: Variability,
    pub causality: Causality,
    pub connection: Connection,
    pub description: Vec<Token>,
    pub start: Expression,
    pub shape: Vec<Subscript>,
    pub modifications: Vec<Modification>,
    pub annotation: Vec<Expression>,
    pub location: Location,
}

/// An `extends` clause.
#[derive(Debug, Default, Clone)]
pub struct Extend {
    pub comp: Name,
    pub location: Location,
}

/// An `import` clause.
#[derive(Debug, Clone)]
pub enum Import {
    Qualified { path: Name, location: Location },
    Renamed { alias: Token, path: Name, location: Location },
    Unqualified { path: Name, location: Location },
    Selective { path: Name, names: Vec<Token>, location: Location },
}

/// A class definition (model, block, function, package, ...).
#[derive(Debug, Default)]
pub struct ClassDefinition {
    pub name: Token,
    pub class_type: ClassType,
    pub encapsulated: bool,
    pub extends: Vec<Extend>,
    pub imports: Vec<Import>,
    pub classes: Vec<ClassDefinition>,
    pub components: Vec<Component>,
    pub equations: Vec<Equation>,
    pub initial_equations: Vec<Equation>,
    pub algorithms: Vec<Vec<Statement>>,
    pub initial_algorithms: Vec<Vec<Statement>>,
    pub location: Location,
    /// The description strings after the class's name.
    pub description: Vec<Token>,
}

/// A parsed source file.
#[derive(Debug, Default)]
pub struct StoredDefinition {
    pub class_list: Vec<ClassDefinition>,
    pub within: Option<Name>,
}

/// The keyword that introduces a class of the given kind.
pub open spec fn class_keyword_spec(t: ClassType) -> Seq<char> {
    match t {
        ClassType::Model => "model"@,
        ClassType::Class => "class"@,
        ClassType::Block => "block"@,
        ClassType::Connector => "connector"@,
        ClassType::Record => "record"@,
        ClassType::Type => "type"@,
        ClassType::Package => "package"@,
        ClassType::Function => "function"@,
        ClassType::Operator => "operator"@,
    }
}

pub fn class_keyword(t: ClassType) -> (r: &'static str)
    ensures
        r@ == class_keyword_spec(t),
{
    match t {
        ClassType::Model => "model",
        ClassType::Class => "class",
        ClassType::Block => "block",
        ClassType::Connector => "connector",
        ClassType::Record => "record",
        ClassType::Type => "type",
        ClassType::Package => "package",
        ClassType::Function => "function",
        ClassType::Operator => "operator",
    }
}

} // verus!
