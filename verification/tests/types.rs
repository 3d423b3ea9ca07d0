use rumoca::ast::{ComponentRefPart, ComponentReference, Expression, OpBinary, TerminalType, Token};
use rumoca::types::{
    check_equation_types, infer_expression_type, is_class_instance_type, type_from_name, DefinedSymbol, InferredType,
};

fn var(name: &str) -> Expression {
    Expression::ComponentReference(ComponentReference {
        local: false,
        parts: vec![ComponentRefPart { ident: Token { text: name.to_string(), ..Default::default() }, subs: None }],
    })
}

fn call(f: &str, args: Vec<Expression>) -> Expression {
    match var(f) {
        Expression::ComponentReference(c) => Expression::FunctionCall { comp: c, args },
        _ => unreachable!(),
    }
}

fn lit(t: TerminalType, text: &str) -> Expression {
    Expression::Terminal { terminal_type: t, token: Token { text: text.to_string(), ..Default::default() } }
}

fn sym(ty: &str, shape: Vec<usize>) -> DefinedSymbol {
    DefinedSymbol {
        line: 0,
        col: 0,
        name_len: 0,
        is_parameter: false,
        is_class: false,
        has_default: false,
        declared_type: ty.to_string(),
        shape,
    }
}

fn defs() -> Vec<(String, DefinedSymbol)> {
    vec![
        ("x".to_string(), sym("Real", vec![])),
        ("n".to_string(), sym("Integer", vec![])),
        ("b".to_string(), sym("Boolean", vec![])),
        ("v".to_string(), sym("Real", vec![3, 2])),
        ("m".to_string(), sym("Motor", vec![])),
    ]
}

fn text(t: &InferredType) -> String {
    t.to_text()
}

#[test]
fn references_and_literals() {
    let d = defs();
    assert_eq!(text(&infer_expression_type(&var("x"), &d)), "Real");
    assert_eq!(text(&infer_expression_type(&var("v"), &d)), "Real[2][3]");
    assert_eq!(text(&infer_expression_type(&var("m"), &d)), "Unknown");
    assert_eq!(text(&infer_expression_type(&var("time"), &d)), "Real");
    assert_eq!(text(&infer_expression_type(&var("zz"), &d)), "Unknown");
    assert_eq!(text(&infer_expression_type(&lit(TerminalType::Bool, "true"), &d)), "Boolean");
    assert_eq!(text(&infer_expression_type(&lit(TerminalType::String, "s"), &d)), "String");
}

#[test]
fn operators_and_calls() {
    let d = defs();
    let sum = Expression::Binary { op: OpBinary::Add, lhs: Box::new(var("n")), rhs: Box::new(var("n")) };
    assert_eq!(text(&infer_expression_type(&sum, &d)), "Integer");
    let mixed = Expression::Binary { op: OpBinary::Mul, lhs: Box::new(var("n")), rhs: Box::new(var("x")) };
    assert_eq!(text(&infer_expression_type(&mixed, &d)), "Real");
    let cmp = Expression::Binary { op: OpBinary::Lt, lhs: Box::new(var("x")), rhs: Box::new(var("n")) };
    assert_eq!(text(&infer_expression_type(&cmp, &d)), "Boolean");
    assert_eq!(text(&infer_expression_type(&call("sin", vec![var("x")]), &d)), "Real");
    assert_eq!(text(&infer_expression_type(&call("der", vec![var("v")]), &d)), "Real[2][3]");
    assert_eq!(text(&infer_expression_type(&call("size", vec![var("v")]), &d)), "Integer");
    assert_eq!(text(&infer_expression_type(&call("pre", vec![var("x")]), &d)), "Unknown");
    let arr = Expression::Array { elements: vec![var("n"), var("x")] };
    assert_eq!(text(&infer_expression_type(&arr, &d)), "Integer[2]");
    let range = Expression::Range { start: Box::new(var("n")), step: None, end: Box::new(var("n")) };
    assert_eq!(text(&infer_expression_type(&range, &d)), "Integer[:]");
}

#[test]
fn compatibility() {
    assert!(InferredType::Real.is_compatible_with(&InferredType::Integer));
    assert!(!InferredType::Boolean.is_compatible_with(&InferredType::Real));
    assert!(InferredType::Unknown.is_compatible_with(&InferredType::String));
    let a = InferredType::Array(Box::new(InferredType::Real), Some(3));
    let b = InferredType::Array(Box::new(InferredType::Integer), None);
    assert!(a.is_compatible_with(&b));
    assert!(!a.is_compatible_with(&InferredType::Real));
    assert!(a.is_numeric());
    assert!(!InferredType::Boolean.is_numeric());
}

#[test]
fn names_of_types() {
    assert_eq!(type_from_name("Integer"), InferredType::Integer);
    assert_eq!(type_from_name("Voltage"), InferredType::Unknown);
    assert!(is_class_instance_type("Motor"));
    assert!(!is_class_instance_type("StateSelect"));
}

#[test]
fn equation_issues() {
    let d = defs();
    let issues = check_equation_types(&var("b"), &var("x"), &d);
    let msgs: Vec<(String, bool)> = issues.iter().map(|i| (i.message.clone(), i.is_error)).collect();
    assert_eq!(
        msgs,
        vec![
            ("Type mismatch in equation: Boolean is not compatible with Real".to_string(), false),
            ("Cannot mix Boolean and numeric types in equation".to_string(), true),
        ]
    );
    assert!(check_equation_types(&var("x"), &var("n"), &d).is_empty());
}
