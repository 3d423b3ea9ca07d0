use rumoca::ast::{ComponentRefPart, ComponentReference, Equation, Expression, OpBinary, OpUnary, TerminalType, Token};
use rumoca::blt::cref_name_exec;
use rumoca::structural::{
    analyze_algebraic_loops, analyze_equation_structure, differentiate_equation, differentiate_expression,
    find_equations_to_differentiate, pantelides_index_reduction, tear_algebraic_loop, StructuralAnalysis,
};

fn make_var(name: &str) -> Expression {
    Expression::ComponentReference(ComponentReference {
        local: false,
        parts: vec![ComponentRefPart {
            ident: Token {
                text: name.to_string(),
                ..Default::default()
            },
            subs: None,
        }],
    })
}

fn make_der(var: Expression) -> Expression {
    Expression::FunctionCall {
        comp: ComponentReference {
            local: false,
            parts: vec![ComponentRefPart {
                ident: Token {
                    text: "der".to_string(),
                    ..Default::default()
                },
                subs: None,
            }],
        },
        args: vec![var],
    }
}

fn make_const(val: &str) -> Expression {
    Expression::Terminal {
        terminal_type: TerminalType::UnsignedInteger,
        token: Token {
            text: val.to_string(),
            ..Default::default()
        },
    }
}

fn make_mul(lhs: Expression, rhs: Expression) -> Expression {
    Expression::Binary { lhs: Box::new(lhs), op: OpBinary::Mul, rhs: Box::new(rhs) }
}

fn make_add(lhs: Expression, rhs: Expression) -> Expression {
    Expression::Binary { lhs: Box::new(lhs), op: OpBinary::Add, rhs: Box::new(rhs) }
}

fn make_sub(lhs: Expression, rhs: Expression) -> Expression {
    Expression::Binary { lhs: Box::new(lhs), op: OpBinary::Sub, rhs: Box::new(rhs) }
}

fn neg(e: Expression) -> Expression {
    Expression::Unary { op: OpUnary::Minus, rhs: Box::new(e) }
}

fn names(list: &[&str]) -> Vec<String> {
    list.iter().map(|s| s.to_string()).collect()
}

fn has(list: &[String], name: &str) -> bool {
    list.iter().any(|s| s == name)
}

fn cref_string(c: &ComponentReference) -> String {
    cref_name_exec(c).into_iter().collect()
}

fn pendulum() -> Vec<Equation> {
    vec![
        Equation::Simple { lhs: make_der(make_var("x")), rhs: make_var("vx") },
        Equation::Simple { lhs: make_der(make_var("y")), rhs: make_var("vy") },
        Equation::Simple { lhs: make_der(make_var("vx")), rhs: neg(make_mul(make_var("lambda"), make_var("x"))) },
        Equation::Simple {
            lhs: make_der(make_var("vy")),
            rhs: make_sub(neg(make_mul(make_var("lambda"), make_var("y"))), make_var("g")),
        },
        Equation::Simple {
            lhs: make_add(make_mul(make_var("x"), make_var("x")), make_mul(make_var("y"), make_var("y"))),
            rhs: make_mul(make_var("L"), make_var("L")),
        },
    ]
}

#[test]
fn test_equation_structure_analysis() {
    let eq = Equation::Simple { lhs: make_der(make_var("x")), rhs: make_var("v") };
    let structure = analyze_equation_structure(&eq);
    assert!(has(&structure.variables, "x"));
    assert!(has(&structure.variables, "v"));
    assert!(has(&structure.derivatives, "x"));
    assert!(!structure.is_constraint);
}

#[test]
fn test_constraint_detection() {
    let eq = Equation::Simple { lhs: make_var("x"), rhs: make_var("y") };
    let structure = analyze_equation_structure(&eq);
    assert!(structure.is_constraint);
}

#[test]
fn test_tearing_simple_loop() {
    let equations = vec![
        Equation::Simple { lhs: make_var("x"), rhs: make_add(make_var("y"), make_const("1")) },
        Equation::Simple { lhs: make_var("y"), rhs: make_add(make_var("x"), make_const("1")) },
    ];
    let variables = names(&["x", "y"]);
    let loop_info = tear_algebraic_loop(&equations, &vec![0, 1], &variables);
    assert_eq!(loop_info.size, 2);
    assert!(!loop_info.tearing_variables.is_empty());
}

#[test]
fn test_index_reduction_ode() {
    let equations = vec![Equation::Simple { lhs: make_der(make_var("x")), rhs: neg(make_var("x")) }];
    let states = names(&["x"]);
    let analysis = pantelides_index_reduction(&equations, &states, None);
    assert_eq!(analysis.dae_index, 0);
    assert!(analysis.equations_to_differentiate.is_empty());
    assert!(!analysis.is_singular);
}

#[test]
fn test_differentiate_expression() {
    let expr = make_var("x");
    let diff = differentiate_expression(&expr);
    if let Expression::FunctionCall { comp, args } = diff {
        assert_eq!(cref_string(&comp), "der");
        assert_eq!(args.len(), 1);
    } else {
        panic!("Expected function call");
    }
}

#[test]
fn test_differentiate_constant() {
    let expr = make_const("5");
    let diff = differentiate_expression(&expr);
    if let Expression::Terminal { token, .. } = diff {
        assert_eq!(token.text, "0");
    } else {
        panic!("Expected terminal");
    }
}

#[test]
fn test_pendulum_index3_dae() {
    let equations = pendulum();
    let states = names(&["x", "y", "vx", "vy"]);
    let algebraic = names(&["lambda"]);
    let analysis = pantelides_index_reduction(&equations, &states, Some(&algebraic));
    assert!(analysis.dae_index > 0, "Pendulum should be detected as high-index DAE (got index {})", analysis.dae_index);
    assert!(
        !analysis.equations_to_differentiate.is_empty(),
        "Should identify constraint equation for differentiation"
    );
    assert!(!analysis.is_singular, "Pendulum should not be structurally singular");
}

#[test]
fn test_pendulum_constraint_is_detected() {
    let constraint = Equation::Simple {
        lhs: make_add(make_mul(make_var("x"), make_var("x")), make_mul(make_var("y"), make_var("y"))),
        rhs: make_mul(make_var("L"), make_var("L")),
    };
    let structure = analyze_equation_structure(&constraint);
    assert!(structure.is_constraint, "x^2 + y^2 = L^2 should be detected as constraint");
    assert!(structure.derivatives.is_empty(), "Constraint should have no derivatives");
    assert!(has(&structure.variables, "x"));
    assert!(has(&structure.variables, "y"));
    assert!(has(&structure.variables, "L"));
}

#[test]
fn test_index1_dae() {
    let equations = vec![
        Equation::Simple { lhs: make_der(make_var("x")), rhs: neg(make_var("y")) },
        Equation::Simple { lhs: make_add(make_var("x"), make_var("y")), rhs: make_const("1") },
    ];
    let states = names(&["x"]);
    let algebraic = names(&["y"]);
    let analysis = pantelides_index_reduction(&equations, &states, Some(&algebraic));
    println!("Index-1 DAE test:");
    println!("  DAE Index: {}", analysis.dae_index);
    println!("  Is singular: {}", analysis.is_singular);
    assert!(analysis.dae_index <= 1, "Simple index-1 DAE should have index <= 1");
}

#[test]
fn test_algebraic_loop_in_pendulum() {
    let equations = vec![
        Equation::Simple { lhs: make_var("ax"), rhs: neg(make_mul(make_var("lambda"), make_var("x"))) },
        Equation::Simple {
            lhs: make_var("ay"),
            rhs: make_sub(neg(make_mul(make_var("lambda"), make_var("y"))), make_var("g")),
        },
        Equation::Simple {
            lhs: make_add(
                make_add(make_mul(make_var("ax"), make_var("x")), make_mul(make_var("ay"), make_var("y"))),
                make_add(make_mul(make_var("vx"), make_var("vx")), make_mul(make_var("vy"), make_var("vy"))),
            ),
            rhs: make_const("0"),
        },
    ];
    let variables = names(&["ax", "ay", "lambda"]);
    let loop_info = tear_algebraic_loop(&equations, &vec![0, 1, 2], &variables);
    println!("Pendulum algebraic loop:");
    println!("  Size: {}", loop_info.size);
    println!("  Tearing variables: {:?}", loop_info.tearing_variables);
    println!("  Residual variables: {:?}", loop_info.residual_variables);
    assert_eq!(loop_info.size, 3);
}

// Further cases of this library's own.

#[test]
fn pendulum_index_and_differentiated_equations() {
    let equations = pendulum();
    let states = names(&["x", "y", "vx", "vy"]);
    let algebraic = names(&["lambda"]);
    let analysis = pantelides_index_reduction(&equations, &states, Some(&algebraic));
    // the constraint, then its derivative, are differentiated once each
    assert_eq!(analysis.dae_index, 2);
    assert_eq!(analysis.equations_to_differentiate, vec![(4, 1), (5, 1)]);
    assert!(analysis.diagnostics.is_empty());
}

#[test]
fn singular_system_is_reported() {
    // one equation for the two unknowns y and w: nothing left to differentiate
    let equations = vec![Equation::Simple { lhs: make_var("y"), rhs: make_const("1") }];
    let states: Vec<String> = Vec::new();
    let algebraic = names(&["y", "w"]);
    let analysis = pantelides_index_reduction(&equations, &states, Some(&algebraic));
    assert!(analysis.is_singular);
    assert_eq!(analysis.dae_index, 0);
    assert_eq!(
        analysis.diagnostics,
        vec!["Structurally singular system: cannot find equations to differentiate".to_string()]
    );
}

#[test]
fn redundant_equations_do_not_converge() {
    // y = 1 and y = 2 for unknowns y and z: the spare equation is
    // differentiated again and again
    let equations = vec![
        Equation::Simple { lhs: make_var("y"), rhs: make_const("1") },
        Equation::Simple { lhs: make_var("y"), rhs: make_const("2") },
    ];
    let states: Vec<String> = Vec::new();
    let algebraic = names(&["y", "z"]);
    let analysis = pantelides_index_reduction(&equations, &states, Some(&algebraic));
    assert!(analysis.is_singular);
    assert_eq!(analysis.dae_index, 10);
    assert_eq!(analysis.diagnostics, vec!["Index reduction did not converge".to_string()]);
}

#[test]
fn default_analysis_is_empty() {
    let a = StructuralAnalysis::default();
    assert_eq!(a.dae_index, 0);
    assert!(a.equations_to_differentiate.is_empty() && a.diagnostics.is_empty() && !a.is_singular);
}

#[test]
fn product_rule() {
    // d/dt(a * b) = der(a) * b + a * der(b)
    let d = differentiate_expression(&make_mul(make_var("a"), make_var("b")));
    match d {
        Expression::Binary { op: OpBinary::Add, lhs, rhs } => {
            match *lhs {
                Expression::Binary { op: OpBinary::Mul, lhs: da, rhs: b } => {
                    assert!(matches!(*da, Expression::FunctionCall { .. }));
                    assert!(matches!(*b, Expression::ComponentReference(_)));
                },
                _ => panic!("expected der(a) * b"),
            }
            match *rhs {
                Expression::Binary { op: OpBinary::Mul, lhs: a, rhs: db } => {
                    assert!(matches!(*a, Expression::ComponentReference(_)));
                    assert!(matches!(*db, Expression::FunctionCall { .. }));
                },
                _ => panic!("expected a * der(b)"),
            }
        },
        _ => panic!("expected a sum"),
    }
}

#[test]
fn differentiate_equation_of_other_kinds_is_none() {
    assert!(differentiate_equation(&Equation::Empty).is_none());
    assert!(differentiate_equation(&Equation::Simple { lhs: make_var("x"), rhs: make_const("1") }).is_some());
}

#[test]
fn nested_derivative_reads_as_velocity() {
    // der(der(x)) counts as the derivative of vx (and of x)
    let eq = Equation::Simple { lhs: make_der(make_der(make_var("x"))), rhs: make_const("0") };
    let s = analyze_equation_structure(&eq);
    assert!(has(&s.derivatives, "vx"));
    assert!(has(&s.derivatives, "x"));
}

#[test]
fn constraints_preferred_at_level_zero() {
    let equations = vec![
        Equation::Simple { lhs: make_der(make_var("x")), rhs: make_var("y") },
        Equation::Simple { lhs: make_var("x"), rhs: make_var("y") },
    ];
    let structs: Vec<_> = equations.iter().map(analyze_equation_structure).collect();
    assert_eq!(find_equations_to_differentiate(&structs, &vec![0, 1]), vec![1]);
    assert_eq!(find_equations_to_differentiate(&structs, &vec![0]), vec![0]);
    assert!(find_equations_to_differentiate(&structs, &vec![]).is_empty());
}

#[test]
fn tearing_picks_the_most_shared_variable() {
    // a + b = 1, a + c = 2, b + c + a = 3: `a` occurs in all three
    let equations = vec![
        Equation::Simple { lhs: make_add(make_var("a"), make_var("b")), rhs: make_const("1") },
        Equation::Simple { lhs: make_add(make_var("a"), make_var("c")), rhs: make_const("2") },
        Equation::Simple { lhs: make_add(make_add(make_var("b"), make_var("c")), make_var("a")), rhs: make_const("3") },
    ];
    let variables = names(&["b", "c", "a"]);
    let l = tear_algebraic_loop(&equations, &vec![0, 1, 2], &variables);
    assert_eq!(l.tearing_variables, names(&["a"]));
    assert_eq!(l.residual_variables, names(&["b", "c"]));
}

#[test]
fn small_loops_are_not_torn() {
    let equations = vec![Equation::Simple { lhs: make_var("a"), rhs: make_const("1") }];
    let l = tear_algebraic_loop(&equations, &vec![0], &names(&["a", "a"]));
    assert!(l.tearing_variables.is_empty());
    assert_eq!(l.variables, names(&["a"]));
    assert_eq!(l.residual_variables, names(&["a"]));
}

#[test]
fn algebraic_loops_of_components() {
    let equations = vec![
        Equation::Simple { lhs: make_var("x"), rhs: make_add(make_var("y"), make_const("1")) },
        Equation::Simple { lhs: make_var("y"), rhs: make_add(make_var("x"), make_const("1")) },
        Equation::Simple { lhs: make_var("z"), rhs: make_const("1") },
    ];
    let loops = analyze_algebraic_loops(&equations, &vec![vec![2], vec![0, 1]]);
    assert_eq!(loops.len(), 1);
    assert_eq!(loops[0].equation_indices, vec![0, 1]);
    assert_eq!(loops[0].variables, names(&["x", "y"]));
    assert_eq!(loops[0].tearing_variables, names(&["x"]));
}
