use rumoca::ast::{
    ComponentRefPart, ComponentReference, Equation, Expression, OpBinary, OpUnary, TerminalType, Token,
};
use rumoca::blt::{
    blt_transform, blt_transform_with_info, causalize_equation, cref_name_exec, equation_info,
    find_maximum_matching, BltResult, EquationInfo,
};
use rumoca::matching::NIL;

fn make_var(name: &str) -> Expression {
    Expression::ComponentReference(ComponentReference {
        local: false,
        parts: vec![ComponentRefPart {
            ident: Token {
                text: name.to_string(),
                ..Default::default()
            },
            subs: None,
        }],
    })
}

fn make_zero() -> Expression {
    Expression::Terminal {
        terminal_type: TerminalType::UnsignedReal,
        token: Token {
            text: "0".to_string(),
            ..Default::default()
        },
    }
}

fn one() -> Expression {
    Expression::Terminal {
        terminal_type: TerminalType::UnsignedInteger,
        token: Token {
            text: "1".to_string(),
            ..Default::default()
        },
    }
}

fn chars(s: &str) -> Vec<char> {
    s.chars().collect()
}

fn cref_string(c: &ComponentReference) -> String {
    cref_name_exec(c).into_iter().collect()
}

/// Solves `lhs = rhs` for `v`; `None` where the equation is left as it is.
fn causalize(lhs: Expression, rhs: Expression, v: &str) -> Option<Equation> {
    let name = chars(v);
    causalize_equation(lhs, rhs, &name, rumoca::blt::make_var(&name), rumoca::blt::make_zero()).ok()
}

#[test]
fn test_find_maximum_matching_integration() {
    let eq_infos: Vec<EquationInfo> = vec![
        equation_info(&Equation::Simple { lhs: make_var("x"), rhs: make_var("y") }),
        equation_info(&Equation::Simple { lhs: make_var("y"), rhs: make_var("z") }),
    ];
    let all_variables = vec![chars("x"), chars("y"), chars("z")];
    let matching = find_maximum_matching(&eq_infos, &all_variables, &Vec::new());
    let matched = matching.iter().filter(|&&m| m != NIL).count();
    assert_eq!(matched, 2, "Both equations should be matched");
    assert!(matching[0] != NIL);
    assert!(matching[1] != NIL);
}

#[test]
fn test_blt_with_chain_dependencies() {
    let equations = vec![
        Equation::Simple { lhs: make_var("x"), rhs: make_var("y") },
        Equation::Simple { lhs: make_var("y"), rhs: make_var("z") },
        Equation::Simple { lhs: make_var("z"), rhs: one() },
    ];
    let result = blt_transform(equations, &[]);
    assert_eq!(result.len(), 3);
    let order: Vec<String> = result
        .iter()
        .filter_map(|eq| {
            if let Equation::Simple { lhs: Expression::ComponentReference(cref), .. } = eq {
                return Some(cref_string(cref));
            }
            None
        })
        .collect();
    let z_pos = order.iter().position(|s| s == "z").unwrap();
    let y_pos = order.iter().position(|s| s == "y").unwrap();
    let x_pos = order.iter().position(|s| s == "x").unwrap();
    assert!(z_pos < y_pos, "z should be computed before y (z at {}, y at {})", z_pos, y_pos);
    assert!(y_pos < x_pos, "y should be computed before x (y at {}, x at {})", y_pos, x_pos);
}

#[test]
fn test_blt_algebraic_loop_detection() {
    let equations = vec![
        Equation::Simple {
            lhs: make_var("x"),
            rhs: Expression::Binary { lhs: Box::new(make_var("y")), op: OpBinary::Add, rhs: Box::new(one()) },
        },
        Equation::Simple {
            lhs: make_var("y"),
            rhs: Expression::Binary { lhs: Box::new(make_var("x")), op: OpBinary::Add, rhs: Box::new(one()) },
        },
    ];
    let result = blt_transform(equations, &[]);
    assert_eq!(result.len(), 2);
}

#[test]
fn test_causalize_sum_to_zero() {
    let lhs = Expression::Binary { op: OpBinary::Add, lhs: Box::new(make_var("a")), rhs: Box::new(make_var("b")) };
    let rhs = make_zero();
    let result = causalize(lhs, rhs, "a");
    assert!(result.is_some(), "Should be able to causalize a + b = 0 for a");
    if let Some(Equation::Simple { lhs, rhs }) = result {
        if let Expression::ComponentReference(cref) = lhs {
            assert_eq!(cref_string(&cref), "a");
        } else {
            panic!("LHS should be ComponentReference");
        }
        if let Expression::Unary { op: OpUnary::Minus, rhs } = rhs {
            if let Expression::ComponentReference(cref) = *rhs {
                assert_eq!(cref_string(&cref), "b");
            } else {
                panic!("RHS of negation should be ComponentReference");
            }
        } else {
            panic!("RHS should be Unary negation, got: {:?}", rhs);
        }
    }
}

#[test]
fn test_causalize_three_term_sum() {
    let inner = Expression::Binary { op: OpBinary::Add, lhs: Box::new(make_var("a")), rhs: Box::new(make_var("b")) };
    let lhs = Expression::Binary { op: OpBinary::Add, lhs: Box::new(inner), rhs: Box::new(make_var("c")) };
    let rhs = make_zero();
    let result = causalize(lhs, rhs, "a");
    assert!(result.is_some(), "Should be able to causalize a + b + c = 0 for a");
    if let Some(Equation::Simple { lhs, .. }) = result {
        if let Expression::ComponentReference(cref) = lhs {
            assert_eq!(cref_string(&cref), "a");
        } else {
            panic!("LHS should be ComponentReference");
        }
    }
}

#[test]
fn test_causalize_already_causal() {
    let result = causalize(make_var("a"), make_var("b"), "a");
    assert!(result.is_none(), "Should return None for already causal equation");
}

#[test]
fn test_kcl_style_equation() {
    let equations = vec![Equation::Simple {
        lhs: Expression::Binary { op: OpBinary::Add, lhs: Box::new(make_var("R2_n_i")), rhs: Box::new(make_var("L1_p_i")) },
        rhs: make_zero(),
    }];
    let result = blt_transform(equations, &[]);
    assert_eq!(result.len(), 1);
    if let Equation::Simple { lhs, .. } = &result[0] {
        assert!(
            matches!(lhs, Expression::ComponentReference(_)),
            "LHS should be a simple variable after causalization, got: {:?}",
            lhs
        );
    } else {
        panic!("Expected Simple equation");
    }
}

#[test]
fn test_causalize_zero_on_lhs() {
    let lhs = make_zero();
    let rhs = Expression::Binary { op: OpBinary::Add, lhs: Box::new(make_var("a")), rhs: Box::new(make_var("b")) };
    let result = causalize(lhs, rhs, "a");
    assert!(result.is_some(), "Should be able to causalize 0 = a + b for a");
    if let Some(Equation::Simple { lhs, rhs }) = result {
        if let Expression::ComponentReference(cref) = lhs {
            assert_eq!(cref_string(&cref), "a");
        } else {
            panic!("LHS should be ComponentReference");
        }
        if let Expression::Unary { op: OpUnary::Minus, rhs } = rhs {
            if let Expression::ComponentReference(cref) = *rhs {
                assert_eq!(cref_string(&cref), "b");
            } else {
                panic!("RHS of negation should be ComponentReference");
            }
        } else {
            panic!("RHS should be Unary negation, got: {:?}", rhs);
        }
    }
}

#[test]
fn test_kcl_style_equation_zero_on_lhs() {
    let equations = vec![Equation::Simple {
        lhs: make_zero(),
        rhs: Expression::Binary { op: OpBinary::Add, lhs: Box::new(make_var("R2_n_i")), rhs: Box::new(make_var("L1_p_i")) },
    }];
    let result = blt_transform(equations, &[]);
    assert_eq!(result.len(), 1);
    if let Equation::Simple { lhs, .. } = &result[0] {
        assert!(
            matches!(lhs, Expression::ComponentReference(_)),
            "LHS should be a simple variable after causalization, got: {:?}",
            lhs
        );
    } else {
        panic!("Expected Simple equation");
    }
}

#[test]
fn blt_matching_names_are_distinct_and_complete() {
    let equations = vec![
        Equation::Simple { lhs: make_var("x"), rhs: make_var("y") },
        Equation::Simple { lhs: make_var("y"), rhs: one() },
    ];
    let result: BltResult = blt_transform_with_info(equations, &[]);
    assert!(result.is_complete_matching);
    assert_eq!(result.matching[0].as_deref(), Some("x"));
    assert_eq!(result.matching[1].as_deref(), Some("y"));
    assert_eq!(result.sccs, vec![vec![1], vec![0]]);
}

#[test]
fn blt_excluded_variable_is_not_matched() {
    // R * i = v with R excluded is solved for i as i = v / R
    let equations = vec![Equation::Simple {
        lhs: Expression::Binary { op: OpBinary::Mul, lhs: Box::new(make_var("R")), rhs: Box::new(make_var("i")) },
        rhs: make_var("v"),
    }];
    let excluded = vec!["R".to_string(), "v".to_string()];
    let result = blt_transform_with_info(equations, &excluded);
    assert_eq!(result.matching[0].as_deref(), Some("i"));
    let text = rumoca::formatter::format_equation_text(&result.equations[0]);
    assert_eq!(text, "i = v / R;\n");
}

#[test]
fn blt_derivative_on_right_is_turned_around() {
    let der_x = Expression::FunctionCall {
        comp: ComponentReference {
            local: false,
            parts: vec![ComponentRefPart { ident: Token { text: "der".to_string(), ..Default::default() }, subs: None }],
        },
        args: vec![make_var("x")],
    };
    let equations = vec![Equation::Simple { lhs: make_var("v"), rhs: der_x }];
    let result = blt_transform(equations, &[]);
    let text = rumoca::formatter::format_equation_text(&result[0]);
    assert_eq!(text, "der(x) = v;\n");
}

#[test]
fn blt_matching_is_not_perfect_with_a_variable_left_over() {
    // one equation, two variables: every equation is matched, but not every variable
    let equations = vec![Equation::Simple { lhs: make_var("x"), rhs: make_var("y") }];
    let result: BltResult = blt_transform_with_info(equations, &[]);
    assert!(result.matching[0].is_some());
    assert!(!result.is_complete_matching);
}
