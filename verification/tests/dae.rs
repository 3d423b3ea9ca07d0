use rumoca::ast::{ComponentReference, Equation, Expression, Statement, StoredDefinition};
use rumoca::dae::{create_dae, stamp_model_hash};
use rumoca::lexer::lex;
use rumoca::parser::parse_stored_definition;

fn parse(text: &str) -> StoredDefinition {
    let chars: Vec<char> = text.chars().collect();
    let lexed = lex(&chars).expect("lexes");
    parse_stored_definition(&lexed.tokens).expect("parses")
}

fn names(v: &[(String, usize)]) -> Vec<(String, usize)> {
    v.to_vec()
}

fn cref_text(c: &ComponentReference) -> String {
    c.parts.iter().map(|p| p.ident.text.clone()).collect::<Vec<_>>().join(".")
}

const BALL: &str = "model Ball
  parameter Real g = 9.81;
  Real h;
  Real v;
  input Real f;
  output Real e;
  Real w;
  discrete Real k;
  constant Real c = 2;
equation
  der(h) = v;
  der(v) = -g + f;
  e = h;
  w = der(der(h));
  when h < 0 then
    reinit(v, -v);
  end when;
end Ball;";

#[test]
fn dae_sorts_components() {
    let mut ast = parse(BALL);
    let dae = create_dae(&mut ast.class_list[0]);
    let s = |n: &str, i: usize| (n.to_string(), i);
    assert_eq!(names(&dae.p), vec![s("g", 0)]);
    assert_eq!(names(&dae.cp), vec![s("c", 7)]);
    assert_eq!(names(&dae.m), vec![s("k", 6)]);
    assert_eq!(names(&dae.x), vec![s("h", 1), s("v", 2)]);
    assert_eq!(names(&dae.x_dot), vec![s("der_h", 1), s("der_v", 2)]);
    assert_eq!(names(&dae.u), vec![s("f", 3)]);
    assert_eq!(names(&dae.y), vec![s("e", 4), s("w", 5)]);
    assert_eq!(names(&dae.pre_x), vec![s("pre_h", 1), s("pre_v", 2)]);
    assert_eq!(names(&dae.pre_m), vec![s("pre_k", 6)]);
    assert!(dae.z.is_empty() && dae.pre_z.is_empty());
}

#[test]
fn dae_replaces_derivatives_and_conditions() {
    let mut ast = parse(BALL);
    let dae = create_dae(&mut ast.class_list[0]);
    let class = &ast.class_list[0];
    match &class.equations[0] {
        Equation::Simple { lhs: Expression::ComponentReference(c), .. } => assert_eq!(cref_text(c), "der_h"),
        other => panic!("unexpected {:?}", other),
    }
    // der(der(h)) is the reference der_der_h
    match &class.equations[3] {
        Equation::Simple { rhs: Expression::ComponentReference(c), .. } => assert_eq!(cref_text(c), "der_der_h"),
        other => panic!("unexpected {:?}", other),
    }
    match &class.equations[4] {
        Equation::When(blocks) => match &blocks[0].cond {
            Expression::ComponentReference(c) => assert_eq!(cref_text(c), "__c0"),
            other => panic!("unexpected {:?}", other),
        },
        other => panic!("unexpected {:?}", other),
    }
    assert_eq!(dae.c, vec!["__c0".to_string()]);
    assert_eq!(dae.fc.len(), 1);
    assert_eq!(dae.fc[0].0, "__c0");
    assert!(matches!(dae.fc[0].1, Expression::Binary { .. }));
    assert_eq!(dae.fx.len(), 4);
    assert_eq!(dae.fr.len(), 1);
    assert_eq!(dae.fr[0].0, "__c0");
    match &dae.fr[0].1 {
        Statement::Assignment { comp, value } => {
            assert_eq!(cref_text(comp), "v");
            assert!(matches!(value, Expression::Unary { .. }));
        },
        other => panic!("unexpected {:?}", other),
    }
}

#[test]
fn dae_numbers_conditions_in_order() {
    let mut ast = parse("model M
  Real x;
  Boolean a;
  Boolean b;
equation
  der(x) = 1;
  when a then
    reinit(x, 0);
  elsewhen b then
    reinit(x, 1);
    reinit(x, 2);
  end when;
end M;");
    let dae = create_dae(&mut ast.class_list[0]);
    assert_eq!(dae.c, vec!["__c0".to_string(), "__c1".to_string()]);
    assert_eq!(dae.fr.len(), 2);
    assert_eq!(dae.fr[1].0, "__c1");
    match &dae.fr[1].1 {
        Statement::Assignment { value: Expression::Terminal { token, .. }, .. } => assert_eq!(token.text, "2"),
        other => panic!("unexpected {:?}", other),
    }
}

#[test]
fn dae_model_hash_is_md5_of_the_source() {
    let mut def = parse("model M\n  Real x;\nequation\n  der(x) = 1;\nend M;");
    let mut class = def.class_list.remove(0);
    let mut dae = create_dae(&mut class);
    assert_eq!(dae.model_hash, "");
    let states = dae.x.clone();
    stamp_model_hash(&mut dae, "example data");
    assert_eq!(dae.model_hash, "5c71dbb287630d65ca93764c34d9aa0d");
    assert_eq!(dae.x, states);
    stamp_model_hash(&mut dae, "");
    assert_eq!(dae.model_hash, "d41d8cd98f00b204e9800998ecf8427e");
}
