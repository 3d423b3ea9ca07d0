use rumoca::ast::StoredDefinition;
use rumoca::diagnostics::{analyze_class, Diagnostic, Severity};
use rumoca::lexer::lex;
use rumoca::parser::parse_stored_definition;

fn parse(text: &str) -> StoredDefinition {
    let chars: Vec<char> = text.chars().collect();
    let lexed = lex(&chars).expect("lexes");
    parse_stored_definition(&lexed.tokens).expect("parses")
}

fn diagnose(text: &str) -> Vec<Diagnostic> {
    let ast = parse(text);
    let globals = vec!["der".to_string(), "time".to_string()];
    let mut out = Vec::new();
    analyze_class(&ast.class_list[0], &globals, &mut out);
    out
}

#[test]
fn diagnostics_of_a_model() {
    let d = diagnose("model M
  parameter Real k;
  Real x;
  Real unused;
  Boolean b;
equation
  der(x) = -k * x + y;
  b = 1.0;
end M;");
    let msgs: Vec<(&str, Severity, u32)> = d.iter().map(|x| (x.message.as_str(), x.severity, x.line)).collect();
    assert_eq!(
        msgs,
        vec![
            ("Undefined variable 'y'", Severity::Error, 6),
            ("Type mismatch in equation: Boolean is not compatible with Real", Severity::Warning, 7),
            ("Cannot mix Boolean and numeric types in equation", Severity::Error, 7),
            ("Variable 'unused' is declared but never used", Severity::Warning, 3),
            ("Parameter 'k' has no default value - consider adding one", Severity::Hint, 1),
        ]
    );
    assert_eq!(d[0].character, 20);
    assert_eq!(d[0].end_character, 40);
}

#[test]
fn diagnostics_loop_index_is_declared() {
    let d = diagnose("model M
  Real x[3];
equation
  for i in 1:3 loop
    x[i] = i;
  end for;
end M;");
    assert!(d.iter().all(|x| !x.message.starts_with("Undefined")), "{:?}", d);
}

#[test]
fn diagnostics_appends_after_existing() {
    let ast = parse("model M\n  Real x;\nend M;");
    let mut out = Vec::new();
    analyze_class(&ast.class_list[0], &vec![], &mut out);
    analyze_class(&ast.class_list[0], &vec![], &mut out);
    assert_eq!(out.len(), 2);
    assert_eq!(out[1].message, "Variable 'x' is declared but never used");
}
