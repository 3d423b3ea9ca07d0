use rumoca::ast::StoredDefinition;
use rumoca::lexer::lex;
use rumoca::lint::{LintLevel, LintResult};
use rumoca::parser::parse_stored_definition;
use rumoca::undefined::lint_undefined_references;

fn parse(text: &str) -> StoredDefinition {
    let chars: Vec<char> = text.chars().collect();
    let lexed = lex(&chars).expect("lexes");
    parse_stored_definition(&lexed.tokens).expect("parses")
}

fn names(v: &[&str]) -> Vec<String> {
    v.iter().map(|s| s.to_string()).collect()
}

fn run(text: &str, defined: &[&str], globals: &[&str]) -> Vec<(String, u32, u32)> {
    let def = parse(text);
    let mut result = LintResult { messages: Vec::new() };
    lint_undefined_references(&def.class_list[0], "m.mo", &names(defined), &names(globals), &mut result);
    for m in &result.messages {
        assert_eq!(m.rule, "undefined-reference");
        assert_eq!(m.level, LintLevel::Error);
        assert_eq!(m.file, "m.mo");
        assert_eq!(m.suggestion.as_deref(), Some("Check for typos or ensure the variable is declared"));
    }
    result.messages.iter().map(|m| (m.message.clone(), m.line, m.column)).collect()
}

#[test]
fn undefined_names_in_equations_loops_and_bindings() {
    let text = "model M\n  Real x;\n  Real y = z;\nequation\n  x = y + w;\n  for i in 1:n loop\n    x = i;\n  end for;\nend M;";
    assert_eq!(
        run(text, &["x", "y"], &["time"]),
        vec![
            ("Undefined variable 'w'".to_string(), 5, 11),
            ("Undefined variable 'n'".to_string(), 6, 14),
            ("Undefined variable 'z'".to_string(), 3, 12),
        ]
    );
}

#[test]
fn globals_and_called_functions_are_not_reported() {
    let text = "model M\n  Real x;\nequation\n  der(x) = sin(time);\nend M;";
    assert_eq!(run(text, &["x"], &["time"]), vec![]);
    assert_eq!(run(text, &["x"], &[]), vec![("Undefined variable 'time'".to_string(), 4, 16)]);
}

#[test]
fn loop_index_is_unbound_after_the_loop() {
    let text = "model M\n  Real x;\nequation\n  for i in 1:3 loop\n    x = i;\n  end for;\n  x = i;\nend M;";
    assert_eq!(run(text, &["x"], &[]), vec![("Undefined variable 'i'".to_string(), 7, 7)]);
}
