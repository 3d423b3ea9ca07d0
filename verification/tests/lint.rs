use rumoca::ast::{ClassType, StoredDefinition};
use rumoca::lexer::lex;
use rumoca::lint::{
    capitalize_first, format_class_type, lint_complex_expressions, lint_empty_sections, lint_missing_documentation,
    lint_naming_conventions, lint_parameter_defaults, lint_redundant_extends, lint_unit_consistency, lowercase_first,
    magic_number_candidates, magic_number_message, LintLevel, LintResult,
};
use rumoca::parser::parse_stored_definition;

fn parse(text: &str) -> StoredDefinition {
    let chars: Vec<char> = text.chars().collect();
    let lexed = lex(&chars).expect("lexes");
    parse_stored_definition(&lexed.tokens).expect("parses")
}

fn messages(r: &LintResult) -> Vec<(String, LintLevel, String, Option<String>)> {
    r.messages
        .iter()
        .map(|m| (m.rule.clone(), m.level, m.message.clone(), m.suggestion.clone()))
        .collect()
}

#[test]
fn lint_case_helpers() {
    assert_eq!(capitalize_first("abc"), "Abc");
    assert_eq!(capitalize_first(""), "");
    assert_eq!(lowercase_first("ABC"), "aBC");
    assert_eq!(format_class_type(&ClassType::Block), "Block");
}

#[test]
fn lint_naming() {
    let ast = parse("model m\n  Real X;\n  Real a;\n  Real x;\nend m;");
    let mut r = LintResult { messages: Vec::new() };
    lint_naming_conventions(&ast.class_list[0], "m.mo", &mut r);
    let rule = "naming-convention".to_string();
    assert_eq!(
        messages(&r),
        vec![
            (
                rule.clone(),
                LintLevel::Note,
                "Class name 'm' should start with an uppercase letter (CamelCase)".to_string(),
                Some("Rename to 'M'".to_string())
            ),
            (
                rule.clone(),
                LintLevel::Note,
                "Variable 'X' should start with a lowercase letter".to_string(),
                Some("Rename to 'x'".to_string())
            ),
            (rule.clone(), LintLevel::Help, "Single-letter variable name 'X' may be unclear".to_string(), None),
            (rule.clone(), LintLevel::Help, "Single-letter variable name 'a' may be unclear".to_string(), None),
        ]
    );
    assert_eq!(r.messages[0].file, "m.mo");
    assert_eq!((r.messages[1].line, r.messages[1].column), (2, 3));
}

#[test]
fn lint_parameters_and_sections() {
    let ast = parse("model M\n  parameter Real k;\n  parameter Real g = 9.81;\nend M;");
    let mut r = LintResult { messages: Vec::new() };
    lint_parameter_defaults(&ast.class_list[0], "f", &mut r);
    lint_empty_sections(&ast.class_list[0], "f", &mut r);
    lint_missing_documentation(&ast.class_list[0], "f", &mut r);
    lint_unit_consistency(&ast.class_list[0], "f", &mut r);
    assert_eq!(
        messages(&r),
        vec![
            (
                "parameter-no-default".to_string(),
                LintLevel::Help,
                "Parameter 'k' has no default value".to_string(),
                Some("Consider adding a default value for better usability".to_string())
            ),
            (
                "empty-section".to_string(),
                LintLevel::Note,
                "Model 'M' has components but no equations or algorithms".to_string(),
                None
            ),
        ]
    );
    assert_eq!(r.messages[1].column, 1);
}

#[test]
fn lint_deep_expressions() {
    let ast = parse("model M\n  Real x;\nequation\n  x = sin(sin(sin(sin(sin(x)))));\n  x = sin(sin(sin(sin(x))));\nend M;");
    let mut r = LintResult { messages: Vec::new() };
    lint_complex_expressions(&ast.class_list[0], "f", &mut r);
    assert_eq!(r.messages.len(), 1);
    assert_eq!(r.messages[0].rule, "complex-expression");
    assert_eq!(r.messages[0].line, 4);
}

#[test]
fn lint_extends() {
    let ast = parse("model A\n  extends B;\n  extends B;\n  extends A;\nend A;");
    let mut r = LintResult { messages: Vec::new() };
    lint_redundant_extends(&ast.class_list[0], "f", &mut r);
    assert_eq!(
        messages(&r),
        vec![
            ("redundant-extends".to_string(), LintLevel::Warning, "Duplicate extends clause for 'B'".to_string(), None),
            ("redundant-extends".to_string(), LintLevel::Error, "Class 'A' extends itself".to_string(), None),
        ]
    );
}

#[test]
fn lint_magic_number_candidates() {
    let ast = parse("model M\n  Real x;\n  Real y;\nequation\n  x = 2.5 * y + 1.0;\n  y = sin(0.37);\nend M;");
    let c = magic_number_candidates(&ast.class_list[0]);
    let texts: Vec<&str> = c.iter().map(|t| t.text.as_str()).collect();
    assert_eq!(texts, vec!["2.5", "0.37"]);
    let m = magic_number_message(&c[0], "f");
    assert_eq!(m.message, "Consider using a named constant instead of '2.5'");
    assert_eq!(m.level, LintLevel::Help);
}
