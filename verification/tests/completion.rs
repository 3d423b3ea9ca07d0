use rumoca::ast::StoredDefinition;
use rumoca::completion::{keyword_completions, member_completions, scoped_completions, CompletionEntry, CompletionKind};
use rumoca::lexer::lex;
use rumoca::parser::parse_stored_definition;

fn parse(text: &str) -> StoredDefinition {
    let chars: Vec<char> = text.chars().collect();
    let lexed = lex(&chars).expect("lexes");
    parse_stored_definition(&lexed.tokens).expect("parses")
}

fn short(es: &[CompletionEntry]) -> Vec<(String, CompletionKind, Option<String>)> {
    es.iter().map(|e| (e.label.clone(), e.kind, e.detail.clone())).collect()
}

#[test]
fn keyword_completions_table() {
    let ks = keyword_completions();
    assert_eq!(ks.len(), 48);
    assert_eq!(ks[0].label, "model");
    assert_eq!(ks[0].kind, CompletionKind::Keyword);
    assert_eq!(ks[0].detail.as_deref(), Some("model declaration"));
    assert!(ks.iter().any(|k| k.label == "initial equation" && k.detail.as_deref() == Some("initial equation section")));
    assert!(ks.iter().any(|k| k.label == "Real" && k.kind == CompletionKind::TypeParameter));
    assert!(ks.iter().any(|k| k.label == "time" && k.kind == CompletionKind::Variable));
    assert_eq!(ks[47].label, "false");
    assert_eq!(ks[47].kind, CompletionKind::Value);
    assert!(ks.iter().all(|k| k.documentation.is_none() && k.insert_text.is_none() && !k.snippet));
}

#[test]
fn scoped_completions_of_a_document() {
    let def = parse("model M\n  parameter Real k[3] \"gain\";\n  Real x;\n  function f\n  end f;\nend M;\nmodel N\nend N;");
    let es = scoped_completions(&def, 0);
    assert_eq!(
        short(&es),
        vec![
            ("k".to_string(), CompletionKind::Constant, Some("Real[3]".to_string())),
            ("x".to_string(), CompletionKind::Variable, Some("Real".to_string())),
            ("f".to_string(), CompletionKind::Function, Some("Function".to_string())),
            ("M".to_string(), CompletionKind::Class, Some("Model".to_string())),
            ("N".to_string(), CompletionKind::Class, Some("Model".to_string())),
        ]
    );
    assert_eq!(es[0].documentation.as_deref(), Some("gain"));
    assert_eq!(es[1].documentation, None);
    assert_eq!(es[2].insert_text.as_deref(), Some("f($0)"));
    assert!(es[2].snippet);
    assert!(!es[0].snippet);
    // on line 7 (from 0) the components of N come too, but N has none
    assert_eq!(scoped_completions(&def, 7).len(), 5);
}

#[test]
fn member_completions_after_a_dot() {
    let def = parse("model A\n  parameter Real g;\n  Real v;\nend A;\nmodel B\n  A a;\n  Real r;\nend B;");
    assert_eq!(
        short(&member_completions(&def, "a.")),
        vec![
            ("g".to_string(), CompletionKind::Constant, Some("g: Real".to_string())),
            ("v".to_string(), CompletionKind::Field, Some("v: Real".to_string())),
        ]
    );
    let attrs = member_completions(&def, "r.");
    assert_eq!(attrs.len(), 8);
    assert_eq!(attrs[0].label, "start");
    assert_eq!(attrs[0].kind, CompletionKind::Property);
    assert_eq!(attrs[0].detail.as_deref(), Some("Initial value"));
    assert!(member_completions(&def, "a").is_empty());
    assert!(member_completions(&def, "zz.").is_empty());
}
