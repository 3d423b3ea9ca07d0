use rumoca::ast::StoredDefinition;
use rumoca::lexer::lex;
use rumoca::parser::parse_stored_definition;
use rumoca::rename::{find_end_class_name, find_identifier_on_line, is_renameable_symbol, rename_edits};

fn parse(text: &str) -> StoredDefinition {
    let chars: Vec<char> = text.chars().collect();
    let lexed = lex(&chars).expect("lexes");
    parse_stored_definition(&lexed.tokens).expect("parses")
}

#[test]
fn test_find_end_class_name() {
    let text = "model Test\n  Real x;\nend Test;";
    let mut edits = Vec::new();
    find_end_class_name(text, "Test", "NewName", &mut edits);
    assert_eq!(edits.len(), 1);
    assert_eq!(edits[0].range.start.line, 2);
    assert_eq!(edits[0].range.start.character, 4);
    assert_eq!(edits[0].new_text, "NewName");
}

#[test]
fn test_find_identifier_on_line() {
    let text = "  Real x = y + z;";
    let mut edits = Vec::new();
    find_identifier_on_line(text, 1, "x", "newX", &mut edits);
    assert_eq!(edits.len(), 1);
    assert_eq!(edits[0].range.start.character, 7);
    assert_eq!(edits[0].new_text, "newX");
}

#[test]
fn rename_ignores_longer_words() {
    let text = "  Real xx = x_1 + x;";
    let mut edits = Vec::new();
    find_identifier_on_line(text, 1, "x", "y", &mut edits);
    let starts: Vec<u32> = edits.iter().map(|e| e.range.start.character).collect();
    assert_eq!(starts, vec![18]);
    assert_eq!(edits[0].range.end.character, 19);
}

fn starts(text: &str, old: &str, new: &str) -> Option<Vec<(u32, u32)>> {
    let ast = parse(text);
    rename_edits(&ast, text, &old.to_string(), new)
        .map(|es| es.iter().map(|e| (e.range.start.line, e.range.start.character)).collect())
}

#[test]
fn rename_a_variable() {
    let text = "model Test\n  Real x;\nequation\n  x = 1;\nend Test;";
    assert_eq!(starts(text, "x", "y"), Some(vec![(3, 2), (1, 7)]));
}

#[test]
fn rename_a_class() {
    let text = "model Test\n  Real x;\nequation\n  x = 1;\nend Test;";
    assert_eq!(starts(text, "Test", "T2"), Some(vec![(4, 4), (0, 6)]));
    let ast = parse(text);
    let es = rename_edits(&ast, text, &"Test".to_string(), "T2").unwrap();
    assert!(es.iter().all(|e| e.new_text == "T2" && e.range.end.character == e.range.start.character + 4));
}

#[test]
fn rename_unknown_symbol() {
    let text = "model Test\n  Real x;\nend Test;";
    assert_eq!(starts(text, "zzz", "y"), None);
    assert!(!is_renameable_symbol(&parse(text), &"zzz".to_string()));
    assert!(is_renameable_symbol(&parse(text), &"x".to_string()));
}
