use rumoca::ast::StoredDefinition;
use rumoca::lexer::lex;
use rumoca::outline::{build_class_symbol, lines_of, utf8_length, OutlineKind, OutlineSymbol};
use rumoca::parser::parse_stored_definition;

fn parse(text: &str) -> StoredDefinition {
    let chars: Vec<char> = text.chars().collect();
    let lexed = lex(&chars).expect("lexes");
    parse_stored_definition(&lexed.tokens).expect("parses")
}

fn names(v: &[OutlineSymbol]) -> Vec<String> {
    v.iter().map(|s| s.name.clone()).collect()
}

#[test]
fn outline_of_a_model() {
    let text = "model M\n  parameter Real k = 1;\n  input Real u;\n  Real x[3];\nequation\n  der(x) = k * u;\nend M;";
    let ast = parse(text);
    let s = build_class_symbol("M", &ast.class_list[0], text).expect("a symbol");
    assert_eq!(s.name, "M");
    assert_eq!(s.detail.as_deref(), Some("Model"));
    assert_eq!(s.kind, OutlineKind::Class);
    assert_eq!((s.range.start_line, s.range.end_line, s.range.end_col), (0, 6, 6));
    assert_eq!((s.selection_range.start_col, s.selection_range.end_col), (6, 7));
    let kids = s.children.expect("children");
    assert_eq!(names(&kids), vec!["Parameters", "Inputs", "Variables", "Equations"]);
    assert_eq!(kids[0].detail.as_deref(), Some("1 items"));
    let params = kids[0].children.as_ref().expect("members");
    assert_eq!(params[0].name, "k");
    assert_eq!(params[0].kind, OutlineKind::Constant);
    assert_eq!(params[0].detail.as_deref(), Some("Real"));
    assert_eq!(params[0].range.start_line, 1);
    let vars = kids[2].children.as_ref().expect("members");
    assert_eq!(vars[0].detail.as_deref(), Some("Real[3]"));
    assert_eq!(vars[0].kind, OutlineKind::Variable);
    assert_eq!(kids[3].detail.as_deref(), Some("1 equations"));
}

#[test]
fn nested_classes_and_empty_classes() {
    let text = "package P\n  function f\n  end f;\n  record R\n  end R;\nend P;";
    let ast = parse(text);
    let s = build_class_symbol("P", &ast.class_list[0], text).expect("a symbol");
    assert_eq!(s.kind, OutlineKind::Namespace);
    let kids = s.children.expect("children");
    assert_eq!(names(&kids), vec!["f", "R"]);
    assert_eq!(kids[0].kind, OutlineKind::Function);
    assert_eq!(kids[1].kind, OutlineKind::Struct);
    assert!(kids[0].children.is_none());
    assert_eq!(kids[1].range.end_line, 4);
}

#[test]
fn lines_and_bytes() {
    let t: Vec<char> = "a\r\nbé\n\nc".chars().collect();
    let ls: Vec<String> = lines_of(&t).into_iter().map(|l| l.into_iter().collect()).collect();
    assert_eq!(ls, vec!["a", "bé", "", "c"]);
    let e: Vec<char> = "bé€".chars().collect();
    assert_eq!(utf8_length(&e), 6);
}
