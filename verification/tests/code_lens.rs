use rumoca::ast::StoredDefinition;
use rumoca::code_lens::{collect_class_lenses, count_references, count_references_in_class, write_decimal, ClassLens};
use rumoca::lexer::lex;
use rumoca::parser::parse_stored_definition;

fn parse(text: &str) -> StoredDefinition {
    let chars: Vec<char> = text.chars().collect();
    let lexed = lex(&chars).expect("lexes");
    parse_stored_definition(&lexed.tokens).expect("parses")
}

fn lenses(text: &str) -> Vec<ClassLens> {
    let ast = parse(text);
    let mut out = Vec::new();
    for class in &ast.class_list {
        collect_class_lenses(class, text, &ast, &mut out);
    }
    out
}

#[test]
fn test_count_references_simple() {
    // Test basic text matching for references
    let text = "model Test\n  MyType x;\n  MyType y;\nend Test;";
    let count = text.matches("MyType").count();
    assert_eq!(count, 2);
}

// Further cases of this library's own.

#[test]
fn references_in_components_and_text() {
    let text = "model Test\n  MyType x;\n  MyType y;\nend Test;";
    let ast = parse(text);
    let name: Vec<char> = "MyType".chars().collect();
    // two components of that type in the tree
    assert_eq!(count_references_in_class(&name, &ast.class_list[0]), 2);
    // and two whole-word occurrences in the text
    assert_eq!(count_references("MyType", text, &ast), 4);
}

#[test]
fn definition_lines_and_partial_words_do_not_count() {
    let text = "model Motor\n  Motor m;\n  Motors n;\n  Real Motor2;\nend Motor;";
    let ast = parse(text);
    // the defining line is skipped; `Motors` and `Motor2` are other words;
    // `m` is one component of type Motor, and the text has `Motor m` and `end Motor;`
    assert_eq!(count_references("Motor", text, &ast), 3);
}

#[test]
fn lens_titles() {
    let text = "model A\n  Real x;\n  Real y;\nequation\n  x = 1;\nend A;\nmodel B\n  extends A;\nend B;\nfunction F\n  input Real u;\n  output Real v;\nend F;";
    let ls = lenses(text);
    let titles: Vec<String> = ls.iter().map(|l| l.title.clone()).collect();
    assert_eq!(
        titles,
        vec![
            "2 components, 1 equation".to_string(),
            "3 references".to_string(),
            "extends A".to_string(),
            "1 reference".to_string(),
            "1 reference".to_string(),
            "1 input, 1 output".to_string(),
        ]
    );
    assert_eq!(ls[0].line, 0);
    assert_eq!(ls[1].command, "editor.action.findReferences");
    assert_eq!(ls[2].line, 6);
    assert_eq!(ls[4].line, 9);
    assert_eq!(ls[5].command, "");
}

#[test]
fn decimal_numbers() {
    let mut v = Vec::new();
    write_decimal(&mut v, 0);
    write_decimal(&mut v, 1203);
    assert_eq!(v.into_iter().collect::<String>(), "01203");
}
