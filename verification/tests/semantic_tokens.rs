use rumoca::ast::StoredDefinition;
use rumoca::lexer::lex;
use rumoca::parser::parse_stored_definition;
use rumoca::semantic_tokens::{semantic_tokens, token_modifier_names, token_type_names};

fn parse(text: &str) -> StoredDefinition {
    let chars: Vec<char> = text.chars().collect();
    let lexed = lex(&chars).expect("lexes");
    parse_stored_definition(&lexed.tokens).expect("parses")
}

#[test]
fn semantic_tokens_of_a_model() {
    let ast = parse("model M\n  parameter Real k = 1;\n  Real x;\nequation\n  der(x) = -k*x;\nend M;");
    assert_eq!(
        semantic_tokens(&ast),
        vec![
            (0, 6, 1, 2, 2),
            (1, 12, 4, 1, 0),
            (0, 5, 1, 3, 5),
            (1, 2, 4, 1, 0),
            (0, 5, 1, 4, 1),
            (2, 2, 3, 6, 0),
            (0, 4, 1, 4, 0),
            (0, 6, 1, 4, 0),
            (0, 2, 1, 4, 0),
        ]
    );
}

#[test]
fn semantic_tokens_sorted_across_classes() {
    // the nested class comes after the outer class's equations in the tree,
    // but stands before them in the text
    let ast = parse("package P\n  function f\n  end f;\nend P;");
    let toks = semantic_tokens(&ast);
    assert_eq!(toks, vec![(0, 8, 1, 0, 2), (1, 11, 1, 6, 2)]);
}

#[test]
fn semantic_token_legend() {
    assert_eq!(token_type_names()[10], "number");
    assert_eq!(token_modifier_names()[2], "readonly");
}
