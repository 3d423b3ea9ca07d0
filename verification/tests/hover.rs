use rumoca::ast::StoredDefinition;
use rumoca::hover::{
    find_definition_in_ast, find_definition_in_class, format_class_hover, format_component_hover, get_ast_hover_info,
    get_hover_info, get_keyword_hover_info, get_word_at_position,
};
use rumoca::lexer::lex;
use rumoca::parser::parse_stored_definition;

fn parse(text: &str) -> StoredDefinition {
    let chars: Vec<char> = text.chars().collect();
    let lexed = lex(&chars).expect("lexes");
    parse_stored_definition(&lexed.tokens).expect("parses")
}

#[test]
fn word_at_position_in_the_middle_of_a_word() {
    let text = "model Foo\n  Real x_1 = y;\nend Foo;";
    assert_eq!(get_word_at_position(text, 1, 8), Some("x_1".to_string()));
    assert_eq!(get_word_at_position(text, 1, 2), Some("Real".to_string()));
    assert_eq!(get_word_at_position(text, 1, 6), Some("Real".to_string()));
    assert_eq!(get_word_at_position(text, 0, 9), Some("Foo".to_string()));
}

#[test]
fn word_at_position_none_cases() {
    let text = "model Foo\n  Real x;\nend Foo;";
    // between two spaces
    assert_eq!(get_word_at_position(text, 1, 1), None);
    // line past the end of the text
    assert_eq!(get_word_at_position(text, 5, 0), None);
    // column past the end of the line
    assert_eq!(get_word_at_position(text, 1, 40), None);
    assert_eq!(get_word_at_position("", 0, 0), None);
}

#[test]
fn hover_info_for_keywords_and_builtins() {
    assert_eq!(
        get_hover_info("der"),
        Some("**der(x)**\n\nTime derivative of variable x.\n\n```modelica\nder(x) = v;  // dx/dt = v\n```".to_string())
    );
    assert_eq!(
        get_hover_info("max"),
        Some("**max(a, b)**\n\nReturns the maximum of a and b.".to_string())
    );
    assert_eq!(get_hover_info("sqrt"), Some("**sqrt(x)**\n\nSquare root. Returns √x.".to_string()));
    assert_eq!(get_hover_info("foo"), None);
    assert_eq!(get_hover_info(""), None);
}

#[test]
fn keyword_hover_info() {
    assert!(get_keyword_hover_info("model").is_some());
    assert!(get_keyword_hover_info("parameter").is_some());
    assert_eq!(get_keyword_hover_info("x"), None);
}

#[test]
fn definition_of_class_component_and_nested_class() {
    let text = "model Outer\n  Real x;\n  model Inner\n    Integer k;\n  end Inner;\nend Outer;";
    let def = parse(text);
    // the class itself
    assert_eq!(find_definition_in_ast(&def, &"Outer".to_string()), Some((1, 7)));
    // a component: where its type starts
    assert_eq!(find_definition_in_ast(&def, &"x".to_string()), Some((2, 3)));
    // a nested class and its component
    assert_eq!(find_definition_in_ast(&def, &"Inner".to_string()), Some((3, 9)));
    assert_eq!(find_definition_in_ast(&def, &"k".to_string()), Some((4, 5)));
    assert_eq!(find_definition_in_ast(&def, &"nothing".to_string()), None);
    let outer = &def.class_list[0];
    assert_eq!(find_definition_in_class(outer, &"x".to_string()), Some((2, 3)));
}

const DOC: &str = "model M\n  parameter Real k[3] \"gain\";\n  input Real u;\n  function f\n    input Real a;\n    output Real b;\n  end f;\nend M;";

#[test]
fn component_and_class_hover_texts() {
    let def = parse(DOC);
    let m = &def.class_list[0];
    assert_eq!(format_component_hover(&m.components[0]), "**k**: Real[3] (parameter)\n\ngain");
    assert_eq!(format_component_hover(&m.components[1]), "**u**: Real [input]");
    assert_eq!(format_class_hover(m, "M"), "**Model** M");
    assert_eq!(
        format_class_hover(&m.classes[0], "f"),
        "**Function** f\n\n```modelica\nfunction f(a: Real) -> (b: Real)\n```"
    );
}

#[test]
fn hover_info_from_the_document() {
    let def = parse(DOC);
    assert_eq!(
        get_ast_hover_info(&def, "u", 2, 13),
        Some("**u**: Real [input]\n\n*Defined in `M`*".to_string())
    );
    assert_eq!(
        get_ast_hover_info(&def, "f", 0, 0),
        Some("**Function** f\n\n```modelica\nfunction f(a: Real) -> (b: Real)\n```".to_string())
    );
    assert_eq!(get_ast_hover_info(&def, "M", 0, 0), Some("**Model** M".to_string()));
    assert_eq!(get_ast_hover_info(&def, "zzz", 0, 0), None);
}

#[test]
fn hover_info_of_an_inherited_component() {
    let def = parse("model Base\n  Real v;\nend Base;\nmodel D\n  extends Base;\nend D;");
    assert_eq!(
        get_ast_hover_info(&def, "v", 4, 3),
        Some("**v**: Real\n\n*Inherited from `Base`*".to_string())
    );
}
