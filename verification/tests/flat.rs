use rumoca::ast::StoredDefinition;
use rumoca::flat::flatten;
use rumoca::lexer::lex;
use rumoca::parser::parse_stored_definition;

fn parse(text: &str) -> StoredDefinition {
    let chars: Vec<char> = text.chars().collect();
    let lexed = lex(&chars).expect("lexes");
    parse_stored_definition(&lexed.tokens).expect("parses")
}

fn names(v: &[rumoca::flat::FlatComponent]) -> Vec<String> {
    v.iter().map(|c| c.name.clone()).collect()
}

#[test]
fn components_are_sorted_by_role() {
    let text = "model Ball\n  parameter Real g = 9.81;\n  constant Real c = 1;\n  Real h(start = 1);\n  Real v;\n  Real e;\n  input Real f;\n  discrete Integer n;\nequation\n  der(h) = v;\n  der(v) = -g + f;\n  e = h * g;\nend Ball;";
    let models = flatten(&parse(text));
    assert_eq!(models.len(), 1);
    let m = &models[0];
    assert_eq!(m.name, "Ball");
    assert_eq!(names(&m.p), vec!["g"]);
    assert_eq!(names(&m.c), vec!["c"]);
    assert_eq!(names(&m.x), vec!["h", "v"]);
    assert_eq!(names(&m.y), vec!["e"]);
    assert_eq!(names(&m.u), vec!["f"]);
    assert_eq!(names(&m.z), vec!["n"]);
    assert_eq!(m.ode.len(), 2);
}

#[test]
fn classes_sharing_a_name_stand_for_the_last() {
    let text = "model A\n  Real x;\nend A;\nmodel B\nend B;\nmodel A\n  Real y;\n  Real z;\nend A;";
    let models = flatten(&parse(text));
    assert_eq!(models.len(), 3);
    assert_eq!(names(&models[0].y), vec!["y", "z"]);
    assert_eq!(models[1].name, "B");
    assert_eq!(names(&models[2].y), vec!["y", "z"]);
}

#[test]
fn flat_model_keeps_the_class_description() {
    let models = flatten(&parse("model Ball \"A bouncing\" + \" ball\"\n  Real h;\nend Ball;"));
    assert_eq!(models[0].description, "A bouncing ball");
    let models = flatten(&parse("model Plain\nend Plain;"));
    assert_eq!(models[0].description, "");
}
