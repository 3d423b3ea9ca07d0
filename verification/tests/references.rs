use rumoca::ast::StoredDefinition;
use rumoca::lexer::lex;
use rumoca::parser::parse_stored_definition;
use rumoca::references::{find_references, places_fit_in, reference_places};

fn parse(text: &str) -> StoredDefinition {
    let chars: Vec<char> = text.chars().collect();
    let lexed = lex(&chars).expect("lexes");
    parse_stored_definition(&lexed.tokens).expect("parses")
}

fn starts(def: &StoredDefinition, name: &str, decl: bool) -> Option<Vec<(u32, u32, u32)>> {
    let name = name.to_string();
    let places = reference_places(def, &name, decl);
    assert!(places_fit_in(&places, name.chars().count()));
    find_references(def, &name, decl).map(|rs| {
        rs.iter()
            .map(|r| {
                assert_eq!(r.start.line, r.end.line);
                (r.start.line, r.start.character, r.end.character)
            })
            .collect()
    })
}

const TEXT: &str = "model M\n  Real x;\n  Real y = x;\nequation\n  der(x) = -x + y;\nend M;";

#[test]
fn references_with_declaration() {
    let def = parse(TEXT);
    assert_eq!(
        starts(&def, "x", true),
        Some(vec![(1, 7, 8), (2, 11, 12), (4, 6, 7), (4, 12, 13)])
    );
}

#[test]
fn references_without_declaration() {
    let def = parse(TEXT);
    assert_eq!(starts(&def, "x", false), Some(vec![(2, 11, 12), (4, 6, 7), (4, 12, 13)]));
    assert_eq!(starts(&def, "y", false), Some(vec![(4, 16, 17)]));
}

#[test]
fn class_name_counts_only_as_declaration() {
    let def = parse(TEXT);
    assert_eq!(starts(&def, "M", true), Some(vec![(0, 6, 7)]));
    assert_eq!(starts(&def, "M", false), None);
    assert_eq!(starts(&def, "nothing", true), None);
}

#[test]
fn type_names_are_references() {
    let def = parse("model A\n  Real r;\nend A;\nmodel B\n  A a;\nend B;");
    assert_eq!(starts(&def, "A", false), Some(vec![(4, 2, 3)]));
    assert_eq!(starts(&def, "A", true), Some(vec![(0, 6, 7), (4, 2, 3)]));
}

#[test]
fn nested_class_name_is_found_by_parent_and_by_itself() {
    let def = parse("model A\n  model B\n  end B;\nend A;");
    assert_eq!(starts(&def, "B", true), Some(vec![(1, 8, 9), (1, 8, 9)]));
    assert_eq!(starts(&def, "B", false), None);
}

#[test]
fn for_index_is_a_reference() {
    let def = parse("model F\n  Real x[3];\nequation\n  for i in 1:3 loop\n    x[i] = i;\n  end for;\nend F;");
    assert_eq!(starts(&def, "i", false), Some(vec![(3, 6, 7), (4, 6, 7), (4, 11, 12)]));
}
