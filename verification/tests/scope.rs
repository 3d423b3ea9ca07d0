use rumoca::ast::StoredDefinition;
use rumoca::lexer::lex;
use rumoca::parser::parse_stored_definition;
use rumoca::scope::{ResolvedSymbol, ScopeResolver};

fn parse_test_code(text: &str) -> StoredDefinition {
    let chars: Vec<char> = text.chars().collect();
    let lexed = lex(&chars).expect("lexes");
    parse_stored_definition(&lexed.tokens).expect("parses")
}

#[test]
fn test_class_at_position() {
    let code = r#"
class Outer
  Real x;
  class Inner
    Real y;
  end Inner;
end Outer;
"#;
    let ast = parse_test_code(code);
    let resolver = ScopeResolver::new(&ast);

    let class = resolver.class_at(3, 5);
    assert!(class.is_some());
    assert_eq!(class.unwrap().name.text, "Outer");

    let class = resolver.class_at(5, 5);
    assert!(class.is_some());
    assert_eq!(class.unwrap().name.text, "Inner");

    // the same position counted from 0
    assert_eq!(resolver.class_at_0indexed(4, 4).unwrap().name.text, "Inner");
    // before the first class
    assert!(resolver.class_at(1, 1).is_none());
}

#[test]
fn test_resolve_direct_component() {
    let code = r#"
class Test
  Real x;
  Real y;
equation
  x = y;
end Test;
"#;
    let ast = parse_test_code(code);
    let resolver = ScopeResolver::new(&ast);

    let symbol = resolver.resolve("x", 6, 3);
    assert!(symbol.is_some());
    if let Some(ResolvedSymbol::Component { component, inherited_via, .. }) = symbol {
        assert_eq!(component.name, "x");
        assert!(inherited_via.is_none());
    } else {
        panic!("Expected Component");
    }
}

#[test]
fn test_resolve_inherited_component() {
    let code = r#"
class Base
  Real v;
end Base;

class Derived
  extends Base;
equation
  v = 1;
end Derived;
"#;
    let ast = parse_test_code(code);
    let resolver = ScopeResolver::new(&ast);

    let symbol = resolver.resolve("v", 9, 3);
    assert!(symbol.is_some());
    if let Some(ResolvedSymbol::Component { component, defined_in, inherited_via }) = symbol {
        assert_eq!(component.name, "v");
        assert_eq!(defined_in.name.text, "Base");
        assert_eq!(inherited_via, Some("Base".to_string()));
    } else {
        panic!("Expected Component");
    }
}

#[test]
fn test_resolve_class() {
    let code = r#"
class MyClass
  Real x;
end MyClass;
"#;
    let ast = parse_test_code(code);
    let resolver = ScopeResolver::new(&ast);

    let symbol = resolver.resolve("MyClass", 1, 1);
    assert!(symbol.is_some());
    if let Some(ResolvedSymbol::Class(class)) = symbol {
        assert_eq!(class.name.text, "MyClass");
    } else {
        panic!("Expected Class");
    }
    assert!(resolver.resolve("Nothing", 3, 3).is_none());
}

#[test]
fn resolve_nested_class_and_cyclic_extends() {
    let code = "model A\n  extends B;\n  model N\n  end N;\nend A;\nmodel B\n  extends A;\nend B;";
    let ast = parse_test_code(code);
    let resolver = ScopeResolver::new(&ast);
    match resolver.resolve("N", 2, 3) {
        Some(ResolvedSymbol::Class(c)) => assert_eq!(c.name.text, "N"),
        _ => panic!("Expected Class"),
    }
    // a name found nowhere, with A and B extending each other
    assert!(resolver.resolve("missing", 2, 3).is_none());
}

#[test]
fn visible_components_declared_then_inherited() {
    let code = "model Base\n  Real v;\n  Real w;\nend Base;\nmodel Derived\n  extends Base;\n  Real w;\n  Real z;\nend Derived;";
    let ast = parse_test_code(code);
    let resolver = ScopeResolver::new(&ast);
    let seen: Vec<(String, String, Option<String>)> = resolver
        .visible_components(7, 3)
        .into_iter()
        .map(|s| match s {
            ResolvedSymbol::Component { component, defined_in, inherited_via } => {
                (component.name.clone(), defined_in.name.text.clone(), inherited_via)
            }
            ResolvedSymbol::Class(_) => panic!("Expected Component"),
        })
        .collect();
    assert_eq!(
        seen,
        vec![
            ("w".to_string(), "Derived".to_string(), None),
            ("z".to_string(), "Derived".to_string(), None),
            ("v".to_string(), "Base".to_string(), Some("Base".to_string())),
        ]
    );
    assert!(resolver.visible_components(20, 1).is_empty());
}

#[test]
fn resolve_qualified_paths() {
    let code = "package P\n  model M\n    model K\n    end K;\n  end M;\nend P;";
    let ast = parse_test_code(code);
    let resolver = ScopeResolver::new(&ast);
    match resolver.resolve_qualified("P.M.K", 1, 1) {
        Some(ResolvedSymbol::Class(c)) => assert_eq!(c.name.text, "K"),
        _ => panic!("Expected Class"),
    }
    assert!(resolver.resolve_qualified("P.X", 1, 1).is_none());
    assert!(resolver.resolve_qualified("P", 1, 1).is_none());
    assert!(resolver.resolve_qualified("Q.M", 1, 1).is_none());
}

#[test]
fn within_prefix_of_a_document() {
    let ast = parse_test_code("within A.B;\nmodel M\nend M;");
    assert_eq!(ScopeResolver::new(&ast).within_prefix(), Some("A.B".to_string()));
    let ast = parse_test_code("model M\nend M;");
    assert_eq!(ScopeResolver::new(&ast).within_prefix(), None);
}
