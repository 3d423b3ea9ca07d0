use rumoca::formatter::{format_ast_with_comments, format_modelica, CommentInfo, FormatOptions};
use rumoca::lexer::lex;
use rumoca::parser::parse_stored_definition;

#[test]
fn test_format_simple_model() {
    let input = "model Test\nReal x;\nend Test;";
    let result = format_modelica(input, &FormatOptions::default());
    assert!(result.contains("model Test\n"));
    assert!(result.contains("Real x"));
    assert!(result.contains("end Test;"));
    // Check indentation
    assert!(result.contains("  Real"));
}

#[test]
fn test_format_with_tabs() {
    let input = "model Test\nReal x;\nend Test;";
    let result = format_modelica(input, &FormatOptions::with_tabs());
    assert!(result.contains("\tReal x"));
}

#[test]
fn test_format_equation_with_operators() {
    let input = "model Test\nReal x;\nequation\nx=1+2*3;\nend Test;";
    let result = format_modelica(input, &FormatOptions::default());
    assert!(result.contains("x = 1 + 2 * 3;"));
}

#[test]
fn test_format_multiline_array() {
    let input = r#"model Test
Real v[3];
equation
v = {1.0, 2.0, 3.0};
end Test;"#;
    let result = format_modelica(input, &FormatOptions::default());
    // Should format array across multiple lines (3 elements)
    assert!(result.contains("{\n"));
}

#[test]
fn test_format_if_equation() {
    let input = r#"model Test
Real x;
equation
if x > 0 then
x = 1;
else
x = 0;
end if;
end Test;"#;
    let result = format_modelica(input, &FormatOptions::default());
    assert!(result.contains("if x > 0 then\n"));
    assert!(result.contains("else\n"));
    assert!(result.contains("end if;\n"));
}

#[test]
fn test_format_preserves_component_annotations() {
    let input = r#"model Test
Real x annotation(Dialog(group="Test"));
end Test;"#;
    let result = format_modelica(input, &FormatOptions::default());
    // Should preserve the annotation
    assert!(
        result.contains("annotation("),
        "Result should contain annotation: {}",
        result
    );
    assert!(
        result.contains("Dialog"),
        "Result should contain Dialog: {}",
        result
    );
}

#[test]
fn test_format_blank_lines_between_classes() {
    let input = r#"model A
Real x;
end A;
model B
Real y;
end B;
model C
Real z;
end C;"#;
    // Default should add 1 blank line between classes
    let result = format_modelica(input, &FormatOptions::default());
    assert!(
        result.contains("end A;\n\nmodel B"),
        "Should have blank line between A and B: {}",
        result
    );
    assert!(
        result.contains("end B;\n\nmodel C"),
        "Should have blank line between B and C: {}",
        result
    );

    // Test with 0 blank lines (no spacing)
    let mut options = FormatOptions::default();
    options.blank_lines_between_classes = 0;
    let result = format_modelica(input, &options);
    assert!(
        result.contains("end A;\nmodel B"),
        "Should have no blank line between A and B: {}",
        result
    );

    // Test with 2 blank lines
    options.blank_lines_between_classes = 2;
    let result = format_modelica(input, &options);
    assert!(
        result.contains("end A;\n\n\nmodel B"),
        "Should have 2 blank lines between A and B: {}",
        result
    );
}

#[test]
fn test_format_preserves_grouped_declarations() {
    // Test that grouped variable declarations are preserved
    let input = r#"model Test
  Real x, y, z;
  parameter Real a, b;
  Motor m1, m2, m3;
end Test;"#;
    let result = format_modelica(input, &FormatOptions::default());
    assert!(
        result.contains("Real x, y, z;"),
        "Should preserve grouped Real declaration: {}",
        result
    );
    assert!(
        result.contains("parameter Real a, b;"),
        "Should preserve grouped parameter declaration: {}",
        result
    );
    assert!(
        result.contains("Motor m1, m2, m3;"),
        "Should preserve grouped Motor declaration: {}",
        result
    );
}

#[test]
fn test_format_does_not_group_with_attributes() {
    // Test that declarations with individual attributes are NOT grouped
    let input = r#"model Test
  Real x "description";
  Real y;
end Test;"#;
    let result = format_modelica(input, &FormatOptions::default());
    // Should output them separately since x has a description
    assert!(
        result.contains("Real x \"description\";"),
        "Should preserve individual declaration with description: {}",
        result
    );
    assert!(
        result.contains("Real y;"),
        "Should have separate declaration: {}",
        result
    );
}

#[test]
fn test_format_preserves_necessary_parentheses() {
    // Test that parentheses are preserved when they affect expression meaning
    let input = r#"model Test
  Real x, y, z;
equation
  // Lower precedence inside higher precedence needs parens
  x = (a + b) * c;
  // Subtraction with lower precedence terms
  y = -(a - b) * c;
  // Nested lower precedence
  z = (a + b) * (c + d);
end Test;"#;
    let result = format_modelica(input, &FormatOptions::default());

    // (a + b) * c - parens needed because + has lower precedence than *
    assert!(
        result.contains("(a + b) * c"),
        "Should preserve parens for (a + b) * c: {}",
        result
    );

    // -(a - b) * c - complex unary with parens
    assert!(
        result.contains("-(a - b) * c"),
        "Should preserve parens for -(a - b) * c: {}",
        result
    );

    // (a + b) * (c + d) - both sides need parens
    assert!(
        result.contains("(a + b) * (c + d)"),
        "Should preserve parens for (a + b) * (c + d): {}",
        result
    );
}

#[test]
fn test_format_removes_redundant_parentheses() {
    // Test that redundant parentheses are removed (higher precedence inside lower)
    let input = r#"model Test
  Real x;
equation
  // Higher precedence inside lower - parens are redundant
  x = a + (b * c);
end Test;"#;
    let result = format_modelica(input, &FormatOptions::default());

    // a + (b * c) becomes a + b * c because * binds tighter than +
    assert!(
        result.contains("a + b * c"),
        "Should remove redundant parens from a + (b * c): {}",
        result
    );
}

#[test]
fn comments_are_put_back_in_line_order() {
    let chars: Vec<char> = "model M\nend M;".chars().collect();
    let lexed = lex(&chars).expect("lexes");
    let def = parse_stored_definition(&lexed.tokens).expect("parses");
    let comments = vec![
        CommentInfo { text: "// late".chars().collect(), line: 10 },
        CommentInfo { text: "// early".chars().collect(), line: 1 },
        CommentInfo { text: "// late too".chars().collect(), line: 10 },
    ];
    let out = format_ast_with_comments(&def, comments, &FormatOptions::default());
    let early = out.find("// early").expect("early comment kept");
    let late = out.find("// late\n").expect("late comment kept");
    let late_too = out.find("// late too").expect("second late comment kept");
    assert!(early < late);
    assert!(late < late_too);
}
