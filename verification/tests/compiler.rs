use rumoca::compiler::Compiler;

#[test]
fn test_compiler_default() {
    let compiler = Compiler::new();
    assert!(!compiler.verbose);
}

#[test]
fn test_compiler_verbose() {
    let compiler = Compiler::new().verbose(true);
    assert!(compiler.verbose);
}
