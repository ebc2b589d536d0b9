use lox::vm::RuntimeError;

#[test]
fn runtime_error_from_string_keeps_the_message() {
    let err: RuntimeError = RuntimeError::from("Division by zero.".to_string());
    assert_eq!(err.0, "Division by zero.");
}
