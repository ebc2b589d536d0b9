use lox::chunk::debug::{decode_instruction, is_decodable};
use lox::compile::compile;
use lox::interner::Interner;
use lox::opcode::OpCode;

const OPERATOR_PAIRS: [(&str, &str); 28] = [
    ("a + b + c;", "(a + b) + c;"),
    ("a - b - c;", "(a - b) - c;"),
    ("a * b * c;", "(a * b) * c;"),
    ("a / b / c;", "(a / b) / c;"),
    ("a + b * c;", "a + (b * c);"),
    ("a * b + c;", "(a * b) + c;"),
    ("a - b / c;", "a - (b / c);"),
    ("a * b > c;", "(a * b) > c;"),
    ("a + b == c;", "(a + b) == c;"),
    ("!a * b;", "(!a) * b;"),
    ("!a + b;", "(!a) + b;"),
    ("!a > b;", "(!a) > b;"),
    ("!!a;", "!(!a);"),
    ("a - b + c;", "(a - b) + c;"),
    ("a * b / c;", "(a * b) / c;"),
    ("a > b + c;", "a > (b + c);"),
    ("a != b * c;", "a != (b * c);"),
    ("a * !b;", "a * (!b);"),
    ("a + b * c - d / e;", "a + (b * c) - (d / e);"),
    ("!a + b * c;", "(!a) + (b * c);"),
    ("a - b - c - d;", "((a - b) - c) - d;"),
    ("a + b > c + d;", "(a + b) > (c + d);"),
    ("a >= b + c;", "a >= (b + c);"),
    ("a + b <= c;", "(a + b) <= c;"),
    ("a < b > c;", "(a < b) > c;"),
    ("a and b and c;", "(a and b) and c;"),
    ("a and b or c;", "(a and b) or c;"),
    ("a or b and c;", "a or (b and c);"),
];

fn check_operator_pairs() {
    for (index, &(left, right)) in OPERATOR_PAIRS.iter().enumerate() {
        let init = "var a;var b;var c;var d;var e;";
        let left = &format!("{{{init}{left}}}");
        let right = &format!("{{{init}{right}}}");
        let chunk_left = compile("test", left, &mut Interner::default()).ok().unwrap();
        let chunk_right = compile("test", right, &mut Interner::default()).ok().unwrap();
        assert_eq!(chunk_left.chunk.code, chunk_right.chunk.code, "case # {index}")
    }
}

#[test]
fn compile_test_parse_operators() {
    check_operator_pairs();
}

#[test]
fn compiler_test_parse_operators() {
    check_operator_pairs();
}

fn byte(op: OpCode) -> u8 {
    op.to_byte()
}

fn first_error(source: &str) -> String {
    match compile("test", source, &mut Interner::new()) {
        Ok(_) => panic!("expected a syntax error"),
        Err(errors) => {
            assert!(!errors.is_empty());
            errors[0].message.clone()
        }
    }
}

#[test]
fn compile_print_of_a_number() {
    let f = compile("script", "print 1;", &mut Interner::new()).ok().unwrap();
    assert_eq!(
        f.chunk.code,
        vec![
            byte(OpCode::Constant),
            0,
            0,
            byte(OpCode::Print),
            byte(OpCode::Nil),
            byte(OpCode::Return)
        ]
    );
    assert_eq!(f.chunk.spans.len(), f.chunk.code.len());
    assert_eq!(f.chunk.constants.len(), 1);
    assert_eq!(f.name.as_str(), "script");
    assert_eq!(f.arity, 0);
}

#[test]
fn compile_empty_source_returns_nil() {
    let f = compile("script", "", &mut Interner::new()).ok().unwrap();
    assert_eq!(f.chunk.code, vec![byte(OpCode::Nil), byte(OpCode::Return)]);
    assert_eq!(f.chunk.spans, vec![0..0, 0..0]);
}

#[test]
fn compile_while_loop_jumps() {
    let f = compile("script", "while (false) {}", &mut Interner::new()).ok().unwrap();
    assert_eq!(
        f.chunk.code,
        vec![
            byte(OpCode::False),
            byte(OpCode::JumpIfFalse),
            4,
            0,
            byte(OpCode::Pop),
            byte(OpCode::Loop),
            8,
            0,
            byte(OpCode::Pop),
            byte(OpCode::Nil),
            byte(OpCode::Return)
        ]
    );
}

#[test]
fn compile_if_else_jumps() {
    let f = compile("script", "if (true) nil; else nil;", &mut Interner::new()).ok().unwrap();
    assert_eq!(
        f.chunk.code,
        vec![
            byte(OpCode::True),
            byte(OpCode::JumpIfFalse),
            6,
            0,
            byte(OpCode::Pop),
            byte(OpCode::Nil),
            byte(OpCode::Pop),
            byte(OpCode::Jump),
            3,
            0,
            byte(OpCode::Pop),
            byte(OpCode::Nil),
            byte(OpCode::Pop),
            byte(OpCode::Nil),
            byte(OpCode::Return)
        ]
    );
}

#[test]
fn compile_global_variable() {
    let mut interner = Interner::new();
    let f = compile("script", "var x = true; print x;", &mut interner).ok().unwrap();
    assert_eq!(
        f.chunk.code,
        vec![
            byte(OpCode::True),
            byte(OpCode::DefineGlobal),
            0,
            0,
            byte(OpCode::GetGlobal),
            1,
            0,
            byte(OpCode::Print),
            byte(OpCode::Nil),
            byte(OpCode::Return)
        ]
    );
    assert_eq!(interner.len(), 2);
}

#[test]
fn compile_local_variable_in_block() {
    let f = compile("script", "{ var x = nil; x; }", &mut Interner::new()).ok().unwrap();
    assert_eq!(
        f.chunk.code,
        vec![
            byte(OpCode::Nil),
            byte(OpCode::GetLocal),
            1,
            0,
            byte(OpCode::Pop),
            byte(OpCode::Pop),
            byte(OpCode::Nil),
            byte(OpCode::Return)
        ]
    );
}

#[test]
fn compile_interns_names_once() {
    let mut interner = Interner::new();
    compile("main", "var main = nil; main;", &mut interner).ok().unwrap();
    assert_eq!(interner.len(), 1);
}

#[test]
fn compile_return_at_top_level_is_an_error() {
    assert_eq!(first_error("return 1;"), "Can't return from top-level code.");
}

#[test]
fn compile_break_outside_loop_is_an_error() {
    assert_eq!(first_error("break;"), "'break' outside loop.");
}

#[test]
fn compile_continue_outside_loop_is_an_error() {
    assert_eq!(first_error("continue;"), "'continue' outside loop.");
}

#[test]
fn compile_missing_semicolon_is_an_error() {
    assert_eq!(first_error("print 1"), "Expect ';' after value.");
}

#[test]
fn compile_unterminated_string_is_an_error() {
    assert_eq!(first_error("print \"abc"), "Unterminated string");
}

#[test]
fn compile_invalid_assignment_target_is_an_error() {
    assert_eq!(first_error("var a; var b; a + b = 1;"), "Invalid assignment target.");
}

#[test]
fn compile_missing_expression_is_an_error() {
    assert_eq!(first_error("print ;"), "Expected expression");
}

#[test]
fn compile_local_redeclaration_is_an_error() {
    let message = first_error("{ var a; var a; }");
    assert!(!message.is_empty());
}

#[test]
fn compile_collects_every_error() {
    match compile("test", "return 1; break; print 2;", &mut Interner::new()) {
        Ok(_) => panic!("expected syntax errors"),
        Err(errors) => assert_eq!(errors.len(), 2),
    }
}

#[test]
fn compile_break_inside_loop_is_patched_to_the_end() {
    let f = compile("script", "while (true) { break; }", &mut Interner::new()).ok().unwrap();
    let code = &f.chunk.code;
    assert_eq!(code[code.len() - 2], byte(OpCode::Nil));
    assert_eq!(code[code.len() - 1], byte(OpCode::Return));
    assert!(!code.windows(2).any(|w| w == [255, 255]));
}

#[test]
fn compile_function_declaration_is_a_constant() {
    let f = compile("script", "fun f(a, b) { return a; }", &mut Interner::new()).ok().unwrap();
    assert_eq!(f.chunk.constants.len(), 2);
    match &f.chunk.constants[0] {
        lox::chunk::Constant::Function(inner) => {
            assert_eq!(inner.arity, 2);
            assert_eq!(inner.name.as_str(), "f");
            let code = &inner.chunk.code;
            assert_eq!(code[code.len() - 2], byte(OpCode::Nil));
            assert_eq!(code[code.len() - 1], byte(OpCode::Return));
        }
        _ => panic!("expected a function constant"),
    }
}

#[test]
fn compile_unknown_character_is_an_error() {
    assert_eq!(first_error("print 1 @ 2;"), "Expect ';' after value.");
    assert!(compile("test", "var a = 1; a @;", &mut Interner::new()).is_err());
}

#[test]
fn compile_lexical_error_after_a_syntax_error_still_fails() {
    match compile("test", "print ; \"open", &mut Interner::new()) {
        Ok(_) => panic!("expected errors"),
        Err(errors) => assert!(!errors.is_empty()),
    }
}

#[test]
fn compile_errors_point_into_the_source() {
    let source = "var x = ;\nprint (1;\nreturn 2;";
    match compile("test", source, &mut Interner::new()) {
        Ok(_) => panic!("expected syntax errors"),
        Err(errors) => {
            assert_eq!(errors.len(), 3);
            for error in &errors {
                assert!(error.span.start <= error.span.end);
                assert!(error.span.end <= source.chars().count());
            }
        }
    }
}

#[test]
fn compiled_code_decodes_instruction_by_instruction() {
    let source = "var a = 1; { var b = a; while (b) { if (a and b) b = nil; else break; } } print a;";
    let f = compile("script", source, &mut Interner::new()).ok().unwrap();
    let mut offset = 0;
    let mut count = 0;
    while offset < f.chunk.code.len() {
        assert!(is_decodable(&f.chunk, offset));
        offset = decode_instruction(&f.chunk, offset).next;
        count += 1;
    }
    assert_eq!(offset, f.chunk.code.len());
    assert!(count > 10);
}

#[test]
fn compile_reports_each_expected_token() {
    let cases: [(&str, &str); 17] = [
        ("if 1) nil;", "Expect '(' after 'if'."),
        ("if (true nil;", "Expect ')' after condition."),
        ("while true) nil;", "Expect '(' after 'while'."),
        ("for ;;) nil;", "Expect '(' after 'for'."),
        ("for (;true nil;", "Expect ';' after condition."),
        ("for (;; nil nil;", "Expect ')' after for clauses."),
        ("fun f) {}", "Expect '(' after function name."),
        ("fun f(a {}", "Expect ')' after parameters."),
        ("fun f() nil;", "Expect '{' before function body."),
        ("fun f(1) {}", "Expect parameter name."),
        ("fun f() { return 1 }", "Expect ';' after return value."),
        ("var 1;", "Expect variable name."),
        ("var a = 1", "Expect ';' after variable declaration."),
        ("print (1;", "Expect ')' after expression."),
        ("{ print 1;", "Expect '}' after block."),
        ("while (true) break", "Expect ';' after break."),
        ("{ var a = a; }", "Can't read local variable in its own initializer."),
    ];
    for (source, message) in cases {
        assert_eq!(first_error(source), message, "source: {source}");
    }
}

#[test]
fn compile_redeclared_local_names_the_problem() {
    assert_eq!(
        first_error("{ var a; var a; }"),
        "Already a variable with this name in this scope."
    );
}

#[test]
fn compile_shadowing_in_an_inner_scope_is_allowed() {
    let f = compile("script", "{ var a; { var a; } }", &mut Interner::new());
    assert!(f.is_ok());
}

#[test]
fn compile_too_many_parameters_is_an_error() {
    let params: Vec<String> = (0..255).map(|i| format!("p{i}")).collect();
    let source = format!("fun f({}) {{}}", params.join(", "));
    assert_eq!(first_error(&source), "Can't have more than 255 parameters.");
}

#[test]
fn compile_operators_follow_their_operands() {
    let f = compile("script", "print 1 - 2 * 3;", &mut Interner::new()).ok().unwrap();
    assert_eq!(
        f.chunk.code,
        vec![
            byte(OpCode::Constant),
            0,
            0,
            byte(OpCode::Constant),
            1,
            0,
            byte(OpCode::Constant),
            2,
            0,
            byte(OpCode::Multiply),
            byte(OpCode::Subtract),
            byte(OpCode::Print),
            byte(OpCode::Nil),
            byte(OpCode::Return)
        ]
    );
}

#[test]
fn compile_greater_equal_is_not_less() {
    let f = compile("script", "print -1 >= 2;", &mut Interner::new()).ok().unwrap();
    assert_eq!(
        f.chunk.code,
        vec![
            byte(OpCode::Constant),
            0,
            0,
            byte(OpCode::Negate),
            byte(OpCode::Constant),
            1,
            0,
            byte(OpCode::Less),
            byte(OpCode::Not),
            byte(OpCode::Print),
            byte(OpCode::Nil),
            byte(OpCode::Return)
        ]
    );
}
