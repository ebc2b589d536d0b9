use lox::chunk::{Chunk, Constant};
use lox::opcode::OpCode;

#[test]
fn new_chunk_is_empty() {
    let chunk = Chunk::new();
    assert!(chunk.code.is_empty());
    assert!(chunk.spans.is_empty());
    assert!(chunk.constants.is_empty());
}

#[test]
fn add_code_appends_byte_and_span() {
    let mut chunk = Chunk::new();
    chunk.add_byte(42u8, 0..1);
    chunk.add_byte(100u8, 1..2);

    assert_eq!(chunk.code, vec![42, 100]);
    assert_eq!(chunk.spans, vec![0..1, 1..2]);
}

#[test]
fn push_constant_returns_correct_index() {
    let mut chunk = Chunk::new();
    let idx1 = chunk.push_constant(Constant::Number("10.0".to_string()));
    let idx2 = chunk.push_constant(Constant::Number("20.0".to_string()));
    let idx3 = chunk.push_constant(Constant::Number("30.0".to_string()));

    assert_eq!(idx1, 0);
    assert_eq!(idx2, 1);
    assert_eq!(idx3, 2);
    assert_eq!(chunk.constants.len(), 3);
}

#[test]
fn add_word_is_little_endian() {
    let mut chunk = Chunk::new();
    chunk.add_word(0x1234, 3..5);
    assert_eq!(chunk.code, vec![0x34, 0x12]);
    assert_eq!(chunk.spans, vec![3..5, 3..5]);
    assert_eq!(chunk.read_word(0), 0x1234);
}

#[test]
fn patch_word_then_read_word_gives_it_back() {
    let mut chunk = Chunk::new();
    chunk.add_byte(OpCode::Jump.to_byte(), 0..1);
    chunk.add_word(0xffff, 0..1);
    chunk.patch_word(1, 513);
    assert_eq!(chunk.code, vec![OpCode::Jump.to_byte(), 1, 2]);
    assert_eq!(chunk.read_word(1), 513);
}

#[test]
fn opcode_byte_roundtrip() {
    for byte in 0u8..=255 {
        let op = OpCode::from_byte(byte);
        if byte < 31 {
            assert_eq!(op.to_byte(), byte);
        } else {
            assert_eq!(op.to_byte(), OpCode::Pass.to_byte());
        }
    }
    assert_eq!(OpCode::Return.to_byte(), 3);
    assert_eq!(OpCode::SetGlobal.to_byte(), 20);
    assert_eq!(OpCode::from_byte(17).to_byte(), OpCode::Pop.to_byte());
}

use lox::chunk::debug::{decode_instruction, is_decodable};
use lox::chunk::FunctionObject;
use std::rc::Rc;

#[test]
fn decode_simple_and_word_instructions() {
    let mut chunk = Chunk::new();
    chunk.add_byte(OpCode::Nil.to_byte(), 0..1);
    chunk.add_byte(OpCode::Jump.to_byte(), 1..2);
    chunk.add_word(7, 1..2);
    assert!(is_decodable(&chunk, 0));
    let first = decode_instruction(&chunk, 0);
    assert_eq!(first.opcode, OpCode::Nil);
    assert_eq!(first.operand, None);
    assert_eq!(first.next, 1);
    let second = decode_instruction(&chunk, 1);
    assert_eq!(second.opcode, OpCode::Jump);
    assert_eq!(second.operand, Some(7));
    assert_eq!(second.next, 4);
    assert!(!is_decodable(&chunk, 4));
}

#[test]
fn decode_closure_reads_its_captures() {
    let mut chunk = Chunk::new();
    let mut function = FunctionObject::new(&Rc::new("f".to_string()));
    function.upvalue_count = 2;
    let index = chunk.push_constant(Constant::Function(Box::new(function)));
    chunk.add_byte(OpCode::Closure.to_byte(), 0..1);
    chunk.add_word(index, 0..1);
    chunk.add_byte(1, 0..1);
    chunk.add_word(3, 0..1);
    chunk.add_byte(0, 0..1);
    chunk.add_word(258, 0..1);
    assert!(is_decodable(&chunk, 0));
    let closure = decode_instruction(&chunk, 0);
    assert_eq!(closure.opcode, OpCode::Closure);
    assert_eq!(closure.operand, Some(0));
    assert_eq!(closure.captures.len(), 2);
    assert!(closure.captures[0].is_local);
    assert_eq!(closure.captures[0].index, 3);
    assert!(!closure.captures[1].is_local);
    assert_eq!(closure.captures[1].index, 258);
    assert_eq!(closure.next, 9);
}

#[test]
fn decode_refuses_cut_short_or_dangling_instructions() {
    let mut chunk = Chunk::new();
    chunk.add_byte(OpCode::Constant.to_byte(), 0..1);
    assert!(!is_decodable(&chunk, 0));
    chunk.add_word(0, 0..1);
    assert!(!is_decodable(&chunk, 0));
    chunk.push_constant(Constant::Number("1".to_string()));
    assert!(is_decodable(&chunk, 0));
}

#[test]
fn listing_skips_three_more_bytes_after_a_closure() {
    let mut chunk = Chunk::new();
    let mut function = FunctionObject::new(&Rc::new("f".to_string()));
    function.upvalue_count = 1;
    let index = chunk.push_constant(Constant::Function(Box::new(function)));
    chunk.add_byte(OpCode::Closure.to_byte(), 0..1);
    chunk.add_word(index, 0..1);
    chunk.add_byte(1, 0..1);
    chunk.add_word(0, 0..1);
    chunk.add_byte(OpCode::Nil.to_byte(), 1..2);
    let closure = decode_instruction(&chunk, 0);
    assert_eq!(closure.next, 6);
    assert_eq!(lox::chunk::debug::listing_next(&closure), 9);
    let nil = decode_instruction(&chunk, 6);
    assert_eq!(lox::chunk::debug::listing_next(&nil), 7);
}
