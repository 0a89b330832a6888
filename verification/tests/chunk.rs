use rox_lib::chunk::{Chunk, OpCode};
use rox_lib::value::Value;

#[test]
fn chunk_write() {
    let mut chunk = Chunk::new();

    chunk.write(0, 1);

    assert_eq!(chunk.code[0], 0);
    assert_eq!(chunk.lines[0], 1);
}

#[test]
fn chunk_add_constant() {
    let mut chunk = Chunk::new();

    let index = chunk.add_constant(Value::Number(1.5f64.to_bits()));

    assert_eq!(index, 0);
    assert_eq!(chunk.constants[0], Value::Number(1.5f64.to_bits()));
}

#[test]
fn chunk_write_keeps_code_and_lines_aligned() {
    let mut chunk = Chunk::new();

    chunk.write(OpCode::Nil.byte(), 1);
    chunk.write(OpCode::Pop.byte(), 2);
    chunk.write(OpCode::Return.byte(), 2);

    assert_eq!(chunk.code, vec![1, 4, 23]);
    assert_eq!(chunk.lines, vec![1, 2, 2]);
    assert_eq!(chunk.code.len(), chunk.lines.len());
}

#[test]
fn chunk_add_constant_counts_up() {
    let mut chunk = Chunk::new();

    assert_eq!(chunk.add_constant(Value::Nil), 0);
    assert_eq!(chunk.add_constant(Value::Boolean(true)), 1);
    assert_eq!(chunk.add_constant(Value::String(String::from("a"))), 2);
    assert_eq!(chunk.constants.len(), 3);
    assert!(chunk.code.is_empty());
}

#[test]
fn opcode_bytes_round_trip() {
    for byte in 0u8..24 {
        let op = OpCode::from(byte);
        assert_eq!(op.byte(), byte);
        assert_eq!(OpCode::decode(byte), Some(op));
    }
}

#[test]
fn opcode_decode_rejects_unknown_bytes() {
    assert_eq!(OpCode::decode(24), None);
    assert_eq!(OpCode::decode(255), None);
}

#[test]
fn opcode_operand_counts() {
    assert_eq!(OpCode::Constant.operand_count(), 1);
    assert_eq!(OpCode::GetLocal.operand_count(), 1);
    assert_eq!(OpCode::SetLocal.operand_count(), 1);
    assert_eq!(OpCode::GetGlobal.operand_count(), 1);
    assert_eq!(OpCode::DefineGlobal.operand_count(), 1);
    assert_eq!(OpCode::SetGlobal.operand_count(), 1);
    assert_eq!(OpCode::Jump.operand_count(), 2);
    assert_eq!(OpCode::JumpIfFalse.operand_count(), 2);
    assert_eq!(OpCode::Loop.operand_count(), 2);
    assert_eq!(OpCode::Add.operand_count(), 0);
    assert_eq!(OpCode::Return.operand_count(), 0);
}

#[test]
fn opcode_names() {
    assert_eq!(OpCode::Constant.name(), "CONSTANT");
    assert_eq!(OpCode::JumpIfFalse.name(), "JUMP IF FALSE");
    assert_eq!(OpCode::DefineGlobal.name(), "DEFINE GLOBAL");
    assert_eq!(OpCode::Multiple.name(), "MULTIPLE");
    assert_eq!(OpCode::Loop.name(), "LOOP");
    assert_eq!(OpCode::Return.name(), "RETURN");
}
