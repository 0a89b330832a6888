use rox_lib::chunk::{Chunk, OpCode};
use rox_lib::compiler::compile;
use rox_lib::debug::{disassemble_chuck, disassemble_instruction, Operand};
use rox_lib::value::Value;

fn to_bits(text: String) -> u64 {
    text.parse::<f64>().unwrap().to_bits()
}

#[test]
fn disassemble_lists_every_instruction() {
    let chunk = compile("var a = 1;\nif (a) print a;", &to_bits).unwrap();
    let listing = disassemble_chuck(&chunk);

    let offsets: Vec<usize> = listing.iter().map(|l| l.offset).collect();
    assert_eq!(offsets, vec![0, 2, 4, 6, 9, 10, 12, 13, 16, 17]);
    let ops: Vec<OpCode> = listing.iter().map(|l| l.op).collect();
    assert_eq!(
        ops,
        vec![
            OpCode::Constant,
            OpCode::DefineGlobal,
            OpCode::GetGlobal,
            OpCode::JumpIfFalse,
            OpCode::Pop,
            OpCode::GetGlobal,
            OpCode::Print,
            OpCode::Jump,
            OpCode::Pop,
            OpCode::Return
        ]
    );
    assert_eq!(listing.last().unwrap().next, chunk.code.len());
    // The line is shown where it changes.
    assert_eq!(listing[0].line, Some(1));
    assert_eq!(listing[1].line, None);
    assert_eq!(listing[2].line, Some(2));
    assert_eq!(listing[3].line, None);
}

#[test]
fn disassemble_shows_operands() {
    let chunk = compile("var a = 1;\nif (a) print a;", &to_bits).unwrap();
    let listing = disassemble_chuck(&chunk);

    match &listing[0].operand {
        Operand::Constant { index, value } => {
            assert_eq!(*index, 1);
            assert_eq!(*value, Value::Number(1.0f64.to_bits()));
        }
        other => panic!("{:?}", other),
    }
    match &listing[1].operand {
        Operand::Constant { index, value } => {
            assert_eq!(*index, 0);
            assert_eq!(*value, Value::String(String::from("a")));
        }
        other => panic!("{:?}", other),
    }
    // JumpIfFalse at 6 over seven bytes: 6 + 3 + 7.
    assert!(matches!(listing[3].operand, Operand::Target(16)));
    // Jump at 13 over one byte: 13 + 3 + 1.
    assert!(matches!(listing[7].operand, Operand::Target(17)));
    assert!(matches!(listing[4].operand, Operand::Nothing));
}

#[test]
fn disassemble_loop_and_slots() {
    let chunk = compile("{ var a; while (a) a = 1; }", &to_bits).unwrap();
    let listing = disassemble_chuck(&chunk);
    assert!(matches!(listing[1].operand, Operand::Slot(0)));
    let back = listing.iter().find(|l| l.op == OpCode::Loop).unwrap();
    // The loop goes back to the condition at offset 1.
    assert!(matches!(back.operand, Operand::Target(1)));
}

#[test]
fn disassemble_stops_at_what_it_cannot_list() {
    let chunk = Chunk {
        code: vec![1, 4, 99, 1],
        constants: Vec::new(),
        lines: vec![1, 1, 1, 1],
    };
    assert_eq!(disassemble_chuck(&chunk).len(), 2);
    assert!(disassemble_instruction(&chunk, 2).is_none());
    assert!(disassemble_instruction(&chunk, 3).is_some());
    assert!(disassemble_instruction(&chunk, 4).is_none());

    let truncated = Chunk {
        code: vec![0],
        constants: vec![Value::Nil],
        lines: vec![1],
    };
    assert!(disassemble_chuck(&truncated).is_empty());
    let missing = Chunk {
        code: vec![0, 3],
        constants: vec![Value::Nil],
        lines: vec![1, 1],
    };
    assert!(disassemble_instruction(&missing, 0).is_none());
    let back = Chunk {
        code: vec![22, 0, 4],
        constants: Vec::new(),
        lines: vec![1, 1, 1],
    };
    assert!(disassemble_instruction(&back, 0).is_none());
}
