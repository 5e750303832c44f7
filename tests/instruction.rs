use dirsize::instruction::{parse_instruction, Instruction, InstructionError};

#[test]
fn parent_command() {
    assert_eq!(parse_instruction("..", 3), Ok(Instruction::Parent));
}

#[test]
fn index_commands() {
    assert_eq!(parse_instruction("1", 3), Ok(Instruction::Index(1)));
    assert_eq!(parse_instruction("3", 3), Ok(Instruction::Index(3)));
    assert_eq!(parse_instruction("+2", 3), Ok(Instruction::Index(2)));
    assert_eq!(parse_instruction("007", 9), Ok(Instruction::Index(7)));
}

#[test]
fn out_of_range_commands() {
    assert_eq!(parse_instruction("4", 3), Err(InstructionError::OutOfRange));
    assert_eq!(parse_instruction("0", 3), Err(InstructionError::OutOfRange));
    assert_eq!(parse_instruction("1", 0), Err(InstructionError::OutOfRange));
}

#[test]
fn invalid_commands() {
    assert_eq!(parse_instruction("", 3), Err(InstructionError::Invalid));
    assert_eq!(parse_instruction("+", 3), Err(InstructionError::Invalid));
    assert_eq!(parse_instruction("abc", 3), Err(InstructionError::Invalid));
    assert_eq!(parse_instruction("1a", 3), Err(InstructionError::Invalid));
    assert_eq!(parse_instruction("...", 3), Err(InstructionError::Invalid));
    assert_eq!(parse_instruction("-1", 3), Err(InstructionError::Invalid));
    assert_eq!(parse_instruction("99999999999999999999999", 3), Err(InstructionError::Invalid));
}
