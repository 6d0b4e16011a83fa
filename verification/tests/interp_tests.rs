use concordevm::fault::Fault;
use concordevm::instructions::{Instruction, Interrupt};
use concordevm::interp::{cycle, execute_instruction, Program};
use concordevm::memory::Memory;

fn step(instructions: Vec<Instruction>, pc: usize, mem: &mut Memory) -> (Interrupt, usize) {
    let mut program = Program::new(instructions, pc);
    let interrupt = cycle(mem, &mut program).unwrap();
    (interrupt, program.pc)
}

#[test]
fn pc_steps_past_non_control_flow() {
    let mut mem = Memory::new(64);
    let cases = vec![
        Instruction::NoOp,
        Instruction::WriteInt(0, 7),
        Instruction::WriteBool(0, true),
        Instruction::WriteBytes(0, vec![1, 2]),
        Instruction::MemCpy(0, 8, 4),
        Instruction::MemExtend(4),
        Instruction::Add(0, 8, 16),
        Instruction::CompareEqual(0, 8, 16),
    ];
    for instruction in cases {
        let (interrupt, pc) = step(vec![Instruction::NoOp, instruction], 1, &mut mem);
        assert_eq!(interrupt, Interrupt::Continue);
        assert_eq!(pc, 2);
    }
}

#[test]
fn pc_follows_jump() {
    let mut mem = Memory::new(8);
    let (interrupt, pc) = step(vec![Instruction::Jump(5)], 0, &mut mem);
    assert_eq!(interrupt, Interrupt::Continue);
    assert_eq!(pc, 5);
}

#[test]
fn pc_follows_conditional_jump() {
    let mut mem = Memory::new(8);
    mem.write_bool(0, true).unwrap();
    let (_, pc) = step(vec![Instruction::JumpIfTrue(7, 0)], 0, &mut mem);
    assert_eq!(pc, 7);

    mem.write_bool(0, false).unwrap();
    let (_, pc) = step(vec![Instruction::JumpIfTrue(7, 0)], 0, &mut mem);
    assert_eq!(pc, 1);

    // any non-zero condition byte triggers the jump
    mem.write_bytes(0, &[200]).unwrap();
    let (_, pc) = step(vec![Instruction::JumpIfTrue(3, 0)], 0, &mut mem);
    assert_eq!(pc, 3);
}

#[test]
fn pc_past_end_is_eof() {
    let mut mem = Memory::new(8);
    let (interrupt, pc) = step(vec![Instruction::NoOp], 1, &mut mem);
    assert_eq!(interrupt, Interrupt::Eof);
    assert_eq!(pc, 1);
}

fn binop(instruction: Instruction, a: i64, b: i64) -> i64 {
    let mut mem = Memory::new(32);
    mem.write_int(0, a).unwrap();
    mem.write_int(8, b).unwrap();
    execute_instruction(&instruction, &mut mem, 0).unwrap();
    mem.read_int(16).unwrap()
}

#[test]
fn arithmetic_wraps() {
    assert_eq!(binop(Instruction::Add(0, 8, 16), 2, 3), 5);
    assert_eq!(binop(Instruction::Add(0, 8, 16), i64::MAX, 1), i64::MIN);
    assert_eq!(binop(Instruction::Sub(0, 8, 16), 2, 5), -3);
    assert_eq!(binop(Instruction::Sub(0, 8, 16), i64::MIN, 1), i64::MAX);
    assert_eq!(binop(Instruction::Mul(0, 8, 16), -4, 6), -24);
    assert_eq!(binop(Instruction::Mul(0, 8, 16), i64::MAX, 2), -2);
}

#[test]
fn division_truncates_toward_zero() {
    assert_eq!(binop(Instruction::Div(0, 8, 16), 7, 2), 3);
    assert_eq!(binop(Instruction::Div(0, 8, 16), -7, 2), -3);
    assert_eq!(binop(Instruction::Div(0, 8, 16), 7, -2), -3);
    assert_eq!(binop(Instruction::Div(0, 8, 16), -7, -2), 3);
    assert_eq!(binop(Instruction::Div(0, 8, 16), i64::MIN, -1), i64::MIN);
}

#[test]
fn remainder_has_dividend_sign() {
    assert_eq!(binop(Instruction::Mod(0, 8, 16), 7, 2), 1);
    assert_eq!(binop(Instruction::Mod(0, 8, 16), -7, 2), -1);
    assert_eq!(binop(Instruction::Mod(0, 8, 16), 7, -2), 1);
    assert_eq!(binop(Instruction::Mod(0, 8, 16), -7, -2), -1);
    assert_eq!(binop(Instruction::Mod(0, 8, 16), i64::MIN, -1), 0);
}

#[test]
fn min_max() {
    assert_eq!(binop(Instruction::Min(0, 8, 16), 3, -5), -5);
    assert_eq!(binop(Instruction::Max(0, 8, 16), 3, -5), 3);
    assert_eq!(binop(Instruction::Min(0, 8, 16), 4, 4), 4);
}

#[test]
fn fused_multiply_add() {
    let mut mem = Memory::new(40);
    mem.write_int(0, 3).unwrap();
    mem.write_int(8, 4).unwrap();
    mem.write_int(16, 5).unwrap();
    execute_instruction(&Instruction::Fma(0, 8, 16, 24), &mut mem, 0).unwrap();
    assert_eq!(mem.read_int(24).unwrap(), 17);
}

#[test]
fn comparisons_write_one_byte_booleans() {
    assert_eq!(binop_bool(Instruction::CompareEqual(0, 8, 16), 4, 4), true);
    assert_eq!(binop_bool(Instruction::CompareEqual(0, 8, 16), 4, 5), false);
    assert_eq!(binop_bool(Instruction::CompareGreater(0, 8, 16), 5, 3), true);
    assert_eq!(binop_bool(Instruction::CompareGreater(0, 8, 16), 3, 5), false);
    assert_eq!(binop_bool(Instruction::CompareLesser(0, 8, 16), 3, 5), true);
    assert_eq!(binop_bool(Instruction::CompareLesser(0, 8, 16), 5, 3), false);
}

fn binop_bool(instruction: Instruction, a: i64, b: i64) -> bool {
    let mut mem = Memory::new(32);
    mem.write_int(0, a).unwrap();
    mem.write_int(8, b).unwrap();
    execute_instruction(&instruction, &mut mem, 0).unwrap();
    mem.read_bool(16).unwrap()
}

#[test]
fn division_by_zero_faults_without_writing() {
    let mut mem = Memory::new(32);
    mem.write_int(0, 10).unwrap();
    mem.write_int(8, 0).unwrap();
    let mut program = Program::new(
        vec![Instruction::Div(0, 8, 16), Instruction::Mod(0, 8, 16)],
        0,
    );
    assert_eq!(cycle(&mut mem, &mut program), Err(Fault::DivisionByZero));
    // nothing was written at the destination, and the counter did not move
    assert_eq!(mem.read_int(16).unwrap(), 0);
    assert_eq!(program.pc, 0);
    program.pc = 1;
    assert_eq!(cycle(&mut mem, &mut program), Err(Fault::DivisionByZero));
    assert_eq!(mem.read_int(16).unwrap(), 0);
}

#[test]
fn out_of_bounds_operand_faults() {
    let mut mem = Memory::new(8);
    let r = execute_instruction(&Instruction::Add(0, 8, 16), &mut mem, 0);
    assert_eq!(r, Err(Fault::OutOfBounds));
}

#[test]
fn write_string_places_utf8_bytes() {
    let mut mem = Memory::new(16);
    execute_instruction(&Instruction::WriteString(2, String::from("hi")), &mut mem, 0).unwrap();
    assert_eq!(mem.read_bytes(2, 2).unwrap(), vec![b'h', b'i']);
}

#[test]
fn fork_shares_code_at_new_counter() {
    let program = Program::new(vec![Instruction::NoOp, Instruction::Jump(0)], 0);
    let forked = program.fork(1);
    assert_eq!(forked.pc, 1);
    assert_eq!(forked.len(), program.len());
}
