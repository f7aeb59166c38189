use register_machines::machine::{eval_program, Instruction, Registers};
use register_machines::natural::Natural;

fn num(v: u128) -> Natural {
    Natural::from_u128(v)
}

#[test]
fn program_produces_correct_state() {
    let program = vec![
        Instruction::Sub(1, 2, 1),
        Instruction::Halt,
        Instruction::Sub(1, 3, 4),
        Instruction::Sub(1, 5, 4),
        Instruction::Halt,
        Instruction::Add(0, 0),
    ];
    let mut regs = Registers::new();
    regs.set(0, num(0));
    regs.set(1, num(7));
    let final_state = eval_program(&program, &(0, regs));
    assert_eq!(final_state.0, 4);
    assert_eq!(final_state.1.get(0), num(2));
    assert_eq!(final_state.1.get(1), num(0));
}

#[test]
fn empty_program_halts_immediately() {
    let program: Vec<Instruction> = Vec::new();
    let regs = Registers::new();
    let final_state = eval_program(&program, &(0, regs));
    assert_eq!(final_state.0, 0);
    assert_eq!(final_state.1.get(0), num(0));
}

#[test]
fn out_of_bounds_label_halts() {
    let program = vec![Instruction::Add(0, 9)];
    let mut regs = Registers::new();
    regs.set(3, num(5));
    let final_state = eval_program(&program, &(0, regs));
    assert_eq!(final_state.0, 9);
    assert_eq!(final_state.1.get(0), num(1));
    assert_eq!(final_state.1.get(3), num(5));
}

#[test]
fn absent_register_reads_as_zero() {
    // decrementing an absent register takes the zero branch
    let program = vec![Instruction::Sub(42, 0, 3), Instruction::Halt];
    let regs = Registers::new();
    let final_state = eval_program(&program, &(0, regs));
    assert_eq!(final_state.0, 3);
    assert_eq!(final_state.1.get(42), num(0));
}

#[test]
fn evaluator_does_not_mutate_input_state() {
    let program = vec![Instruction::Add(0, 5)];
    let mut regs = Registers::new();
    regs.set(0, num(11));
    let state = (0usize, regs);
    let final_state = eval_program(&program, &state);
    assert_eq!(final_state.1.get(0), num(12));
    assert_eq!(state.1.get(0), num(11));
}

#[test]
fn addition_program_adds_registers() {
    // moves register 1 into register 0 one unit at a time
    let program = vec![
        Instruction::Sub(1, 1, 2),
        Instruction::Add(0, 0),
        Instruction::Halt,
    ];
    let mut regs = Registers::new();
    regs.set(0, num(3));
    regs.set(1, num(4));
    let final_state = eval_program(&program, &(0, regs));
    assert_eq!(final_state.0, 2);
    assert_eq!(final_state.1.get(0), num(7));
    assert_eq!(final_state.1.get(1), num(0));
}
