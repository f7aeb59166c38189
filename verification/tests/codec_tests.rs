use register_machines::codec::{
    decode_godel_to_list, decode_instruction, decode_list_to_program, decode_pair1, decode_pair2,
    encode_list_to_godel, encode_pair1, encode_pair2, encode_program_to_list,
};
use register_machines::machine::Instruction;
use register_machines::natural::Natural;

fn num(v: u128) -> Natural {
    Natural::from_u128(v)
}

fn nats(vs: &[u128]) -> Vec<Natural> {
    vs.iter().map(|v| num(*v)).collect()
}

#[test]
fn halt_encodes_to_godel_zero_num() {
    let g = Instruction::Halt.encode_instruction();
    assert_eq!(g, Natural::zero());
}

#[test]
fn godel_zero_num_decodes_to_halt() {
    let ins = decode_instruction(&Natural::zero());
    assert_eq!(ins, Instruction::Halt);
}

#[test]
fn godel_num_to_godel_list() {
    let n = num(20483).shl(46);
    let godel_list = decode_godel_to_list(&n);
    let true_godel_list = nats(&[46, 0, 10, 1]);
    assert_eq!(godel_list, true_godel_list)
}

#[test]
fn godel_num_to_godel_list_large_num() {
    let n = num(833).shl(216);
    let godel_list = decode_godel_to_list(&n);
    let true_godel_list = nats(&[216, 5, 1, 0]);
    assert_eq!(godel_list, true_godel_list)
}

#[test]
fn godel_list_to_godel_num() {
    let true_godel_list = nats(&[46, 0, 10, 1]);
    let godel_num = encode_list_to_godel(&true_godel_list);
    assert_eq!(godel_num, num(2u128.pow(46) * 20483))
}

#[test]
fn godel_list_to_program() {
    let true_godel_list = nats(&[46, 0, 10, 1]);
    let program = decode_list_to_program(&true_godel_list);
    assert_eq!(
        program,
        vec![
            Instruction::Sub(0, 2, 1),
            Instruction::Halt,
            Instruction::Sub(0, 0, 1),
            Instruction::Add(0, 0)
        ]
    )
}

#[test]
fn godel_list_to_program_2() {
    let true_godel_list = nats(&[408, 2272, 7, 192, 8064, 144, 0]);
    let program = decode_list_to_program(&true_godel_list);
    assert_eq!(
        program,
        vec![
            Instruction::Sub(1, 1, 6),
            Instruction::Sub(2, 2, 4),
            Instruction::Add(0, 3),
            Instruction::Add(3, 1),
            Instruction::Sub(3, 5, 0),
            Instruction::Add(2, 4),
            Instruction::Halt
        ]
    )
}

#[test]
fn program_to_godel_list() {
    let program = encode_program_to_list(&vec![
        Instruction::Sub(0, 2, 1),
        Instruction::Halt,
        Instruction::Sub(0, 0, 1),
        Instruction::Add(0, 0),
    ]);
    let true_godel_list = nats(&[46, 0, 10, 1]);
    assert_eq!(program, true_godel_list)
}

#[test]
fn program_to_godel_list_2() {
    let program = encode_program_to_list(&vec![
        Instruction::Sub(1, 1, 6),
        Instruction::Sub(2, 2, 4),
        Instruction::Add(0, 3),
        Instruction::Add(3, 1),
        Instruction::Sub(3, 5, 0),
        Instruction::Add(2, 4),
        Instruction::Halt,
    ]);
    let true_godel_list = nats(&[408, 2272, 7, 192, 8064, 144, 0]);
    assert_eq!(program, true_godel_list)
}

#[test]
fn pair1_has_exact_values() {
    // 2^2 * (2*3 + 1) = 28
    assert_eq!(encode_pair1(&num(2), &num(3)), num(28));
    assert_eq!(encode_pair1(&num(0), &num(0)), num(1));
    assert_eq!(encode_pair2(&num(2), &num(3)), num(27));
    assert_eq!(encode_pair2(&num(0), &num(0)), num(0));
}

#[test]
fn pair1_round_trips() {
    let (x, y) = decode_pair1(&num(28));
    assert_eq!(x, num(2));
    assert_eq!(y, num(3));
    for a in 1u128..200 {
        let (x, y) = decode_pair1(&num(a));
        assert_eq!(encode_pair1(&x, &y), num(a));
    }
    for x in 0u128..8 {
        for y in 0u128..8 {
            let code = encode_pair1(&num(x), &num(y));
            let (dx, dy) = decode_pair1(&code);
            assert_eq!(dx, num(x));
            assert_eq!(dy, num(y));
        }
    }
}

#[test]
fn pair2_round_trips() {
    let (x, y) = decode_pair2(&num(27));
    assert_eq!(x, num(2));
    assert_eq!(y, num(3));
    for a in 0u128..200 {
        let (x, y) = decode_pair2(&num(a));
        assert_eq!(encode_pair2(&x, &y), num(a));
    }
    for x in 0u128..8 {
        for y in 0u128..8 {
            let code = encode_pair2(&num(x), &num(y));
            let (dx, dy) = decode_pair2(&code);
            assert_eq!(dx, num(x));
            assert_eq!(dy, num(y));
        }
    }
}

#[test]
fn empty_list_encodes_to_zero() {
    assert_eq!(encode_list_to_godel(&Vec::new()), Natural::zero());
    assert_eq!(decode_godel_to_list(&Natural::zero()), Vec::<Natural>::new());
}

#[test]
fn list_round_trips() {
    let lists: [&[u128]; 5] = [&[], &[0], &[0, 0, 0], &[5, 1, 0, 2], &[46, 0, 10, 1]];
    for l in lists.iter() {
        let list = nats(l);
        let g = encode_list_to_godel(&list);
        assert_eq!(decode_godel_to_list(&g), list);
    }
    for g in 0u128..200 {
        let list = decode_godel_to_list(&num(g));
        assert_eq!(encode_list_to_godel(&list), num(g));
    }
}

#[test]
fn instruction_round_trips() {
    let cases = vec![
        Instruction::Halt,
        Instruction::Add(0, 0),
        Instruction::Sub(0, 0, 0),
        Instruction::Add(7, 3),
        Instruction::Sub(5, 9, 2),
        Instruction::Add(1000, 65535),
    ];
    for ins in cases {
        let code = ins.encode_instruction();
        assert_eq!(decode_instruction(&code), ins);
    }
}

#[test]
fn program_round_trips() {
    let program = vec![
        Instruction::Sub(1, 1, 6),
        Instruction::Sub(2, 2, 4),
        Instruction::Add(0, 3),
        Instruction::Add(3, 1),
        Instruction::Sub(3, 5, 0),
        Instruction::Add(2, 4),
        Instruction::Halt,
    ];
    let list = encode_program_to_list(&program);
    assert_eq!(decode_list_to_program(&list), program);
}

#[test]
fn whole_program_collapses_to_one_number() {
    // composing both layers: program -> list -> single number -> list -> program
    let program = vec![
        Instruction::Sub(0, 2, 1),
        Instruction::Halt,
        Instruction::Sub(0, 0, 1),
        Instruction::Add(0, 0),
    ];
    let g = encode_list_to_godel(&encode_program_to_list(&program));
    let back = decode_list_to_program(&decode_godel_to_list(&g));
    assert_eq!(back, program);
}
