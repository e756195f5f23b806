use aoc24::day17::{part_1, reverse, Machine, Program};

#[test]
fn machine_sample_program_output() {
    let text = "Register A: 729\nRegister B: 0\nRegister C: 0\n\nProgram: 0,1,5,4,3,0\n";
    assert_eq!(part_1(text), Some(vec![4, 6, 3, 5, 6, 3, 5, 2, 1, 0]));
}

#[test]
fn machine_small_programs() {
    let text = "Register A: 10\nRegister B: 0\nRegister C: 0\n\nProgram: 5,0,5,1,5,4\n";
    assert_eq!(part_1(text), Some(vec![0, 1, 2]));
    let text = "Register A: 2024\nRegister B: 0\nRegister C: 0\n\nProgram: 0,1,5,4,3,0\n";
    assert_eq!(part_1(text), Some(vec![4, 2, 5, 6, 7, 7, 7, 7, 3, 1, 0]));
}

#[test]
fn machine_single_instructions() {
    let program = Program(vec![2, 6]);
    let mut m = Machine { instruction_pointer: 0, registers: [0, 0, 9] };
    let mut out = Vec::new();
    assert!(m.execute_instruction(&program, &mut out));
    assert_eq!(m.registers[1], 1);
    assert!(m.halted(&program));

    let program = Program(vec![1, 7]);
    let mut m = Machine { instruction_pointer: 0, registers: [0, 29, 0] };
    assert!(m.execute_instruction(&program, &mut out));
    assert_eq!(m.registers[1], 26);

    let program = Program(vec![4, 0]);
    let mut m = Machine { instruction_pointer: 0, registers: [0, 2024, 43690] };
    assert!(m.execute_instruction(&program, &mut out));
    assert_eq!(m.registers[1], 44354);

    let program = Program(vec![0, 7]);
    let mut m = Machine { instruction_pointer: 0, registers: [8, 0, 0] };
    assert!(!m.execute_instruction(&program, &mut out));
    assert!(out.is_empty());
}

#[test]
fn machine_search_backward() {
    assert_eq!(reverse(0, &[]), Some(0));
    assert_eq!(reverse(0, &[6]), Some(0));
    assert_eq!(reverse(0, &[7]), Some(1));
}

#[test]
fn machine_endless_program_is_given_up() {
    let text = "Register A: 1\nRegister B: 0\nRegister C: 0\n\nProgram: 3,0\n";
    assert_eq!(part_1(text), None);
}
