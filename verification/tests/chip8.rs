use playground::chip8::CHIP8;

#[test]
fn call_addxy_twice() {
    let mut chip = CHIP8::new();

    // call the add_xy twice
    chip.memory[0x0..0x6].copy_from_slice(&[0x22, 0x00, 0x22, 0x00, 0x00, 0x00]);

    // add_xy function
    chip.memory[0x200..0x204].copy_from_slice(&[0x80, 0x14, 0x00, 0xEE]);

    chip.registers[0] = 2;
    chip.registers[1] = 3;

    chip.run();

    assert_eq!(chip.registers[0], 8);
}

#[test]
fn fibonacci_iterative() {
    let mut chip = CHIP8::new();

    chip.registers[0] = 0; // tmp
    chip.registers[1] = 1; // prev_1
    chip.registers[2] = 0; // prev_2
    chip.registers[3] = 2; // i

    chip.memory[0x00..0x02].copy_from_slice(&[0x80, 0x10]);
    chip.memory[0x02..0x04].copy_from_slice(&[0x81, 0x24]);
    chip.memory[0x04..0x06].copy_from_slice(&[0x82, 0x00]);
    chip.memory[0x06..0x08].copy_from_slice(&[0x73, 0x01]);
    chip.memory[0x08..0x0A].copy_from_slice(&[0x33, 0x0A]);
    chip.memory[0x0A..0x0C].copy_from_slice(&[0x10, 0x00]);
    chip.memory[0x0C..0x0E].copy_from_slice(&[0x00, 0x00]);

    chip.run();

    assert_eq!(chip.registers[1], 34);
}

#[test]
fn new_machine_is_zeroed() {
    let chip = CHIP8::new();
    assert_eq!(chip.program_counter, 0);
    assert_eq!(chip.stack_pointer, 0);
    assert!(chip.memory.iter().all(|b| *b == 0));
    assert!(chip.registers.iter().all(|r| *r == 0));
    assert!(chip.stack.iter().all(|a| *a == 0));
}

#[test]
fn read_opcode_is_big_endian_and_advances() {
    let mut chip = CHIP8::new();
    chip.memory[0x10] = 0x8A;
    chip.memory[0x11] = 0xB4;
    chip.program_counter = 0x10;
    assert_eq!(chip.read_opcode(), 0x8AB4);
    assert_eq!(chip.program_counter, 0x12);
}

#[test]
fn call_then_ret_restores_pc_and_sp() {
    let mut chip = CHIP8::new();
    chip.program_counter = 0x124;
    chip.call(0x300);
    assert_eq!(chip.program_counter, 0x300);
    assert_eq!(chip.stack_pointer, 1);
    assert_eq!(chip.stack[0], 0x124);
    chip.ret();
    assert_eq!(chip.program_counter, 0x124);
    assert_eq!(chip.stack_pointer, 0);
}

#[test]
fn add_sets_carry_flag() {
    let mut chip = CHIP8::new();
    chip.registers[2] = 200;
    chip.registers[3] = 100;
    chip.add_vy_to_vx(2, 3);
    assert_eq!(chip.registers[2], 44);
    assert_eq!(chip.registers[0xF], 1);
    chip.add_vy_to_vx(2, 3);
    assert_eq!(chip.registers[2], 144);
    assert_eq!(chip.registers[0xF], 0);
}

#[test]
fn sub_sets_not_borrow_flag() {
    let mut chip = CHIP8::new();
    chip.registers[2] = 5;
    chip.registers[3] = 7;
    chip.sub_vy_from_vx(2, 3);
    assert_eq!(chip.registers[2], 254);
    assert_eq!(chip.registers[0xF], 0);
    chip.sub_vy_from_vx(2, 3);
    assert_eq!(chip.registers[2], 247);
    assert_eq!(chip.registers[0xF], 1);
}

#[test]
fn result_in_vf_wins_over_flag() {
    let mut chip = CHIP8::new();
    chip.registers[0xF] = 250;
    chip.registers[1] = 10;
    chip.add_vy_to_vx(0xF, 1);
    assert_eq!(chip.registers[0xF], 4);
}

#[test]
fn skips_are_complementary() {
    let mut chip = CHIP8::new();
    chip.registers[4] = 9;
    chip.skip_e(4, 9);
    assert_eq!(chip.program_counter, 2);
    chip.skip_ne(4, 9);
    assert_eq!(chip.program_counter, 2);
    chip.skip_ne(4, 8);
    assert_eq!(chip.program_counter, 4);
    chip.registers[5] = 9;
    chip.skip_ve(4, 5);
    assert_eq!(chip.program_counter, 6);
}

#[test]
fn bitwise_and_store_instructions() {
    let mut chip = CHIP8::new();
    chip.store_in_vx(0, 0b1100);
    chip.store_in_vx(1, 0b1010);
    chip.or_xy(0, 1);
    assert_eq!(chip.registers[0], 0b1110);
    chip.and_xy(0, 1);
    assert_eq!(chip.registers[0], 0b1010);
    chip.xor_xy(0, 1);
    assert_eq!(chip.registers[0], 0);
    chip.store_vy_in_vx(2, 1);
    assert_eq!(chip.registers[2], 0b1010);
    chip.add_to_vx(2, 5);
    assert_eq!(chip.registers[2], 15);
    chip.jmp(0xABC);
    assert_eq!(chip.program_counter, 0xABC);
}

#[test]
fn halting_leaves_pc_past_the_halt() {
    let mut chip = CHIP8::new();
    chip.memory[0..4].copy_from_slice(&[0x65, 0x2A, 0x00, 0x00]);
    chip.run();
    assert_eq!(chip.registers[5], 0x2A);
    assert_eq!(chip.program_counter, 4);
}
