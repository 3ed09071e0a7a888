use rum::machine::{Fault, Machine, StepResult};

/// A three-register instruction word: opcode in bits [31:28], register A in
/// bits [8:6], register B in bits [5:3], register C in bits [2:0].
fn three_reg(opcode: u32, a: u32, b: u32, c: u32) -> u32 {
    (opcode << 28) | (a << 6) | (b << 3) | c
}

/// An immediate-load instruction word: opcode 13, destination register in
/// bits [27:25], unsigned 25-bit value in bits [24:0].
fn load_value(reg: u32, value: u32) -> u32 {
    (13 << 28) | (reg << 25) | value
}

fn cmov(a: u32, b: u32, c: u32) -> u32 {
    three_reg(0, a, b, c)
}

fn seg_load(a: u32, b: u32, c: u32) -> u32 {
    three_reg(1, a, b, c)
}

fn seg_store(a: u32, b: u32, c: u32) -> u32 {
    three_reg(2, a, b, c)
}

fn add(a: u32, b: u32, c: u32) -> u32 {
    three_reg(3, a, b, c)
}

fn mul(a: u32, b: u32, c: u32) -> u32 {
    three_reg(4, a, b, c)
}

fn div(a: u32, b: u32, c: u32) -> u32 {
    three_reg(5, a, b, c)
}

fn nand(a: u32, b: u32, c: u32) -> u32 {
    three_reg(6, a, b, c)
}

fn halt() -> u32 {
    three_reg(7, 0, 0, 0)
}

fn map_segment(b: u32, c: u32) -> u32 {
    three_reg(8, 0, b, c)
}

fn unmap_segment(c: u32) -> u32 {
    three_reg(9, 0, 0, c)
}

fn output(c: u32) -> u32 {
    three_reg(10, 0, 0, c)
}

fn input(c: u32) -> u32 {
    three_reg(11, 0, 0, c)
}

fn load_program(b: u32, c: u32) -> u32 {
    three_reg(12, 0, b, c)
}

#[test]
fn output_scenario_emits_byte_then_halts() {
    let program = vec![load_value(0, 5), load_value(1, 255), output(1), halt()];
    let mut m = Machine::new(program);
    assert_eq!(m.step(), StepResult::Continue);
    assert_eq!(m.get_register(0), 5);
    assert_eq!(m.step(), StepResult::Continue);
    assert_eq!(m.get_register(1), 255);
    assert_eq!(m.step(), StepResult::Output(0xff));
    assert_eq!(m.step(), StepResult::Halted);
}

#[test]
fn map_unmap_remap_reuses_identifier() {
    let program = vec![
        load_value(1, 10),
        map_segment(2, 1),
        unmap_segment(2),
        map_segment(3, 1),
        halt(),
    ];
    let mut m = Machine::new(program);
    assert_eq!(m.step(), StepResult::Continue);
    assert_eq!(m.step(), StepResult::Continue);
    let id = m.get_register(2);
    assert_eq!(id, 1);
    // The new segment holds exactly 10 zero words.
    for offset in 0..10 {
        assert_eq!(m.read(id, offset), Ok(0));
    }
    assert_eq!(m.read(id, 10), Err(Fault::OutOfBounds));
    // Unmapping and remapping with the same word count reuses the freed
    // identifier: the pool hands back the most recently freed one.
    assert_eq!(m.step(), StepResult::Continue);
    assert_eq!(m.read(id, 0), Err(Fault::UnmappedSegment));
    assert_eq!(m.step(), StepResult::Continue);
    assert_eq!(m.get_register(3), id);
    assert_eq!(m.step(), StepResult::Halted);
}

#[test]
fn division_by_zero_is_fatal() {
    let program = vec![load_value(1, 7), div(0, 1, 2), halt()];
    let mut m = Machine::new(program);
    assert_eq!(m.step(), StepResult::Continue);
    assert_eq!(m.step(), StepResult::Fault(Fault::DivisionByZero));
    // The destination register was never written: no wrap, no zero result.
    assert_eq!(m.get_register(0), 0);
}

#[test]
fn load_program_copies_segment_and_jumps() {
    let program = vec![load_value(1, 1), load_value(2, 0), load_program(1, 2)];
    let mut m = Machine::new(program);
    // Build segment 1 by hand: a fresh program that outputs 77 and halts.
    assert_eq!(m.allocate(3), Ok(1));
    assert_eq!(m.write(1, 0, load_value(3, 77)), Ok(()));
    assert_eq!(m.write(1, 1, output(3)), Ok(()));
    assert_eq!(m.write(1, 2, halt()), Ok(()));
    assert_eq!(m.step(), StepResult::Continue);
    assert_eq!(m.step(), StepResult::Continue);
    assert_eq!(m.step(), StepResult::Continue);
    // Segment 0 now holds a copy of segment 1's contents.
    assert_eq!(m.read(0, 0), Ok(load_value(3, 77)));
    assert_eq!(m.read(0, 1), Ok(output(3)));
    assert_eq!(m.read(0, 2), Ok(halt()));
    // The next fetches use register C's value as the counter, reading the
    // new contents.
    assert_eq!(m.step(), StepResult::Continue);
    assert_eq!(m.get_register(3), 77);
    assert_eq!(m.step(), StepResult::Output(77));
    assert_eq!(m.step(), StepResult::Halted);
}

#[test]
fn load_program_on_segment_zero_only_jumps() {
    let program = vec![
        load_value(1, 3),
        load_program(0, 1),
        halt(),
        load_value(2, 9),
        halt(),
    ];
    let mut m = Machine::new(program);
    assert_eq!(m.step(), StepResult::Continue);
    // Register B names register 0, which still holds 0: no copy, only the
    // counter moves to register C's value.
    assert_eq!(m.step(), StepResult::Continue);
    assert_eq!(m.step(), StepResult::Continue);
    assert_eq!(m.get_register(2), 9);
    assert_eq!(m.step(), StepResult::Halted);
}

#[test]
fn arithmetic_wraps_modulo_two_to_the_32() {
    let program = vec![
        nand(1, 0, 0),
        load_value(2, 1),
        add(3, 1, 2),
        mul(4, 1, 1),
        div(5, 1, 2),
        halt(),
    ];
    let mut m = Machine::new(program);
    assert_eq!(m.step(), StepResult::Continue);
    assert_eq!(m.get_register(1), 0xffff_ffff);
    assert_eq!(m.step(), StepResult::Continue);
    assert_eq!(m.step(), StepResult::Continue);
    // 0xffffffff + 1 wraps to 0.
    assert_eq!(m.get_register(3), 0);
    assert_eq!(m.step(), StepResult::Continue);
    // 0xffffffff * 0xffffffff wraps to 1.
    assert_eq!(m.get_register(4), 1);
    assert_eq!(m.step(), StepResult::Continue);
    // Unsigned division by 1 keeps the value.
    assert_eq!(m.get_register(5), 0xffff_ffff);
    assert_eq!(m.step(), StepResult::Halted);
}

#[test]
fn conditional_move_tests_register_c() {
    let program = vec![
        load_value(1, 41),
        cmov(2, 1, 0),
        load_value(3, 1),
        cmov(2, 1, 3),
        halt(),
    ];
    let mut m = Machine::new(program);
    assert_eq!(m.step(), StepResult::Continue);
    // Register 0 holds 0: the move must not happen.
    assert_eq!(m.step(), StepResult::Continue);
    assert_eq!(m.get_register(2), 0);
    assert_eq!(m.step(), StepResult::Continue);
    // Register 3 holds 1: the move happens.
    assert_eq!(m.step(), StepResult::Continue);
    assert_eq!(m.get_register(2), 41);
    assert_eq!(m.step(), StepResult::Halted);
}

#[test]
fn segmented_store_and_load_round_trip() {
    let program = vec![
        load_value(1, 4),
        map_segment(2, 1),
        load_value(3, 2),
        load_value(4, 123),
        seg_store(2, 3, 4),
        seg_load(5, 2, 3),
        halt(),
    ];
    let mut m = Machine::new(program);
    for _ in 0..6 {
        assert_eq!(m.step(), StepResult::Continue);
    }
    assert_eq!(m.read(m.get_register(2), 2), Ok(123));
    assert_eq!(m.get_register(5), 123);
    assert_eq!(m.step(), StepResult::Halted);
}

#[test]
fn output_of_more_than_one_byte_is_fatal() {
    let program = vec![load_value(1, 256), output(1), halt()];
    let mut m = Machine::new(program);
    assert_eq!(m.step(), StepResult::Continue);
    assert_eq!(m.step(), StepResult::Fault(Fault::OutputTooLarge));
}

#[test]
fn input_waits_for_a_byte_or_end_of_stream() {
    let program = vec![input(5), input(6), halt()];
    let mut m = Machine::new(program);
    assert_eq!(m.step(), StepResult::AwaitInput(5));
    m.supply_input(5, Some(65));
    assert_eq!(m.get_register(5), 65);
    assert_eq!(m.step(), StepResult::AwaitInput(6));
    m.supply_input(6, None);
    assert_eq!(m.get_register(6), 0xffff_ffff);
    assert_eq!(m.step(), StepResult::Halted);
}

#[test]
fn running_off_the_program_end_is_fatal() {
    let program = vec![load_value(0, 1)];
    let mut m = Machine::new(program);
    assert_eq!(m.step(), StepResult::Continue);
    assert_eq!(m.step(), StepResult::Fault(Fault::OutOfBounds));
}

#[test]
fn unrecognized_opcode_is_inert() {
    let program = vec![0xe000_0000, 0xf000_0001, load_value(1, 8), halt()];
    let mut m = Machine::new(program);
    assert_eq!(m.step(), StepResult::Continue);
    assert_eq!(m.step(), StepResult::Continue);
    for r in 0..8 {
        assert_eq!(m.get_register(r), 0);
    }
    assert_eq!(m.step(), StepResult::Continue);
    assert_eq!(m.get_register(1), 8);
    assert_eq!(m.step(), StepResult::Halted);
}

#[test]
fn segment_store_validity() {
    let mut m = Machine::new(vec![halt()]);
    // Fresh identifiers count up from 1; freed ones return last in, first out.
    assert_eq!(m.allocate(0), Ok(1));
    assert_eq!(m.allocate(5), Ok(2));
    assert_eq!(m.allocate(1), Ok(3));
    assert_eq!(m.free(2), Ok(()));
    assert_eq!(m.free(3), Ok(()));
    assert_eq!(m.allocate(7), Ok(3));
    assert_eq!(m.allocate(7), Ok(2));
    assert_eq!(m.allocate(7), Ok(4));
    // Segment 0 and unmapped identifiers cannot be freed; freeing twice fails.
    assert_eq!(m.free(0), Err(Fault::UnmappedSegment));
    assert_eq!(m.free(9), Err(Fault::UnmappedSegment));
    assert_eq!(m.free(4), Ok(()));
    assert_eq!(m.free(4), Err(Fault::UnmappedSegment));
    // Reads and writes check the identifier and the bounds.
    assert_eq!(m.read(9, 0), Err(Fault::UnmappedSegment));
    assert_eq!(m.read(1, 0), Err(Fault::OutOfBounds));
    assert_eq!(m.write(2, 7, 1), Err(Fault::OutOfBounds));
    assert_eq!(m.write(2, 6, 17), Ok(()));
    assert_eq!(m.read(2, 6), Ok(17));
    assert_eq!(m.replace_program(9), Err(Fault::UnmappedSegment));
    assert_eq!(m.replace_program(2), Ok(()));
    assert_eq!(m.read(0, 6), Ok(17));
}
