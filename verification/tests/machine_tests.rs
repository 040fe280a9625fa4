use lib::vm::{run_program, step, Fault, Machine, Outcome, Word};

/// Steps `program` from the initial state until it halts or faults, at most `limit` steps.
fn run_steps(program: &[u8], limit: usize) -> (Outcome, Machine) {
    let mut machine = Machine::new();
    for _ in 0..limit {
        let outcome = step(program, &mut machine);
        if outcome != Outcome::Running {
            return (outcome, machine);
        }
    }
    (Outcome::Running, machine)
}

fn fault_of(program: &[u8]) -> Fault {
    match run_steps(program, 1000).0 {
        Outcome::Faulted(fault) => fault,
        other => panic!("expected a fault, got {:?}", other),
    }
}

const MIN: [u8; 9] = [0x18, 0, 0, 0, 0, 0, 0, 0, 0x80];

fn with_halt(parts: &[&[u8]]) -> Vec<u8> {
    let mut program = Vec::new();
    for part in parts {
        program.extend_from_slice(part);
    }
    program.push(0xFF);
    program
}

#[test]
fn halt_alone_leaves_an_empty_stack() {
    assert_eq!(run_program(&[0xFF]), Vec::<Word>::new());
}

#[test]
fn short_form_pushes() {
    assert_eq!(run_program(&[0x90, 0x9F, 0xA0, 0xA7, 0xA8, 0xAF, 0xFF]), vec![
        0,
        15,
        0,
        7,
        (-8i64) as Word,
        (-1i64) as Word,
    ]);
}

#[test]
fn immediate_pushes_read_little_endian_operands() {
    let program = with_halt(&[
        &[0x12, 0xFE],
        &[0x13, 0x80],
        &[0x14, 0x34, 0x12],
        &[0x15, 0x00, 0x80],
        &[0x16, 0x78, 0x56, 0x34, 0x12],
        &[0x17, 0xFF, 0xFF, 0xFF, 0xFF],
        &[0x18, 0xEF, 0xCD, 0xAB, 0x89, 0x67, 0x45, 0x23, 0x01],
    ]);
    assert_eq!(run_program(&program), vec![
        0xFE,
        (-128i64) as Word,
        0x1234,
        (-32768i64) as Word,
        0x1234_5678,
        (-1i64) as Word,
        0x0123_4567_89AB_CDEF,
    ]);
}

#[test]
fn wrapping_arithmetic() {
    // 1 - 2 wraps around.
    assert_eq!(run_program(&[0x91, 0x92, 0x02, 0xFF]), vec![Word::MAX]);
    // MAX + 1 wraps to 0.
    assert_eq!(run_program(&[0xAF, 0x91, 0x01, 0xFF]), vec![0]);
    // 2^63 * 2 wraps to 0.
    assert_eq!(run_program(&with_halt(&[&MIN, &[0x92, 0x03]])), vec![0]);
    assert_eq!(run_program(&[0x96, 0x97, 0x03, 0xFF]), vec![42]);
}

#[test]
fn unsigned_division_and_remainder() {
    assert_eq!(run_program(&[0x97, 0x92, 0x04, 0xFF]), vec![3]);
    assert_eq!(run_program(&[0x97, 0x92, 0x06, 0xFF]), vec![1]);
    // MAX / 2 as unsigned.
    assert_eq!(run_program(&[0xAF, 0x92, 0x04, 0xFF]), vec![Word::MAX / 2]);
}

#[test]
fn signed_division_truncates_toward_zero() {
    // -7 / 2 == -3 and -7 % 2 == -1.
    assert_eq!(run_program(&[0xA9, 0x92, 0x05, 0xFF]), vec![(-3i64) as Word]);
    assert_eq!(run_program(&[0xA9, 0x92, 0x07, 0xFF]), vec![(-1i64) as Word]);
    // 7 / -2 == -3 and 7 % -2 == 1.
    assert_eq!(run_program(&[0x97, 0xAE, 0x05, 0xFF]), vec![(-3i64) as Word]);
    assert_eq!(run_program(&[0x97, 0xAE, 0x07, 0xFF]), vec![1]);
}

#[test]
fn signed_division_of_minimum_by_minus_one() {
    assert_eq!(run_program(&with_halt(&[&MIN, &[0xAF, 0x05]])), vec![0x8000_0000_0000_0000]);
    assert_eq!(run_program(&with_halt(&[&MIN, &[0xAF, 0x07]])), vec![0]);
}

#[test]
fn bitwise_operations() {
    assert_eq!(run_program(&[0x9C, 0x9A, 0x08, 0xFF]), vec![8]);
    assert_eq!(run_program(&[0x9C, 0x9A, 0x09, 0xFF]), vec![14]);
    assert_eq!(run_program(&[0x9C, 0x9A, 0x0A, 0xFF]), vec![6]);
    assert_eq!(run_program(&[0x90, 0x0B, 0xFF]), vec![Word::MAX]);
}

#[test]
fn shifts_use_the_low_six_bits() {
    // 1 << 65 == 1 << 1.
    assert_eq!(run_program(&[0x91, 0x12, 65, 0x0C, 0xFF]), vec![2]);
    // MAX >> 60 == 15 (logical).
    assert_eq!(run_program(&[0xAF, 0x12, 60, 0x0D, 0xFF]), vec![15]);
    // -16 >> 2 == -4 (arithmetic).
    assert_eq!(run_program(&[0x13, 0xF0, 0x92, 0x0E, 0xFF]), vec![(-4i64) as Word]);
    // shift by 64 is shift by 0.
    assert_eq!(run_program(&[0x95, 0x12, 64, 0x0D, 0xFF]), vec![5]);
}

#[test]
fn comparisons_push_one_or_zero() {
    // -1 against 1: unsigned -1 is the largest word.
    let cases: [(u8, Word); 10] = [
        (0x19, 0),
        (0x1A, 1),
        (0x1B, 0),
        (0x1C, 1),
        (0x1D, 0),
        (0x1E, 1),
        (0x1F, 1),
        (0x20, 0),
        (0x21, 1),
        (0x22, 0),
    ];
    for (opcode, expected) in cases.iter() {
        assert_eq!(run_program(&[0xAF, 0x91, *opcode, 0xFF]), vec![*expected], "opcode {:02X}", opcode);
    }
    assert_eq!(run_program(&[0x93, 0x93, 0x19, 0xFF]), vec![1]);
    assert_eq!(run_program(&[0x93, 0x93, 0x1D, 0xFF]), vec![1]);
    assert_eq!(run_program(&[0x93, 0x93, 0x22, 0xFF]), vec![1]);
}

#[test]
fn stack_manipulation() {
    assert_eq!(run_program(&[0x95, 0x0F, 0xFF]), vec![5, 5]);
    assert_eq!(run_program(&[0x95, 0x96, 0x10, 0xFF]), vec![5]);
    assert_eq!(run_program(&[0x95, 0x96, 0x11, 0xFF]), vec![6, 5]);
    assert_eq!(run_program(&[0x00, 0x95, 0x00, 0xFF]), vec![5]);
}

#[test]
fn short_relative_jumps() {
    // JMP +1 skips the push of 1.
    assert_eq!(run_program(&[0xD1, 0x91, 0x92, 0xFF]), vec![2]);
    // JZ taken on zero, not taken otherwise.
    assert_eq!(run_program(&[0x90, 0xC1, 0x91, 0x92, 0xFF]), vec![2]);
    assert_eq!(run_program(&[0x93, 0xC1, 0x91, 0x92, 0xFF]), vec![1, 2]);
}

#[test]
fn counting_loop_with_backward_jump() {
    // counter = 3; loop: counter -= 1; if counter == 0 exit; jump loop.
    let program = [0x93, 0x91, 0x02, 0x0F, 0xC1, 0xDB, 0xFF];
    assert_eq!(run_program(&program), vec![0]);
}

#[test]
fn call_and_return() {
    // CALL +2 over [PUSH 1, HALT]; the subroutine pushes 7 and returns.
    let program = [0xB2, 0x91, 0xFF, 0x97, 0x31];
    assert_eq!(run_program(&program), vec![7, 1]);
}

#[test]
fn wide_relative_jumps_and_calls() {
    assert_eq!(run_program(&[0x23, 0x01, 0x91, 0x92, 0xFF]), vec![2]);
    assert_eq!(run_program(&[0x24, 0x01, 0x00, 0x91, 0x92, 0xFF]), vec![2]);
    assert_eq!(run_program(&[0x25, 0x01, 0, 0, 0, 0x91, 0x92, 0xFF]), vec![2]);
    assert_eq!(run_program(&[0x26, 0x01, 0, 0, 0, 0, 0, 0, 0, 0x91, 0x92, 0xFF]), vec![2]);
    assert_eq!(run_program(&[0x90, 0x27, 0x01, 0x91, 0x92, 0xFF]), vec![2]);
    assert_eq!(run_program(&[0x91, 0x28, 0x01, 0x00, 0x91, 0x92, 0xFF]), vec![1, 2]);
    assert_eq!(run_program(&[0x90, 0x29, 0x01, 0, 0, 0, 0x91, 0x92, 0xFF]), vec![2]);
    assert_eq!(run_program(&[0x90, 0x2A, 0x01, 0, 0, 0, 0, 0, 0, 0, 0x91, 0x92, 0xFF]), vec![2]);
    assert_eq!(run_program(&[0x2B, 0x01, 0xFF, 0x31]), Vec::<Word>::new());
    assert_eq!(run_program(&[0x2C, 0x01, 0x00, 0xFF, 0x31]), Vec::<Word>::new());
    assert_eq!(run_program(&[0x2D, 0x01, 0, 0, 0, 0xFF, 0x31]), Vec::<Word>::new());
    assert_eq!(run_program(&[0x2E, 0x01, 0, 0, 0, 0, 0, 0, 0, 0xFF, 0x31]), Vec::<Word>::new());
    // A backward 8-bit jump: skip forward, then come back.
    assert_eq!(run_program(&[0xD2, 0x91, 0xFF, 0x23, 0xFC]), vec![1]);
}

#[test]
fn indirect_jump_and_call() {
    // PUSH 4; JMPIND skips PUSH 1 and HALT and lands on PUSH 2.
    assert_eq!(run_program(&[0x94, 0x2F, 0x91, 0xFF, 0x92, 0xFF]), vec![2]);
    // PUSH 4; CALLIND; the subroutine at 4 pushes 9 and returns to the HALT.
    assert_eq!(run_program(&[0x94, 0x30, 0xFF, 0x00, 0x99, 0x31]), vec![9]);
}

#[test]
fn memory_grow_size_store_and_load() {
    let program = with_halt(&[
        &[0x12, 16, 0x3B],       // grow by 16: pushes old size 0
        &[0x3A],                 // size: 16
        &[0x92, 0x14, 0x34, 0x12, 0x37], // store16 0x1234 at 2
        &[0x92, 0x33],           // load16 at 2
        &[0x92, 0x32],           // load8 at 2
        &[0x93, 0x32],           // load8 at 3
        &[0x90, 0x35],           // load64 at 0
    ]);
    assert_eq!(run_program(&program), vec![0, 16, 0x1234, 0x34, 0x12, 0x1234_0000]);
}

#[test]
fn store_truncates_to_the_access_width() {
    let program = with_halt(&[
        &[0x98, 0x3B, 0x10],            // grow by 8, drop old size
        &[0x90, 0xAF, 0x38],            // store32 of -1 at 0
        &[0x90, 0x35],                  // load64 at 0
        &[0x94, 0x16, 0x44, 0x33, 0x22, 0x11, 0x36], // store8 at 4
        &[0x94, 0x34],                  // load32 at 4
        &[0x90, 0xAF, 0x39],            // store64 of -1 at 0
        &[0x90, 0x35],
    ]);
    assert_eq!(run_program(&program), vec![0xFFFF_FFFF, 0x44, Word::MAX]);
}

#[test]
fn memory_copy_and_fill() {
    let program = with_halt(&[
        &[0x98, 0x3B, 0x10],       // grow by 8
        &[0x90, 0x12, 0xAB, 0x93, 0x3D], // fill [0, 3) with 0xAB
        &[0x94, 0x90, 0x93, 0x3C], // copy [0, 3) to 4
        &[0x90, 0x35],             // load64 at 0
    ]);
    assert_eq!(run_program(&program), vec![0x00AB_ABAB_00AB_ABAB]);
}

#[test]
fn overlapping_copy_moves_like_memmove() {
    let program = with_halt(&[
        &[0x98, 0x3B, 0x10],
        &[0x90, 0x16, 0x01, 0x02, 0x03, 0x04, 0x38], // bytes 1 2 3 4 at 0
        &[0x91, 0x90, 0x94, 0x3C],                 // copy [0, 4) to 1
        &[0x90, 0x35],
    ]);
    assert_eq!(run_program(&program), vec![0x04_0302_0101]);
}

#[test]
fn zero_length_memory_operations_on_empty_memory() {
    assert_eq!(run_program(&[0x90, 0x90, 0x90, 0x3C, 0x90, 0x90, 0x90, 0x3D, 0x3A, 0xFF]), vec![0]);
}

#[test]
fn running_off_the_end_is_a_fault() {
    assert_eq!(fault_of(&[]), Fault::ProgramOutOfBounds);
    assert_eq!(fault_of(&[0x91]), Fault::ProgramOutOfBounds);
    assert_eq!(fault_of(&[0x12]), Fault::ProgramOutOfBounds);
    assert_eq!(fault_of(&[0x18, 1, 2, 3]), Fault::ProgramOutOfBounds);
}

#[test]
fn unknown_opcodes_are_faults() {
    assert_eq!(fault_of(&[0x3E]), Fault::UnknownOpcode(0x3E));
    assert_eq!(fault_of(&[0x8F]), Fault::UnknownOpcode(0x8F));
    assert_eq!(fault_of(&[0xE0]), Fault::UnknownOpcode(0xE0));
    assert_eq!(fault_of(&[0xFE]), Fault::UnknownOpcode(0xFE));
}

#[test]
fn stack_underflows_are_faults() {
    assert_eq!(fault_of(&[0x01]), Fault::StackUnderflow);
    assert_eq!(fault_of(&[0x91, 0x01]), Fault::StackUnderflow);
    assert_eq!(fault_of(&[0x0F]), Fault::StackUnderflow);
    assert_eq!(fault_of(&[0x10]), Fault::StackUnderflow);
    assert_eq!(fault_of(&[0xC0]), Fault::StackUnderflow);
    assert_eq!(fault_of(&[0x31]), Fault::CallStackUnderflow);
}

#[test]
fn division_by_zero_is_a_fault() {
    assert_eq!(fault_of(&[0x91, 0x90, 0x04]), Fault::DivisionByZero);
    assert_eq!(fault_of(&[0x91, 0x90, 0x05]), Fault::DivisionByZero);
    assert_eq!(fault_of(&[0x91, 0x90, 0x06]), Fault::RemainderByZero);
    assert_eq!(fault_of(&[0x91, 0x90, 0x07]), Fault::RemainderByZero);
}

#[test]
fn relative_target_below_zero_is_a_fault() {
    assert_eq!(fault_of(&[0xDE]), Fault::TargetOutOfRange);
    assert_eq!(fault_of(&[0xB8]), Fault::TargetOutOfRange);
}

#[test]
fn memory_accesses_out_of_bounds_are_faults() {
    assert_eq!(fault_of(&[0x90, 0x32]), Fault::AccessOutOfBounds);
    assert_eq!(fault_of(&[0x91, 0x3B, 0x90, 0x33]), Fault::AccessOutOfBounds);
    assert_eq!(fault_of(&[0x90, 0x91, 0x36]), Fault::AccessOutOfBounds);
    assert_eq!(fault_of(&[0x90, 0x90, 0x91, 0x3C]), Fault::AccessOutOfBounds);
    assert_eq!(fault_of(&[0x90, 0x90, 0x91, 0x3D]), Fault::AccessOutOfBounds);
}

#[test]
fn step_reports_running_and_keeps_state() {
    let program = [0x95, 0x96, 0x01, 0xFF];
    let mut machine = Machine::new();
    assert_eq!(step(&program, &mut machine), Outcome::Running);
    assert_eq!(machine.stack, vec![5]);
    assert_eq!(machine.ip, 1);
    assert_eq!(step(&program, &mut machine), Outcome::Running);
    assert_eq!(step(&program, &mut machine), Outcome::Running);
    assert_eq!(machine.stack, vec![11]);
    assert_eq!(step(&program, &mut machine), Outcome::Halted);
    assert_eq!(machine.ip, 4);
    assert_eq!(machine.stack, vec![11]);
}

#[test]
fn call_pushes_the_return_address() {
    let program = [0x00, 0xB1, 0xFF, 0x31];
    let mut machine = Machine::new();
    assert_eq!(step(&program, &mut machine), Outcome::Running);
    assert_eq!(step(&program, &mut machine), Outcome::Running);
    assert_eq!(machine.call_stack, vec![2]);
    assert_eq!(machine.ip, 3);
    assert_eq!(step(&program, &mut machine), Outcome::Running);
    assert_eq!(machine.ip, 2);
    assert!(machine.call_stack.is_empty());
}

#[test]
fn fault_messages() {
    assert_eq!(Fault::DivisionByZero.message(), "division by zero");
    assert_eq!(Fault::UnknownOpcode(0x3E).message(), "unknown opcode byte");
    assert_eq!(Fault::ProgramOutOfBounds.message(), "index out of bounds");
    assert_eq!(Fault::CallStackUnderflow.message(), "call stack underflow");
    assert_eq!(
        Fault::FillLengthTooLarge.message(),
        "memory fill length is too large for this platform"
    );
    assert_eq!(fault_of(&[0x31]).message(), "call stack underflow");
}
