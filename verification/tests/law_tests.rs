use lib::assembler::assemble;
use lib::vm::{run_program, Word};

fn assemble_ok(source: &str) -> Vec<u8> {
    match assemble(source) {
        Ok(program) => program,
        Err(message) => panic!("unexpected assembly error: {}", message),
    }
}

#[test]
fn a_push_leaves_its_literal_on_the_stack() {
    let unsigned: [u64; 9] = [0, 15, 16, 255, 256, 65535, 65536, 0xFFFF_FFFF, u64::MAX];
    for value in unsigned.iter() {
        let program = assemble_ok(&format!("PUSH {}\nHALT", value));
        assert_eq!(run_program(&program), vec![*value]);
    }
    let signed: [i64; 11] = [0, -1, -8, -9, -128, -129, -32768, -32769, -2147483648, -2147483649, i64::MIN];
    for value in signed.iter() {
        let program = assemble_ok(&format!("PUSH {}\nHALT", value));
        assert_eq!(run_program(&program), vec![*value as Word]);
    }
}

#[test]
fn a_relative_jump_reaches_its_label() {
    for gap in [0usize, 7, 8, 127, 128, 200, 40000] {
        let mut source = String::from("JMP target\n");
        for _ in 0..gap {
            source.push_str("PUSH 1\n");
        }
        source.push_str("target:\nPUSH 9\nHALT\n");
        let program = assemble_ok(&source);
        assert_eq!(run_program(&program), vec![9], "gap {}", gap);
    }
}

#[test]
fn a_backward_conditional_jump_reaches_its_label() {
    for gap in [0usize, 5, 300] {
        let mut source = String::from("PUSH 3\nloop:\nPUSH 1\nSUB\n");
        for _ in 0..gap {
            source.push_str("NOOP\n");
        }
        source.push_str("DUP\nJZ done\nJMP loop\ndone:\nHALT\n");
        let program = assemble_ok(&source);
        assert_eq!(run_program(&program), vec![0], "gap {}", gap);
    }
}

#[test]
fn a_call_returns_past_itself() {
    let source = "PUSH 2\nCALL double\nCALL double\nHALT\ndouble:\nDUP\nADD\nRET\n";
    assert_eq!(run_program(&assemble_ok(source)), vec![8]);
}

#[test]
fn a_pushed_address_is_the_label_address() {
    let source = "PADDR sub\nCALLIND\nHALT\nsub:\nPUSH 5\nRET\n";
    assert_eq!(run_program(&assemble_ok(source)), vec![5]);
}

#[test]
fn the_program_is_as_long_as_its_instructions() {
    let program = assemble_ok("PUSH 300\nJMP x\nPADDR x\nx:\nHALT");
    // The jump over the nine-byte PADDR needs an eight-bit offset.
    assert_eq!(program.len(), 3 + 2 + 9 + 1);
}

#[test]
fn running_twice_gives_the_same_stack() {
    let program = assemble_ok("PUSH 6\nPUSH 7\nMUL\nPUSH 100\nSWAP\nHALT");
    assert_eq!(run_program(&program), run_program(&program));
    assert_eq!(run_program(&program), vec![100, 42]);
}

#[test]
fn a_load_reads_what_a_store_wrote() {
    let source = "PUSH 16\nMEMGROW\nDROP\n\
                  PUSH 3\nPUSH 0x1122334455667788\nMEMST16\n\
                  PUSH 3\nMEMLD16\n\
                  PUSH 8\nPUSH 0x1122334455667788\nMEMST64\n\
                  PUSH 8\nMEMLD64\nHALT";
    assert_eq!(run_program(&assemble_ok(source)), vec![0x7788, 0x1122_3344_5566_7788]);
}
