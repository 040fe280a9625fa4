use lib::assembler::assemble;

fn bytes(source: &str) -> Vec<u8> {
    match assemble(source) {
        Ok(program) => program,
        Err(message) => panic!("unexpected assembly error: {}", message),
    }
}

fn error(source: &str) -> String {
    match assemble(source) {
        Ok(program) => panic!("unexpected success: {:02X?}", program),
        Err(message) => message,
    }
}

#[test]
fn assembles_small_arithmetic_program() {
    assert_eq!(bytes("PUSH 1\nPUSH 2\nADD\nHALT"), vec![0x91, 0x92, 0x01, 0xFF]);
}

#[test]
fn empty_source_assembles_to_nothing() {
    assert_eq!(bytes(""), Vec::<u8>::new());
    assert_eq!(bytes("\n\n   \n; only a comment\n"), Vec::<u8>::new());
}

#[test]
fn comments_blank_lines_and_indentation_are_ignored() {
    assert_eq!(bytes("; header\n\n   PUSH 1 ; one\n\tHALT   \n"), vec![0x91, 0xFF]);
}

#[test]
fn carriage_return_line_endings() {
    assert_eq!(bytes("PUSH 3\r\nHALT\r\n"), vec![0x93, 0xFF]);
}

#[test]
fn mnemonics_are_case_insensitive() {
    assert_eq!(bytes("push 3\nHaLt"), vec![0x93, 0xFF]);
}

#[test]
fn every_plain_mnemonic_has_its_opcode() {
    let cases: [(&str, u8); 46] = [
        ("NOOP", 0x00),
        ("ADD", 0x01),
        ("SUB", 0x02),
        ("MUL", 0x03),
        ("DIVU", 0x04),
        ("DIVS", 0x05),
        ("REMU", 0x06),
        ("REMS", 0x07),
        ("AND", 0x08),
        ("OR", 0x09),
        ("XOR", 0x0A),
        ("NOT", 0x0B),
        ("SL", 0x0C),
        ("LSR", 0x0D),
        ("ASR", 0x0E),
        ("DUP", 0x0F),
        ("DROP", 0x10),
        ("SWAP", 0x11),
        ("CEQ", 0x19),
        ("CNE", 0x1A),
        ("CLTU", 0x1B),
        ("CLTS", 0x1C),
        ("CLEU", 0x1D),
        ("CLES", 0x1E),
        ("CGTU", 0x1F),
        ("CGTS", 0x20),
        ("CGEU", 0x21),
        ("CGES", 0x22),
        ("JMPIND", 0x2F),
        ("CALLIND", 0x30),
        ("RET", 0x31),
        ("MEMLD8", 0x32),
        ("MEMLD16", 0x33),
        ("MEMLD32", 0x34),
        ("MEMLD64", 0x35),
        ("MEMST8", 0x36),
        ("MEMST16", 0x37),
        ("MEMST32", 0x38),
        ("MEMST64", 0x39),
        ("MEMSIZE", 0x3A),
        ("MEMGROW", 0x3B),
        ("MEMCOPY8", 0x3C),
        ("MEMFILL8", 0x3D),
        ("HALT", 0xFF),
        ("noop", 0x00),
        ("memfill8", 0x3D),
    ];
    for (mnemonic, opcode) in cases.iter() {
        assert_eq!(bytes(mnemonic), vec![*opcode], "mnemonic {}", mnemonic);
    }
}

#[test]
fn unsigned_push_picks_the_narrowest_encoding() {
    assert_eq!(bytes("PUSH 0"), vec![0x90]);
    assert_eq!(bytes("PUSH 15"), vec![0x9F]);
    assert_eq!(bytes("PUSH 16"), vec![0x12, 0x10]);
    assert_eq!(bytes("PUSH 255"), vec![0x12, 0xFF]);
    assert_eq!(bytes("PUSH 256"), vec![0x14, 0x00, 0x01]);
    assert_eq!(bytes("PUSH 65535"), vec![0x14, 0xFF, 0xFF]);
    assert_eq!(bytes("PUSH 65536"), vec![0x16, 0x00, 0x00, 0x01, 0x00]);
    assert_eq!(bytes("PUSH 0xFFFF_FFFF"), vec![0x16, 0xFF, 0xFF, 0xFF, 0xFF]);
    assert_eq!(
        bytes("PUSH 0x1_0000_0000"),
        vec![0x18, 0x00, 0x00, 0x00, 0x00, 0x01, 0x00, 0x00, 0x00]
    );
    assert_eq!(
        bytes("PUSH 18446744073709551615"),
        vec![0x18, 0xFF, 0xFF, 0xFF, 0xFF, 0xFF, 0xFF, 0xFF, 0xFF]
    );
}

#[test]
fn signed_push_picks_the_narrowest_encoding() {
    assert_eq!(bytes("PUSH -0"), vec![0xA0]);
    assert_eq!(bytes("PUSH -1"), vec![0xAF]);
    assert_eq!(bytes("PUSH -8"), vec![0xA8]);
    assert_eq!(bytes("PUSH -9"), vec![0x13, 0xF7]);
    assert_eq!(bytes("PUSH -128"), vec![0x13, 0x80]);
    assert_eq!(bytes("PUSH -129"), vec![0x15, 0x7F, 0xFF]);
    assert_eq!(bytes("PUSH -32768"), vec![0x15, 0x00, 0x80]);
    assert_eq!(bytes("PUSH -32769"), vec![0x17, 0xFF, 0x7F, 0xFF, 0xFF]);
    assert_eq!(bytes("PUSH -0x8000_0000"), vec![0x17, 0x00, 0x00, 0x00, 0x80]);
    assert_eq!(
        bytes("PUSH -0x8000_0001"),
        vec![0x18, 0xFF, 0xFF, 0xFF, 0x7F, 0xFF, 0xFF, 0xFF, 0xFF]
    );
    assert_eq!(
        bytes("PUSH -0x8000_0000_0000_0000"),
        vec![0x18, 0x00, 0x00, 0x00, 0x00, 0x00, 0x00, 0x00, 0x80]
    );
}

#[test]
fn integer_literal_radixes_and_separators() {
    assert_eq!(bytes("PUSH 0b101"), vec![0x95]);
    assert_eq!(bytes("PUSH 0B1_0000"), vec![0x12, 0x10]);
    assert_eq!(bytes("PUSH 0o17"), vec![0x9F]);
    assert_eq!(bytes("PUSH 0O20"), vec![0x12, 0x10]);
    assert_eq!(bytes("PUSH 0xff"), vec![0x12, 0xFF]);
    assert_eq!(bytes("PUSH 0XfF"), vec![0x12, 0xFF]);
    assert_eq!(bytes("PUSH 1_2"), vec![0x9C]);
    assert_eq!(bytes("PUSH +7"), vec![0x97]);
    assert_eq!(bytes("PUSH -0x10"), vec![0x13, 0xF0]);
}

#[test]
fn invalid_integer_literals_are_rejected() {
    assert_eq!(error("PUSH 12a"), "invalid integer literal: 12a");
    assert_eq!(error("PUSH 0x"), "invalid integer literal: 0x");
    assert_eq!(error("PUSH -"), "invalid integer literal: -");
    assert_eq!(error("PUSH +"), "invalid integer literal: +");
    assert_eq!(error("PUSH 0b102"), "invalid integer literal: 0b102");
    assert_eq!(
        error("PUSH 18446744073709551616"),
        "invalid integer literal: 18446744073709551616"
    );
}

#[test]
fn signed_literal_below_minimum_is_rejected() {
    assert_eq!(
        error("PUSH -0x8000_0000_0000_0001"),
        "signed integer literal is too small: -0x8000_0000_0000_0001"
    );
    assert_eq!(
        error("PUSH -9223372036854775809"),
        "signed integer literal is too small: -9223372036854775809"
    );
}

#[test]
fn unknown_instruction_is_rejected_with_its_spelling() {
    assert_eq!(error("FOO"), "unknown instruction: FOO");
    assert_eq!(error("foo 1 2"), "unknown instruction: foo");
    assert_eq!(error("loop: ADD"), "unknown instruction: loop:");
}

#[test]
fn operand_counts_are_checked() {
    assert_eq!(error("ADD 1"), "ADD does not take any operands");
    assert_eq!(error("add 1"), "ADD does not take any operands");
    assert_eq!(error("PUSH"), "PUSH expects exactly one operand");
    assert_eq!(error("push 1 2"), "PUSH expects exactly one operand");
    assert_eq!(error("JMP"), "JMP expects exactly one operand");
    assert_eq!(error("PADDR a b"), "PADDR expects exactly one operand");
}

#[test]
fn label_names_are_validated() {
    assert_eq!(error(":"), "label name cannot be empty");
    assert_eq!(error("1abc:"), "invalid label name: 1abc");
    assert_eq!(error("x :"), "invalid label name: x ");
    assert_eq!(error("JMP a-b"), "invalid label name: a-b");
    assert_eq!(error("PADDR 9"), "invalid label name: 9");
    assert_eq!(bytes("_ok_1:\nHALT"), vec![0xFF]);
}

#[test]
fn unknown_and_duplicate_labels_are_rejected() {
    assert_eq!(error("JMP nowhere"), "unknown label: nowhere");
    assert_eq!(error("CALL nowhere\nHALT"), "unknown label: nowhere");
    assert_eq!(error("PADDR nowhere"), "unknown label: nowhere");
    assert_eq!(error("a:\nHALT\na:"), "duplicate label: a");
    assert_eq!(error("a:\na:\nJMP b"), "duplicate label: a");
}

#[test]
fn first_error_in_source_order_is_reported() {
    assert_eq!(error("FOO\nPUSH x"), "unknown instruction: FOO");
    assert_eq!(error("PUSH x\nFOO"), "invalid integer literal: x");
}

#[test]
fn short_relative_jumps_calls_and_conditional_jumps() {
    assert_eq!(bytes("start:\nJMP start"), vec![0xDF]);
    assert_eq!(bytes("JMP end\nNOOP\nend:\nHALT"), vec![0xD1, 0x00, 0xFF]);
    assert_eq!(bytes("JZ end\nend:"), vec![0xC0]);
    assert_eq!(bytes("CALL f\nHALT\nf:\nRET"), vec![0xB1, 0xFF, 0x31]);
    assert_eq!(bytes("back:\nNOOP\nCALL back"), vec![0x00, 0xBE]);
}

#[test]
fn relative_jump_widens_to_eight_bits() {
    let mut source = String::from("JMP end\n");
    for _ in 0..8 {
        source.push_str("NOOP\n");
    }
    source.push_str("end:\nHALT\n");
    let mut expected = vec![0x23, 0x08];
    expected.extend(std::iter::repeat(0x00).take(8));
    expected.push(0xFF);
    assert_eq!(bytes(&source), expected);
}

#[test]
fn seven_forward_still_fits_four_bits() {
    let mut source = String::from("JZ end\n");
    for _ in 0..7 {
        source.push_str("NOOP\n");
    }
    source.push_str("end:\n");
    let mut expected = vec![0xC7];
    expected.extend(std::iter::repeat(0x00).take(7));
    assert_eq!(bytes(&source), expected);
}

#[test]
fn backward_jump_widens_to_sixteen_bits() {
    let mut source = String::from("top:\n");
    for _ in 0..200 {
        source.push_str("NOOP\n");
    }
    source.push_str("JMP top\n");
    let mut expected: Vec<u8> = std::iter::repeat(0x00).take(200).collect();
    expected.extend([0x24, 0x35, 0xFF]);
    assert_eq!(bytes(&source), expected);
}

#[test]
fn call_widens_to_thirty_two_bits() {
    let mut source = String::from("CALL far\n");
    for _ in 0..40000 {
        source.push_str("NOOP\n");
    }
    source.push_str("far:\nRET\n");
    let program = bytes(&source);
    assert_eq!(program.len(), 5 + 40000 + 1);
    assert_eq!(&program[..5], &[0x2D, 0x40, 0x9C, 0x00, 0x00]);
    assert_eq!(program[5 + 40000], 0x31);
}

#[test]
fn push_address_of_label() {
    assert_eq!(
        bytes("PADDR here\nhere:\nHALT"),
        vec![0x18, 0x09, 0x00, 0x00, 0x00, 0x00, 0x00, 0x00, 0x00, 0xFF]
    );
    assert_eq!(
        bytes("start:\nPADDR start"),
        vec![0x18, 0x00, 0x00, 0x00, 0x00, 0x00, 0x00, 0x00, 0x00]
    );
}

#[test]
fn labels_count_widened_instructions() {
    let mut source = String::from("JMP end\n");
    for _ in 0..8 {
        source.push_str("NOOP\n");
    }
    source.push_str("end:\nPADDR end\n");
    let program = bytes(&source);
    assert_eq!(program.len(), 2 + 8 + 9);
    assert_eq!(program[10], 0x18);
    assert_eq!(program[11], 10);
}
