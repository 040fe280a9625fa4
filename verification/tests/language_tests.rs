use lib::assembler::layout::relax_relative_instructions;
use lib::assembler::parse::parse_source;
use lib::assembler::{assemble, AssemblyInstruction, AssemblyItem, RelativeWidth};
use lib::vm::{run_program, Word};

fn widths(items: &[AssemblyItem<Vec<char>>]) -> Vec<Option<RelativeWidth>> {
    items
        .iter()
        .map(|item| match item {
            AssemblyItem::Instruction(AssemblyInstruction::Relative { width, .. }) => Some(*width),
            _ => None,
        })
        .collect()
}

#[test]
fn numerals_in_every_radix_read_back() {
    for n in [0u64, 1, 15, 16, 255, 4096, 0xDEAD_BEEF, u64::MAX] {
        let decimal = assemble(&format!("PUSH {}", n));
        assert!(decimal.is_ok());
        assert_eq!(assemble(&format!("PUSH {:#x}", n)), decimal);
        assert_eq!(assemble(&format!("PUSH {:#b}", n)), decimal);
        assert_eq!(assemble(&format!("PUSH {:#o}", n)), decimal);
    }
}

#[test]
fn negative_numerals_read_back() {
    for x in [-1i64, -8, -9, -300, -70000, i64::MIN] {
        let program = assemble(&format!("PUSH {}\nHALT", x)).unwrap();
        assert_eq!(run_program(&program), vec![x as Word]);
    }
}

#[test]
fn underscores_in_literals_are_ignored() {
    assert_eq!(assemble("PUSH 1_000"), assemble("PUSH 1000"));
    assert_eq!(assemble("PUSH _1__0_"), assemble("PUSH 10"));
    assert_eq!(assemble("PUSH 0x_ff"), assemble("PUSH 255"));
    assert_eq!(assemble("PUSH -_5"), assemble("PUSH -5"));
    assert_eq!(assemble("PUSH 1_x"), Err("invalid integer literal: 1_x".to_string()));
}

#[test]
fn mnemonic_case_and_spacing_do_not_matter() {
    assert_eq!(assemble("  pUsH \t 5 \u{3000}"), assemble("PUSH 5"));
    assert_eq!(assemble("l:\n\tjz\u{a0}l"), assemble("l:\nJZ l"));
    assert_ne!(assemble("l:\nJZ L"), assemble("l:\nJZ l"));
}

#[test]
fn joined_sources_parse_to_joined_items() {
    let first = "PUSH 1\nl:\nJMP l";
    let second = "; note\nADD\n\nHALT";
    let a = parse_source(first).ok().unwrap();
    let b = parse_source(second).ok().unwrap();
    let joined = parse_source(&format!("{}\n{}", first, second)).ok().unwrap();
    assert_eq!(joined.len(), a.len() + b.len());
    assert_eq!(assemble(&format!("{}\n{}", first, second)).unwrap(), vec![0x91, 0xDF, 0x01, 0xFF]);
}

#[test]
fn push_push_halt_leaves_both_words() {
    for (n, x) in [(0u64, -1i64), (300, 7), (u64::MAX, i64::MIN), (16, -129)] {
        let program = assemble(&format!("PUSH {}\nPUSH {}\nHALT", n, x)).unwrap();
        assert_eq!(run_program(&program), vec![n, x as u64]);
    }
}

#[test]
fn duplicate_label_leaves_items_unchanged() {
    let mut source = String::from("a:\nJMP a\n");
    for _ in 0..20 {
        source.push_str("NOOP\n");
    }
    source.push_str("JMP a\na:\n");
    let mut items = parse_source(&source).ok().unwrap();
    let before = widths(&items);
    let count = items.len();
    let result = relax_relative_instructions(&mut items);
    assert_eq!(result.err().map(|e| e.message()), Some("duplicate label: a".to_string()));
    assert_eq!(items.len(), count);
    assert_eq!(widths(&items), before);
}

#[test]
fn relaxation_widens_only_what_does_not_fit() {
    let mut source = String::from("a:\nJMP a\n");
    for _ in 0..20 {
        source.push_str("NOOP\n");
    }
    source.push_str("JMP a\n");
    let mut items = parse_source(&source).ok().unwrap();
    assert!(relax_relative_instructions(&mut items).is_ok());
    let ws: Vec<RelativeWidth> = widths(&items).into_iter().flatten().collect();
    assert_eq!(ws, vec![RelativeWidth::Signed4, RelativeWidth::Signed8]);
}
