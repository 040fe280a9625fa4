//! Parsing assembly source text into items.
//!
//! Each line is cut at its first `;` (the rest is a comment) and trimmed of
//! whitespace. An empty line is skipped; a line that ends in `:` defines a
//! label; any other line is an instruction: a mnemonic (in any letter case)
//! followed by its operands, all separated by whitespace.
use vstd::prelude::*;
use crate::opcodes::OpcodeByte;
use crate::text::{
    before_comment, before_comment_chars, chars_equal, chars_of, copy_chars, is_newline,
    is_white_space, lemma_before_comment_len, lemma_nonempty_bound, lemma_pieces_join,
    lemma_before_comment, lemma_pieces_single, lemma_pieces_weight, lemma_trim_len,
    lemma_trim_unchanged, lines, nonempty, pieces, pieces_weight, split_lines,
    split_whitespace, to_upper, to_upper_chars, trim, trim_chars, views, words,
};
use super::{
    item_views, AssemblyError, AssemblyInstruction, AssemblyItem, Chars, IntegerLiteral,
    RelativeInstructionKind, RelativeWidth, Text,
};

verus! {

/// What a mnemonic stands for.
#[derive(Clone, Copy, PartialEq, Eq, Debug, Structural)]
pub enum Mnemonic {
    Plain(OpcodeByte),
    Push,
    PushAddress,
    Relative(RelativeInstructionKind),
}

/// The number of operands a mnemonic takes.
pub open spec fn operand_count(m: Mnemonic) -> usize {
    match m {
        Mnemonic::Plain(_) => 0,
        _ => 1,
    }
}

/// The mnemonic that an upper-cased word names.
pub open spec fn mnemonic(m: Seq<char>) -> Option<Mnemonic> {
    if m == seq!['N', 'O', 'O', 'P'] {
        Some(Mnemonic::Plain(OpcodeByte::Noop))
    } else if m == seq!['M', 'U', 'L'] {
        Some(Mnemonic::Plain(OpcodeByte::Mul))
    } else if m == seq!['D', 'U', 'P'] {
        Some(Mnemonic::Plain(OpcodeByte::Dup))
    } else if m == seq!['D', 'R', 'O', 'P'] {
        Some(Mnemonic::Plain(OpcodeByte::Pop))
    } else if m == seq!['S', 'W', 'A', 'P'] {
        Some(Mnemonic::Plain(OpcodeByte::Swap))
    } else if m == seq!['P', 'U', 'S', 'H'] {
        Some(Mnemonic::Push)
    } else if m == seq!['P', 'A', 'D', 'D', 'R'] {
        Some(Mnemonic::PushAddress)
    } else if m == seq!['A', 'D', 'D'] {
        Some(Mnemonic::Plain(OpcodeByte::Add))
    } else if m == seq!['S', 'U', 'B'] {
        Some(Mnemonic::Plain(OpcodeByte::Sub))
    } else if m == seq!['D', 'I', 'V', 'U'] {
        Some(Mnemonic::Plain(OpcodeByte::DivUnsigned))
    } else if m == seq!['D', 'I', 'V', 'S'] {
        Some(Mnemonic::Plain(OpcodeByte::DivSigned))
    } else if m == seq!['R', 'E', 'M', 'U'] {
        Some(Mnemonic::Plain(OpcodeByte::RemUnsigned))
    } else if m == seq!['R', 'E', 'M', 'S'] {
        Some(Mnemonic::Plain(OpcodeByte::RemSigned))
    } else if m == seq!['A', 'N', 'D'] {
        Some(Mnemonic::Plain(OpcodeByte::BitAnd))
    } else if m == seq!['O', 'R'] {
        Some(Mnemonic::Plain(OpcodeByte::BitOr))
    } else if m == seq!['X', 'O', 'R'] {
        Some(Mnemonic::Plain(OpcodeByte::BitXor))
    } else if m == seq!['N', 'O', 'T'] {
        Some(Mnemonic::Plain(OpcodeByte::BitNot))
    } else if m == seq!['S', 'L'] {
        Some(Mnemonic::Plain(OpcodeByte::ShiftLeft))
    } else if m == seq!['L', 'S', 'R'] {
        Some(Mnemonic::Plain(OpcodeByte::LogicShiftRight))
    } else if m == seq!['A', 'S', 'R'] {
        Some(Mnemonic::Plain(OpcodeByte::ArithShiftRight))
    } else if m == seq!['C', 'E', 'Q'] {
        Some(Mnemonic::Plain(OpcodeByte::CompEqual))
    } else if m == seq!['C', 'N', 'E'] {
        Some(Mnemonic::Plain(OpcodeByte::CompNotEqual))
    } else if m == seq!['C', 'L', 'T', 'U'] {
        Some(Mnemonic::Plain(OpcodeByte::CompLessThanUnsigned))
    } else if m == seq!['C', 'L', 'T', 'S'] {
        Some(Mnemonic::Plain(OpcodeByte::CompLessThanSigned))
    } else if m == seq!['C', 'L', 'E', 'U'] {
        Some(Mnemonic::Plain(OpcodeByte::CompLessThanOrEqualUnsigned))
    } else if m == seq!['C', 'L', 'E', 'S'] {
        Some(Mnemonic::Plain(OpcodeByte::CompLessThanOrEqualSigned))
    } else if m == seq!['C', 'G', 'T', 'U'] {
        Some(Mnemonic::Plain(OpcodeByte::CompGreaterThanUnsigned))
    } else if m == seq!['C', 'G', 'T', 'S'] {
        Some(Mnemonic::Plain(OpcodeByte::CompGreaterThanSigned))
    } else if m == seq!['C', 'G', 'E', 'U'] {
        Some(Mnemonic::Plain(OpcodeByte::CompGreaterThanOrEqualUnsigned))
    } else if m == seq!['C', 'G', 'E', 'S'] {
        Some(Mnemonic::Plain(OpcodeByte::CompGreaterThanOrEqualSigned))
    } else if m == seq!['J', 'M', 'P'] {
        Some(Mnemonic::Relative(RelativeInstructionKind::Jump))
    } else if m == seq!['J', 'Z'] {
        Some(Mnemonic::Relative(RelativeInstructionKind::JumpIfZero))
    } else if m == seq!['C', 'A', 'L', 'L'] {
        Some(Mnemonic::Relative(RelativeInstructionKind::Call))
    } else if m == seq!['R', 'E', 'T'] {
        Some(Mnemonic::Plain(OpcodeByte::Return))
    } else if m == seq!['J', 'M', 'P', 'I', 'N', 'D'] {
        Some(Mnemonic::Plain(OpcodeByte::JumpAbsIndirect))
    } else if m == seq!['C', 'A', 'L', 'L', 'I', 'N', 'D'] {
        Some(Mnemonic::Plain(OpcodeByte::CallAbsIndirect))
    } else if m == seq!['M', 'E', 'M', 'L', 'D', '8'] {
        Some(Mnemonic::Plain(OpcodeByte::MemLoad8))
    } else if m == seq!['M', 'E', 'M', 'L', 'D', '1', '6'] {
        Some(Mnemonic::Plain(OpcodeByte::MemLoad16))
    } else if m == seq!['M', 'E', 'M', 'L', 'D', '3', '2'] {
        Some(Mnemonic::Plain(OpcodeByte::MemLoad32))
    } else if m == seq!['M', 'E', 'M', 'L', 'D', '6', '4'] {
        Some(Mnemonic::Plain(OpcodeByte::MemLoad64))
    } else if m == seq!['M', 'E', 'M', 'S', 'T', '8'] {
        Some(Mnemonic::Plain(OpcodeByte::MemStore8))
    } else if m == seq!['M', 'E', 'M', 'S', 'T', '1', '6'] {
        Some(Mnemonic::Plain(OpcodeByte::MemStore16))
    } else if m == seq!['M', 'E', 'M', 'S', 'T', '3', '2'] {
        Some(Mnemonic::Plain(OpcodeByte::MemStore32))
    } else if m == seq!['M', 'E', 'M', 'S', 'T', '6', '4'] {
        Some(Mnemonic::Plain(OpcodeByte::MemStore64))
    } else if m == seq!['M', 'E', 'M', 'S', 'I', 'Z', 'E'] {
        Some(Mnemonic::Plain(OpcodeByte::MemSize))
    } else if m == seq!['M', 'E', 'M', 'G', 'R', 'O', 'W'] {
        Some(Mnemonic::Plain(OpcodeByte::MemGrow))
    } else if m == seq!['M', 'E', 'M', 'C', 'O', 'P', 'Y', '8'] {
        Some(Mnemonic::Plain(OpcodeByte::MemCopy8))
    } else if m == seq!['M', 'E', 'M', 'F', 'I', 'L', 'L', '8'] {
        Some(Mnemonic::Plain(OpcodeByte::MemFill8))
    } else if m == seq!['H', 'A', 'L', 'T'] {
        Some(Mnemonic::Plain(OpcodeByte::Halt))
    } else {
        None
    }
}

/// A character that may begin a label name.
pub open spec fn is_label_start(c: char) -> bool {
    ('a' <= c && c <= 'z') || ('A' <= c && c <= 'Z') || c == '_'
}

/// A character that may follow the first in a label name.
pub open spec fn is_label_char(c: char) -> bool {
    is_label_start(c) || ('0' <= c && c <= '9')
}

/// A label name is an ASCII letter or `_` followed by ASCII letters, digits and `_`.
pub open spec fn check_label(name: Text) -> Result<(), AssemblyError<Text>> {
    if name.len() == 0 {
        Err(AssemblyError::EmptyLabel)
    } else if is_label_start(name[0]) && forall|i: int|
        1 <= i < name.len() ==> #[trigger] is_label_char(name[i]) {
        Ok(())
    } else {
        Err(AssemblyError::InvalidLabel(name))
    }
}

/// `s` with every `_` removed.
pub open spec fn without_underscores(s: Seq<char>) -> Seq<char>
    decreases s.len(),
{
    if s.len() == 0 {
        s
    } else if s.last() == '_' {
        without_underscores(s.drop_last())
    } else {
        without_underscores(s.drop_last()).push(s.last())
    }
}

/// The value of a digit in `radix` (digits beyond 9 are letters of either case).
pub open spec fn digit_value(c: char, radix: nat) -> Option<nat> {
    let d: int = if '0' <= c && c <= '9' {
        (c as int) - ('0' as int)
    } else if 'a' <= c && c <= 'z' {
        (c as int) - ('a' as int) + 10
    } else if 'A' <= c && c <= 'Z' {
        (c as int) - ('A' as int) + 10
    } else {
        36
    };
    if d < radix {
        Some(d as nat)
    } else {
        None
    }
}

/// The value of a numeral in `radix`, if all its characters are digits.
pub open spec fn digits_value(ds: Seq<char>, radix: nat) -> Option<nat>
    decreases ds.len(),
{
    if ds.len() == 0 {
        Some(0)
    } else {
        match digits_value(ds.drop_last(), radix) {
            None => None,
            Some(v) => match digit_value(ds.last(), radix) {
                None => None,
                Some(d) => Some(v * radix + d),
            },
        }
    }
}

/// What `u64::from_str_radix` gives: an optional `+` then at least one digit,
/// with a value that fits in 64 bits.
pub open spec fn from_str_radix(s: Seq<char>, radix: nat) -> Option<u64> {
    let body = if s.len() > 0 && s[0] == '+' {
        s.drop_first()
    } else {
        s
    };
    if body.len() == 0 {
        None
    } else {
        match digits_value(body, radix) {
            Some(v) => if v <= u64::MAX {
                Some(v as u64)
            } else {
                None
            },
            None => None,
        }
    }
}

/// The radix that a prefix `0x`, `0b` or `0o` (either case) selects, and the digits after it.
pub open spec fn radix_and_digits(u: Seq<char>) -> (nat, Seq<char>) {
    if u.len() >= 2 && u[0] == '0' && (u[1] == 'x' || u[1] == 'X') {
        (16, u.skip(2))
    } else if u.len() >= 2 && u[0] == '0' && (u[1] == 'b' || u[1] == 'B') {
        (2, u.skip(2))
    } else if u.len() >= 2 && u[0] == '0' && (u[1] == 'o' || u[1] == 'O') {
        (8, u.skip(2))
    } else {
        (10, u)
    }
}

/// An integer operand: `_` separators are ignored; a leading `-` makes it
/// signed; then a numeral in the radix its prefix selects.
pub open spec fn integer_literal_of(text: Text) -> Result<IntegerLiteral, AssemblyError<Text>> {
    let t = without_underscores(text);
    let negative = t.len() > 0 && t[0] == '-';
    let u = if negative {
        t.drop_first()
    } else {
        t
    };
    let (radix, digits) = radix_and_digits(u);
    match from_str_radix(digits, radix) {
        None => Err(AssemblyError::InvalidInteger(text)),
        Some(m) => if negative {
            if m > 0x8000_0000_0000_0000 {
                Err(AssemblyError::SignedTooSmall(text))
            } else if m == 0x8000_0000_0000_0000 {
                Ok(IntegerLiteral::Signed(i64::MIN))
            } else {
                Ok(IntegerLiteral::Signed((-(m as int)) as i64))
            }
        } else {
            Ok(IntegerLiteral::Unsigned(m))
        },
    }
}

/// An instruction line (already trimmed of comment and whitespace).
pub open spec fn line_instruction(line: Text) -> Result<AssemblyInstruction<Text>, AssemblyError<Text>> {
    let parts = words(line);
    if parts.len() == 0 {
        Err(AssemblyError::ExpectedInstruction)
    } else {
        let name = to_upper(parts[0]);
        match mnemonic(name) {
            None => Err(AssemblyError::UnknownInstruction(parts[0])),
            Some(m) => if parts.len() - 1 != operand_count(m) {
                Err(AssemblyError::OperandCount(name, operand_count(m)))
            } else {
                match m {
                    Mnemonic::Plain(op) => Ok(AssemblyInstruction::Plain(op)),
                    Mnemonic::Push => match integer_literal_of(parts[1]) {
                        Ok(l) => Ok(AssemblyInstruction::Push(l)),
                        Err(e) => Err(e),
                    },
                    Mnemonic::PushAddress => match check_label(parts[1]) {
                        Ok(_) => Ok(AssemblyInstruction::PushAddress(parts[1])),
                        Err(e) => Err(e),
                    },
                    Mnemonic::Relative(kind) => match check_label(parts[1]) {
                        Ok(_) => Ok(
                            AssemblyInstruction::Relative {
                                kind,
                                label_name: parts[1],
                                width: RelativeWidth::Signed4,
                            },
                        ),
                        Err(e) => Err(e),
                    },
                }
            },
        }
    }
}

/// A source line: nothing, a label definition or an instruction.
pub open spec fn parse_line(line: Text) -> Result<Option<AssemblyItem<Text>>, AssemblyError<Text>> {
    let content = trim(before_comment(line));
    if content.len() == 0 {
        Ok(None)
    } else if content.last() == ':' {
        match check_label(content.drop_last()) {
            Ok(_) => Ok(Some(AssemblyItem::Label(content.drop_last()))),
            Err(e) => Err(e),
        }
    } else {
        match line_instruction(content) {
            Ok(i) => Ok(Some(AssemblyItem::Instruction(i))),
            Err(e) => Err(e),
        }
    }
}

/// The items of a sequence of lines; the first line that cannot be parsed gives the error.
pub open spec fn parse_lines(ls: Seq<Text>) -> Result<Seq<AssemblyItem<Text>>, AssemblyError<Text>>
    decreases ls.len(),
{
    if ls.len() == 0 {
        Ok(Seq::empty())
    } else {
        match parse_lines(ls.drop_last()) {
            Err(e) => Err(e),
            Ok(items) => match parse_line(ls.last()) {
                Err(e) => Err(e),
                Ok(None) => Ok(items),
                Ok(Some(item)) => Ok(items.push(item)),
            },
        }
    }
}

/// The items of a source text.
pub open spec fn source_items(source: Text) -> Result<Seq<AssemblyItem<Text>>, AssemblyError<Text>> {
    parse_lines(lines(source))
}

/// The items of a prefix of the lines are at most as many as the lines, and
/// once a prefix fails, the whole fails with the same error.
pub proof fn lemma_parse_lines_prefix(ls: Seq<Text>, k: int)
    requires
        0 <= k <= ls.len(),
    ensures
        parse_lines(ls.take(k)) is Err ==> parse_lines(ls) == parse_lines(ls.take(k)),
        parse_lines(ls) matches Ok(items) ==> items.len() <= ls.len(),
    decreases ls.len(),
{
    if ls.len() > 0 {
        if k == ls.len() {
            assert(ls.take(k) =~= ls);
        } else {
            lemma_parse_lines_prefix(ls.drop_last(), k);
            assert(ls.drop_last().take(k) =~= ls.take(k));
        }
        lemma_parse_lines_prefix(ls.drop_last(), ls.len() - 1);
    }
}

/// Extending a numeral keeps it invalid, or does not make its value smaller.
proof fn lemma_digits_prefix(ds: Seq<char>, radix: nat, k: int)
    requires
        0 <= k <= ds.len(),
        radix >= 1,
    ensures
        digits_value(ds.take(k), radix) is None ==> digits_value(ds, radix) is None,
        digits_value(ds.take(k), radix) matches Some(v) ==> (digits_value(ds, radix) matches Some(
            w,
        ) ==> w >= v),
    decreases ds.len(),
{
    if k < ds.len() {
        lemma_digits_prefix(ds.drop_last(), radix, k);
        assert(ds.drop_last().take(k) =~= ds.take(k));
        if let Some(v) = digits_value(ds.drop_last(), radix) {
            if let Some(d) = digit_value(ds.last(), radix) {
                assert(v * radix + d >= v) by (nonlinear_arith)
                    requires
                        radix >= 1,
                ;
            }
        }
    } else {
        assert(ds.take(k) =~= ds);
    }
}

/// Checks that `name` is a valid label name.
fn validate_label_name(name: &[char]) -> (r: Result<(), AssemblyError<Chars>>)
    ensures
        match check_label(name@) {
            Ok(_) => r is Ok,
            Err(e) => r is Err && r->Err_0@ == e,
        },
{
    if name.len() == 0 {
        return Err(AssemblyError::EmptyLabel);
    }
    let first = name[0];
    if !(('a' <= first && first <= 'z') || ('A' <= first && first <= 'Z') || first == '_') {
        return Err(AssemblyError::InvalidLabel(copy_chars(name)));
    }
    let mut i: usize = 1;
    while i < name.len()
        invariant
            1 <= i <= name.len(),
            forall|k: int| 1 <= k < i ==> #[trigger] is_label_char(name@[k]),
        decreases name.len() - i,
    {
        let c = name[i];
        if !(('a' <= c && c <= 'z') || ('A' <= c && c <= 'Z') || c == '_' || ('0' <= c && c
            <= '9')) {
            proof {
                assert(!is_label_char(name@[i as int]));
            }
            return Err(AssemblyError::InvalidLabel(copy_chars(name)));
        }
        i = i + 1;
    }
    Ok(())
}

/// The name of a label definition line, which ends in `:`.
fn parse_label(line: &[char]) -> (r: Result<Chars, AssemblyError<Chars>>)
    requires
        line@.len() > 0,
        line@.last() == ':',
    ensures
        match check_label(line@.drop_last()) {
            Ok(_) => r is Ok && r->Ok_0@ == line@.drop_last(),
            Err(e) => r is Err && r->Err_0@ == e,
        },
{
    let mut name: Vec<char> = Vec::with_capacity(line.len() - 1);
    let mut i: usize = 0;
    while i < line.len() - 1
        invariant
            i <= line.len() - 1,
            name@ == line@.take(i as int),
        decreases line.len() - 1 - i,
    {
        name.push(line[i]);
        i = i + 1;
        proof {
            assert(name@ =~= line@.take(i as int));
        }
    }
    proof {
        assert(name@ =~= line@.drop_last());
    }
    match validate_label_name(name.as_slice()) {
        Ok(_) => Ok(name),
        Err(e) => Err(e),
    }
}

fn remove_underscores(text: &[char]) -> (r: Vec<char>)
    ensures
        r@ == without_underscores(text@),
{
    let mut r: Vec<char> = Vec::new();
    let mut i: usize = 0;
    while i < text.len()
        invariant
            i <= text.len(),
            r@ == without_underscores(text@.take(i as int)),
        decreases text.len() - i,
    {
        proof {
            assert(text@.take(i + 1).drop_last() =~= text@.take(i as int));
        }
        if text[i] != '_' {
            r.push(text[i]);
        }
        i = i + 1;
    }
    proof {
        assert(text@.take(text.len() as int) =~= text@);
    }
    r
}

/// The characters of `s` from index `from` on.
fn skip_chars(s: &[char], from: usize) -> (r: Vec<char>)
    requires
        from <= s@.len(),
    ensures
        r@ == s@.skip(from as int),
{
    let mut r: Vec<char> = Vec::new();
    let mut i: usize = from;
    while i < s.len()
        invariant
            from <= i <= s.len(),
            r@ == s@.subrange(from as int, i as int),
        decreases s.len() - i,
    {
        r.push(s[i]);
        i = i + 1;
        proof {
            assert(r@ =~= s@.subrange(from as int, i as int));
        }
    }
    proof {
        assert(r@ =~= s@.skip(from as int));
    }
    r
}

fn digit_of(c: char, radix: u32) -> (r: Option<u32>)
    requires
        2 <= radix <= 16,
    ensures
        match digit_value(c, radix as nat) {
            Some(d) => r == Some(d as u32),
            None => r is None,
        },
{
    let d: u32 = if '0' <= c && c <= '9' {
        (c as u32) - ('0' as u32)
    } else if 'a' <= c && c <= 'z' {
        (c as u32) - ('a' as u32) + 10
    } else if 'A' <= c && c <= 'Z' {
        (c as u32) - ('A' as u32) + 10
    } else {
        36
    };
    if d < radix {
        Some(d)
    } else {
        None
    }
}

/// `u64::from_str_radix(digits, radix)`, as [`from_str_radix`] states it.
fn u64_from_str_radix(digits: &[char], radix: u32) -> (r: Option<u64>)
    requires
        2 <= radix <= 16,
    ensures
        r == from_str_radix(digits@, radix as nat),
{
    let start: usize = if digits.len() > 0 && digits[0] == '+' {
        1
    } else {
        0
    };
    let ghost body = if digits@.len() > 0 && digits@[0] == '+' {
        digits@.drop_first()
    } else {
        digits@
    };
    proof {
        assert(body =~= digits@.skip(start as int));
    }
    if start >= digits.len() {
        return None;
    }
    let mut value: u64 = 0;
    let mut i: usize = start;
    proof {
        assert(digits@.subrange(start as int, start as int) =~= Seq::<char>::empty());
    }
    while i < digits.len()
        invariant
            start <= i <= digits.len(),
            body == digits@.skip(start as int),
            body == (if digits@.len() > 0 && digits@[0] == '+' {
                digits@.drop_first()
            } else {
                digits@
            }),
            2 <= radix <= 16,
            digits_value(digits@.subrange(start as int, i as int), radix as nat) == Some(value as nat),
        decreases digits.len() - i,
    {
        let ghost prefix = digits@.subrange(start as int, i + 1);
        proof {
            assert(prefix.drop_last() =~= digits@.subrange(start as int, i as int));
            assert(prefix =~= body.take(i + 1 - start));
        }
        match digit_of(digits[i], radix) {
            None => {
                proof {
                    assert(prefix.last() == digits@[i as int]);
                    assert(digits_value(prefix, radix as nat) is None);
                    lemma_digits_prefix(body, radix as nat, i + 1 - start);
                    assert(digits_value(body, radix as nat) is None);
                    assert(body.len() > 0);
                }
                return None;
            },
            Some(d) => {
                proof {
                    assert(prefix.last() == digits@[i as int]);
                    assert((value as u128) * (radix as u128) + (d as u128) < 0x1_0000_0000_0000_0000_0000_0000_0000_0000) by (nonlinear_arith)
                        requires
                            value <= u64::MAX,
                            radix <= 16,
                            d < 16,
                    ;
                }
                let wide: u128 = (value as u128) * (radix as u128) + (d as u128);
                if wide > u64::MAX as u128 {
                    proof {
                        lemma_digits_prefix(body, radix as nat, i + 1 - start);
                    }
                    return None;
                }
                value = wide as u64;
            },
        }
        i = i + 1;
    }
    proof {
        assert(digits@.subrange(start as int, digits.len() as int) =~= body);
    }
    Some(value)
}

/// Reads an integer operand, as [`integer_literal_of`] states it.
fn parse_integer_literal(text: &[char]) -> (r: Result<IntegerLiteral, AssemblyError<Chars>>)
    ensures
        match integer_literal_of(text@) {
            Ok(l) => r == Ok::<IntegerLiteral, AssemblyError<Chars>>(l),
            Err(e) => r is Err && r->Err_0@ == e,
        },
{
    let t = remove_underscores(text);
    let negative = t.len() > 0 && t[0] == '-';
    let u = if negative {
        skip_chars(t.as_slice(), 1)
    } else {
        skip_chars(t.as_slice(), 0)
    };
    proof {
        assert(t@.skip(0) =~= t@);
    }
    let zero_prefix = u.len() >= 2 && u[0] == '0';
    let (radix, digits): (u32, Vec<char>) = if zero_prefix && (u[1] == 'x' || u[1] == 'X') {
        (16, skip_chars(u.as_slice(), 2))
    } else if zero_prefix && (u[1] == 'b' || u[1] == 'B') {
        (2, skip_chars(u.as_slice(), 2))
    } else if zero_prefix && (u[1] == 'o' || u[1] == 'O') {
        (8, skip_chars(u.as_slice(), 2))
    } else {
        (10, skip_chars(u.as_slice(), 0))
    };
    proof {
        assert(u@.skip(0) =~= u@);
    }
    match u64_from_str_radix(digits.as_slice(), radix) {
        None => Err(AssemblyError::InvalidInteger(copy_chars(text))),
        Some(magnitude) => {
            if negative {
                if magnitude > 0x8000_0000_0000_0000 {
                    Err(AssemblyError::SignedTooSmall(copy_chars(text)))
                } else if magnitude == 0x8000_0000_0000_0000 {
                    Ok(IntegerLiteral::Signed(i64::MIN))
                } else {
                    Ok(IntegerLiteral::Signed(-(magnitude as i64)))
                }
            } else {
                Ok(IntegerLiteral::Unsigned(magnitude))
            }
        },
    }
}

/// Checks that an instruction line has the number of operands its mnemonic takes.
fn expect_operand_count(parts: &Vec<Chars>, expected: usize, mnemonic: &[char]) -> (r: Result<
    (),
    AssemblyError<Chars>,
>)
    requires
        parts@.len() >= 1,
    ensures
        parts@.len() - 1 == expected ==> r is Ok,
        parts@.len() - 1 != expected ==> r is Err && r->Err_0@ == AssemblyError::OperandCount(
            mnemonic@,
            expected,
        ),
{
    let actual = parts.len() - 1;
    if actual != expected {
        return Err(AssemblyError::OperandCount(copy_chars(mnemonic), expected));
    }
    Ok(())
}

fn lookup_mnemonic(m: &[char]) -> (r: Option<Mnemonic>)
    ensures
        r == mnemonic(m@),
{
    if chars_equal(m, &['N', 'O', 'O', 'P']) {
        return Some(Mnemonic::Plain(OpcodeByte::Noop));
    }
    if chars_equal(m, &['M', 'U', 'L']) {
        return Some(Mnemonic::Plain(OpcodeByte::Mul));
    }
    if chars_equal(m, &['D', 'U', 'P']) {
        return Some(Mnemonic::Plain(OpcodeByte::Dup));
    }
    if chars_equal(m, &['D', 'R', 'O', 'P']) {
        return Some(Mnemonic::Plain(OpcodeByte::Pop));
    }
    if chars_equal(m, &['S', 'W', 'A', 'P']) {
        return Some(Mnemonic::Plain(OpcodeByte::Swap));
    }
    if chars_equal(m, &['P', 'U', 'S', 'H']) {
        return Some(Mnemonic::Push);
    }
    if chars_equal(m, &['P', 'A', 'D', 'D', 'R']) {
        return Some(Mnemonic::PushAddress);
    }
    if chars_equal(m, &['A', 'D', 'D']) {
        return Some(Mnemonic::Plain(OpcodeByte::Add));
    }
    if chars_equal(m, &['S', 'U', 'B']) {
        return Some(Mnemonic::Plain(OpcodeByte::Sub));
    }
    if chars_equal(m, &['D', 'I', 'V', 'U']) {
        return Some(Mnemonic::Plain(OpcodeByte::DivUnsigned));
    }
    if chars_equal(m, &['D', 'I', 'V', 'S']) {
        return Some(Mnemonic::Plain(OpcodeByte::DivSigned));
    }
    if chars_equal(m, &['R', 'E', 'M', 'U']) {
        return Some(Mnemonic::Plain(OpcodeByte::RemUnsigned));
    }
    if chars_equal(m, &['R', 'E', 'M', 'S']) {
        return Some(Mnemonic::Plain(OpcodeByte::RemSigned));
    }
    if chars_equal(m, &['A', 'N', 'D']) {
        return Some(Mnemonic::Plain(OpcodeByte::BitAnd));
    }
    if chars_equal(m, &['O', 'R']) {
        return Some(Mnemonic::Plain(OpcodeByte::BitOr));
    }
    if chars_equal(m, &['X', 'O', 'R']) {
        return Some(Mnemonic::Plain(OpcodeByte::BitXor));
    }
    if chars_equal(m, &['N', 'O', 'T']) {
        return Some(Mnemonic::Plain(OpcodeByte::BitNot));
    }
    if chars_equal(m, &['S', 'L']) {
        return Some(Mnemonic::Plain(OpcodeByte::ShiftLeft));
    }
    if chars_equal(m, &['L', 'S', 'R']) {
        return Some(Mnemonic::Plain(OpcodeByte::LogicShiftRight));
    }
    if chars_equal(m, &['A', 'S', 'R']) {
        return Some(Mnemonic::Plain(OpcodeByte::ArithShiftRight));
    }
    if chars_equal(m, &['C', 'E', 'Q']) {
        return Some(Mnemonic::Plain(OpcodeByte::CompEqual));
    }
    if chars_equal(m, &['C', 'N', 'E']) {
        return Some(Mnemonic::Plain(OpcodeByte::CompNotEqual));
    }
    if chars_equal(m, &['C', 'L', 'T', 'U']) {
        return Some(Mnemonic::Plain(OpcodeByte::CompLessThanUnsigned));
    }
    if chars_equal(m, &['C', 'L', 'T', 'S']) {
        return Some(Mnemonic::Plain(OpcodeByte::CompLessThanSigned));
    }
    if chars_equal(m, &['C', 'L', 'E', 'U']) {
        return Some(Mnemonic::Plain(OpcodeByte::CompLessThanOrEqualUnsigned));
    }
    if chars_equal(m, &['C', 'L', 'E', 'S']) {
        return Some(Mnemonic::Plain(OpcodeByte::CompLessThanOrEqualSigned));
    }
    if chars_equal(m, &['C', 'G', 'T', 'U']) {
        return Some(Mnemonic::Plain(OpcodeByte::CompGreaterThanUnsigned));
    }
    if chars_equal(m, &['C', 'G', 'T', 'S']) {
        return Some(Mnemonic::Plain(OpcodeByte::CompGreaterThanSigned));
    }
    if chars_equal(m, &['C', 'G', 'E', 'U']) {
        return Some(Mnemonic::Plain(OpcodeByte::CompGreaterThanOrEqualUnsigned));
    }
    if chars_equal(m, &['C', 'G', 'E', 'S']) {
        return Some(Mnemonic::Plain(OpcodeByte::CompGreaterThanOrEqualSigned));
    }
    if chars_equal(m, &['J', 'M', 'P']) {
        return Some(Mnemonic::Relative(RelativeInstructionKind::Jump));
    }
    if chars_equal(m, &['J', 'Z']) {
        return Some(Mnemonic::Relative(RelativeInstructionKind::JumpIfZero));
    }
    if chars_equal(m, &['C', 'A', 'L', 'L']) {
        return Some(Mnemonic::Relative(RelativeInstructionKind::Call));
    }
    if chars_equal(m, &['R', 'E', 'T']) {
        return Some(Mnemonic::Plain(OpcodeByte::Return));
    }
    if chars_equal(m, &['J', 'M', 'P', 'I', 'N', 'D']) {
        return Some(Mnemonic::Plain(OpcodeByte::JumpAbsIndirect));
    }
    if chars_equal(m, &['C', 'A', 'L', 'L', 'I', 'N', 'D']) {
        return Some(Mnemonic::Plain(OpcodeByte::CallAbsIndirect));
    }
    if chars_equal(m, &['M', 'E', 'M', 'L', 'D', '8']) {
        return Some(Mnemonic::Plain(OpcodeByte::MemLoad8));
    }
    if chars_equal(m, &['M', 'E', 'M', 'L', 'D', '1', '6']) {
        return Some(Mnemonic::Plain(OpcodeByte::MemLoad16));
    }
    if chars_equal(m, &['M', 'E', 'M', 'L', 'D', '3', '2']) {
        return Some(Mnemonic::Plain(OpcodeByte::MemLoad32));
    }
    if chars_equal(m, &['M', 'E', 'M', 'L', 'D', '6', '4']) {
        return Some(Mnemonic::Plain(OpcodeByte::MemLoad64));
    }
    if chars_equal(m, &['M', 'E', 'M', 'S', 'T', '8']) {
        return Some(Mnemonic::Plain(OpcodeByte::MemStore8));
    }
    if chars_equal(m, &['M', 'E', 'M', 'S', 'T', '1', '6']) {
        return Some(Mnemonic::Plain(OpcodeByte::MemStore16));
    }
    if chars_equal(m, &['M', 'E', 'M', 'S', 'T', '3', '2']) {
        return Some(Mnemonic::Plain(OpcodeByte::MemStore32));
    }
    if chars_equal(m, &['M', 'E', 'M', 'S', 'T', '6', '4']) {
        return Some(Mnemonic::Plain(OpcodeByte::MemStore64));
    }
    if chars_equal(m, &['M', 'E', 'M', 'S', 'I', 'Z', 'E']) {
        return Some(Mnemonic::Plain(OpcodeByte::MemSize));
    }
    if chars_equal(m, &['M', 'E', 'M', 'G', 'R', 'O', 'W']) {
        return Some(Mnemonic::Plain(OpcodeByte::MemGrow));
    }
    if chars_equal(m, &['M', 'E', 'M', 'C', 'O', 'P', 'Y', '8']) {
        return Some(Mnemonic::Plain(OpcodeByte::MemCopy8));
    }
    if chars_equal(m, &['M', 'E', 'M', 'F', 'I', 'L', 'L', '8']) {
        return Some(Mnemonic::Plain(OpcodeByte::MemFill8));
    }
    if chars_equal(m, &['H', 'A', 'L', 'T']) {
        return Some(Mnemonic::Plain(OpcodeByte::Halt));
    }
    None
}

/// Parses an instruction line, as [`line_instruction`] states it.
fn parse_instruction(line: &[char]) -> (r: Result<AssemblyInstruction<Chars>, AssemblyError<Chars>>)
    ensures
        match line_instruction(line@) {
            Ok(i) => r is Ok && r->Ok_0@ == i,
            Err(e) => r is Err && r->Err_0@ == e,
        },
{
    let parts = split_whitespace(line);
    proof {
        assert(views(parts@).len() == parts@.len());
    }
    if parts.len() == 0 {
        return Err(AssemblyError::ExpectedInstruction);
    }
    proof {
        assert(views(parts@)[0] == parts@[0]@);
    }
    let name = to_upper_chars(parts[0].as_slice());
    let m = match lookup_mnemonic(name.as_slice()) {
        None => {
            return Err(AssemblyError::UnknownInstruction(copy_chars(parts[0].as_slice())));
        },
        Some(m) => m,
    };
    let expected: usize = match m {
        Mnemonic::Plain(_) => 0,
        _ => 1,
    };
    match expect_operand_count(&parts, expected, name.as_slice()) {
        Err(e) => {
            return Err(e);
        },
        Ok(_) => {},
    }
    match m {
        Mnemonic::Plain(op) => Ok(AssemblyInstruction::Plain(op)),
        Mnemonic::Push => {
            proof {
                assert(views(parts@)[1] == parts@[1]@);
            }
            match parse_integer_literal(parts[1].as_slice()) {
                Ok(l) => Ok(AssemblyInstruction::Push(l)),
                Err(e) => Err(e),
            }
        },
        Mnemonic::PushAddress => {
            proof {
                assert(views(parts@)[1] == parts@[1]@);
            }
            match validate_label_name(parts[1].as_slice()) {
                Ok(_) => Ok(AssemblyInstruction::PushAddress(copy_chars(parts[1].as_slice()))),
                Err(e) => Err(e),
            }
        },
        Mnemonic::Relative(kind) => {
            proof {
                assert(views(parts@)[1] == parts@[1]@);
            }
            match validate_label_name(parts[1].as_slice()) {
                Ok(_) => Ok(
                    AssemblyInstruction::Relative {
                        kind,
                        label_name: copy_chars(parts[1].as_slice()),
                        width: RelativeWidth::Signed4,
                    },
                ),
                Err(e) => Err(e),
            }
        },
    }
}

/// Parses one source line, as [`parse_line`] states it.
fn parse_source_line(line: &[char]) -> (r: Result<Option<AssemblyItem<Chars>>, AssemblyError<Chars>>)
    ensures
        match parse_line(line@) {
            Ok(None) => r matches Ok(None),
            Ok(Some(item)) => r matches Ok(Some(x)) && x@ == item,
            Err(e) => r is Err && r->Err_0@ == e,
        },
{
    let uncommented = before_comment_chars(line);
    let content = trim_chars(uncommented.as_slice());
    if content.len() == 0 {
        return Ok(None);
    }
    if content[content.len() - 1] == ':' {
        match parse_label(content.as_slice()) {
            Ok(name) => Ok(Some(AssemblyItem::Label(name))),
            Err(e) => Err(e),
        }
    } else {
        match parse_instruction(content.as_slice()) {
            Ok(i) => Ok(Some(AssemblyItem::Instruction(i))),
            Err(e) => Err(e),
        }
    }
}

/// Parses a source text into items, as [`source_items`] states it.
pub fn parse_source(source: &str) -> (r: Result<Vec<AssemblyItem<Chars>>, AssemblyError<Chars>>)
    ensures
        match source_items(source@) {
            Ok(items) => r is Ok && item_views(r->Ok_0@) == items,
            Err(e) => r is Err && r->Err_0@ == e,
        },
{
    let chars = chars_of(source);
    let source_lines = split_lines(chars.as_slice());
    let ghost ls = views(source_lines@);
    let mut items: Vec<AssemblyItem<Chars>> = Vec::new();
    let mut k: usize = 0;
    proof {
        assert(ls.take(0) =~= Seq::<Text>::empty());
        assert(item_views(items@) =~= Seq::<AssemblyItem<Text>>::empty());
    }
    while k < source_lines.len()
        invariant
            k <= source_lines.len(),
            ls == views(source_lines@),
            ls == lines(source@),
            parse_lines(ls.take(k as int)) == Ok::<Seq<AssemblyItem<Text>>, AssemblyError<Text>>(
                item_views(items@),
            ),
        decreases source_lines.len() - k,
    {
        proof {
            assert(ls.take(k + 1).drop_last() =~= ls.take(k as int));
            assert(ls[k as int] == source_lines@[k as int]@);
        }
        match parse_source_line(source_lines[k].as_slice()) {
            Err(e) => {
                proof {
                    lemma_parse_lines_prefix(ls, k + 1);
                }
                return Err(e);
            },
            Ok(None) => {},
            Ok(Some(item)) => {
                let ghost before = items@;
                items.push(item);
                proof {
                    assert(item_views(items@) =~= item_views(before).push(items@.last()@));
                }
            },
        }
        k = k + 1;
    }
    proof {
        assert(ls.take(source_lines.len() as int) =~= ls);
    }
    Ok(items)
}

// ---------------------------------------------------------------------------
// Laws of the source language
// ---------------------------------------------------------------------------

proof fn lemma_parse_lines_join(a: Seq<Text>, b: Seq<Text>)
    requires
        parse_lines(a) is Ok,
    ensures
        parse_lines(a + b) == match parse_lines(b) {
            Ok(y) => Ok(parse_lines(a)->Ok_0 + y),
            Err(e) => Err::<Seq<AssemblyItem<Text>>, AssemblyError<Text>>(e),
        },
    decreases b.len(),
{
    let x = parse_lines(a)->Ok_0;
    if b.len() == 0 {
        assert(a + b =~= a);
        assert(x + Seq::<AssemblyItem<Text>>::empty() =~= x);
    } else {
        assert((a + b).drop_last() =~= a + b.drop_last());
        assert((a + b).last() == b.last());
        lemma_parse_lines_join(a, b.drop_last());
        if let Ok(y) = parse_lines(b.drop_last()) {
            if let Ok(Some(item)) = parse_line(b.last()) {
                assert((x + y).push(item) =~= x + y.push(item));
            }
        }
    }
}

/// Lines are parsed one by one: the items of two texts joined by a newline
/// are the items of the first followed by those of the second, and an error
/// in the first text is the error of the whole.
pub proof fn lemma_source_items_join(s1: Text, s2: Text)
    ensures
        source_items(s1) is Err ==> source_items(s1 + seq!['\n'] + s2) == source_items(s1),
        source_items(s1) is Ok ==> source_items(s1 + seq!['\n'] + s2) == match source_items(s2) {
            Ok(y) => Ok(source_items(s1)->Ok_0 + y),
            Err(e) => Err::<Seq<AssemblyItem<Text>>, AssemblyError<Text>>(e),
        },
{
    let sep = |c: char| is_newline(c);
    lemma_pieces_join(s1, '\n', s2, sep);
    let l1 = lines(s1);
    let joined = lines(s1 + seq!['\n'] + s2);
    assert(joined == l1 + lines(s2));
    if source_items(s1) is Err {
        assert(joined.take(l1.len() as int) =~= l1);
        lemma_parse_lines_prefix(joined, l1.len() as int);
    } else {
        lemma_parse_lines_join(l1, lines(s2));
    }
}

/// The letter case of the mnemonic does not change what a line means, nor
/// does the white space between words: two lines with the same words, but
/// for the case of the first, give the same instruction (or both fail).
pub proof fn lemma_mnemonic_spelling(l1: Text, l2: Text)
    requires
        words(l1).len() == words(l2).len(),
        words(l1).len() > 0 ==> to_upper(words(l1)[0]) == to_upper(words(l2)[0]),
        forall|i: int| 1 <= i < words(l1).len() ==> #[trigger] words(l1)[i] == words(l2)[i],
    ensures
        (line_instruction(l1) is Ok) == (line_instruction(l2) is Ok),
        line_instruction(l1) is Ok ==> line_instruction(l1) == line_instruction(l2),
{
    if words(l1).len() > 1 {
        assert(words(l1)[1] == words(l2)[1]);
    }
}

/// `without_underscores` distributes over concatenation.
proof fn lemma_without_underscores_concat(a: Seq<char>, b: Seq<char>)
    ensures
        without_underscores(a + b) == without_underscores(a) + without_underscores(b),
    decreases b.len(),
{
    if b.len() == 0 {
        assert(a + b =~= a);
        assert(without_underscores(a) + without_underscores(b) =~= without_underscores(a));
    } else {
        assert((a + b).drop_last() =~= a + b.drop_last());
        assert((a + b).last() == b.last());
        lemma_without_underscores_concat(a, b.drop_last());
        let wa = without_underscores(a);
        let wb = without_underscores(b.drop_last());
        assert((wa + wb).push(b.last()) =~= wa + wb.push(b.last()));
    }
}

/// A `_` inserted anywhere in a text is removed again.
pub proof fn lemma_underscore_inserted(t: Seq<char>, k: int)
    requires
        0 <= k <= t.len(),
    ensures
        without_underscores(t.take(k) + seq!['_'] + t.skip(k)) == without_underscores(t),
{
    lemma_without_underscores_concat(t.take(k) + seq!['_'], t.skip(k));
    lemma_without_underscores_concat(t.take(k), t.skip(k));
    assert((t.take(k) + seq!['_']).drop_last() =~= t.take(k));
    assert(t.take(k) + t.skip(k) =~= t);
}

/// `_` separators are ignored: two integer operands that are the same once
/// their underscores are removed are both read, to the same value, or both
/// refused.
pub proof fn lemma_underscores_ignored(t1: Text, t2: Text)
    requires
        without_underscores(t1) == without_underscores(t2),
    ensures
        (integer_literal_of(t1) is Ok) == (integer_literal_of(t2) is Ok),
        integer_literal_of(t1) is Ok ==> integer_literal_of(t1) == integer_literal_of(t2),
{
}

/// The digit character of `d` (below 16), lower case beyond 9.
pub open spec fn radix_digit(d: nat) -> char {
    seq!['0', '1', '2', '3', '4', '5', '6', '7', '8', '9', 'a', 'b', 'c', 'd', 'e', 'f'][d as int]
}

/// The numeral of `n` in `radix` (2 to 16), most significant digit first,
/// without leading zeros: what `format!` writes after its `0x`, `0b` or `0o`.
pub open spec fn numeral(n: nat, radix: nat) -> Seq<char>
    decreases n,
{
    if radix < 2 || n < radix {
        seq![radix_digit(n)]
    } else {
        proof {
            assert(n / radix < n) by (nonlinear_arith)
                requires
                    radix >= 2,
                    n >= radix,
            ;
        }
        numeral(n / radix, radix).push(radix_digit(n % radix))
    }
}

proof fn lemma_radix_digit(d: nat, radix: nat)
    requires
        d < radix <= 16,
    ensures
        digit_value(radix_digit(d), radix) == Some(d),
        ('0' <= radix_digit(d) <= '9') || (radix > 10 && 'a' <= radix_digit(d) <= 'f'),
{
}

/// A numeral reads back as its value, and is made of digits only.
pub proof fn lemma_numeral_value(n: nat, radix: nat)
    requires
        2 <= radix <= 16,
    ensures
        digits_value(numeral(n, radix), radix) == Some(n),
        numeral(n, radix).len() > 0,
        forall|i: int|
            0 <= i < numeral(n, radix).len() ==> ('0' <= #[trigger] numeral(n, radix)[i] <= '9')
                || (radix > 10 && 'a' <= numeral(n, radix)[i] <= 'f'),
    decreases n,
{
    if n < radix {
        lemma_radix_digit(n, radix);
        let m = numeral(n, radix);
        assert(m.drop_last() =~= Seq::<char>::empty());
        assert(digits_value(m.drop_last(), radix) == Some(0nat));
        assert(m.last() == radix_digit(n));
        assert(0 * radix + n == n);
    } else {
        assert(n / radix < n && n % radix < radix && (n / radix) * radix + n % radix == n)
            by (nonlinear_arith)
            requires
                radix >= 2,
                n >= radix,
        ;
        lemma_numeral_value(n / radix, radix);
        lemma_radix_digit(n % radix, radix);
        let m = numeral(n, radix);
        assert(m == numeral(n / radix, radix).push(radix_digit(n % radix)));
        assert(m.drop_last() =~= numeral(n / radix, radix));
        assert(m.last() == radix_digit(n % radix));
        assert(digits_value(m, radix) == Some((n / radix) * radix + n % radix));
    }
}

proof fn lemma_no_underscores(s: Seq<char>)
    requires
        forall|i: int| 0 <= i < s.len() ==> #[trigger] s[i] != '_',
    ensures
        without_underscores(s) == s,
    decreases s.len(),
{
    if s.len() > 0 {
        lemma_no_underscores(s.drop_last());
        assert(s.drop_last().push(s.last()) =~= s);
    }
}

/// Integer operands read back their numerals: the decimal numeral of `n`,
/// and `0x`, `0b` or `0o` followed by its hexadecimal, binary or octal one.
pub proof fn lemma_unsigned_numerals(n: u64)
    ensures
        integer_literal_of(numeral(n as nat, 10)) == Ok::<IntegerLiteral, AssemblyError<Text>>(
            IntegerLiteral::Unsigned(n),
        ),
        integer_literal_of(seq!['0', 'x'] + numeral(n as nat, 16)) == Ok::<
            IntegerLiteral,
            AssemblyError<Text>,
        >(IntegerLiteral::Unsigned(n)),
        integer_literal_of(seq!['0', 'b'] + numeral(n as nat, 2)) == Ok::<
            IntegerLiteral,
            AssemblyError<Text>,
        >(IntegerLiteral::Unsigned(n)),
        integer_literal_of(seq!['0', 'o'] + numeral(n as nat, 8)) == Ok::<
            IntegerLiteral,
            AssemblyError<Text>,
        >(IntegerLiteral::Unsigned(n)),
{
    lemma_prefixed_numeral(n, 10, seq![]);
    lemma_prefixed_numeral(n, 16, seq!['0', 'x']);
    lemma_prefixed_numeral(n, 2, seq!['0', 'b']);
    lemma_prefixed_numeral(n, 8, seq!['0', 'o']);
    assert(seq![] + numeral(n as nat, 10) =~= numeral(n as nat, 10));
}

proof fn lemma_prefixed_numeral(n: u64, radix: nat, prefix: Seq<char>)
    requires
        radix == 10 && prefix == Seq::<char>::empty() || radix == 16 && prefix == seq!['0', 'x']
            || radix == 2 && prefix == seq!['0', 'b'] || radix == 8 && prefix == seq!['0', 'o'],
    ensures
        integer_literal_of(prefix + numeral(n as nat, radix)) == Ok::<
            IntegerLiteral,
            AssemblyError<Text>,
        >(IntegerLiteral::Unsigned(n)),
{
    let m = numeral(n as nat, radix);
    let t = prefix + m;
    lemma_numeral_value(n as nat, radix);
    assert forall|i: int| 0 <= i < t.len() implies #[trigger] t[i] != '_' by {
        if i >= prefix.len() {
            assert(t[i] == m[i - prefix.len()]);
        }
    }
    lemma_no_underscores(t);
    assert(t.skip(prefix.len() as int) =~= m);
    if radix == 10 {
        assert(t =~= m);
        assert(m[0] != '-' && m[0] != '+');
        if m.len() >= 2 {
            assert('0' <= m[1] <= '9');
        }
        assert(radix_and_digits(t) == (10nat, t));
    } else {
        assert(t[0] == '0');
        assert(radix_and_digits(t) == (radix, m));
        assert(m[0] != '+');
    }
}

/// A negative integer operand reads back its decimal numeral.
pub proof fn lemma_negative_numeral(x: i64)
    requires
        x < 0,
    ensures
        integer_literal_of(seq!['-'] + numeral((-(x as int)) as nat, 10)) == Ok::<
            IntegerLiteral,
            AssemblyError<Text>,
        >(IntegerLiteral::Signed(x)),
{
    let a = (-(x as int)) as nat;
    let m = numeral(a, 10);
    let t = seq!['-'] + m;
    lemma_numeral_value(a, 10);
    assert forall|i: int| 0 <= i < t.len() implies #[trigger] t[i] != '_' by {
        if i >= 1 {
            assert(t[i] == m[i - 1]);
        }
    }
    lemma_no_underscores(t);
    assert(t.drop_first() =~= m);
    assert(m[0] != '+');
    if m.len() >= 2 {
        assert('0' <= m[1] <= '9');
    }
    assert(radix_and_digits(m) == (10nat, m));
}

/// Every mnemonic has at least two letters.
proof fn lemma_mnemonic_len(m: Seq<char>)
    ensures
        mnemonic(m) is Some ==> m.len() >= 2,
{
}

/// A line that gives an item holds at least two characters.
proof fn lemma_parse_line_len(l: Text)
    ensures
        parse_line(l) matches Ok(Some(_)) ==> l.len() >= 2,
{
    let content = trim(before_comment(l));
    lemma_before_comment_len(l);
    lemma_trim_len(before_comment(l));
    let ps = pieces(content, |c: char| is_white_space(c));
    lemma_pieces_weight(content, |c: char| is_white_space(c));
    lemma_nonempty_bound(ps, content.len());
    let ws = words(content);
    if ws.len() > 0 {
        assert(ws[0].len() <= content.len());
        assert(to_upper(ws[0]).len() == ws[0].len());
        lemma_mnemonic_len(to_upper(ws[0]));
    }
}

proof fn lemma_parse_lines_count(ls: Seq<Text>)
    ensures
        parse_lines(ls) matches Ok(items) ==> 3 * items.len() <= pieces_weight(ls),
    decreases ls.len(),
{
    if ls.len() > 0 {
        lemma_parse_lines_count(ls.drop_last());
        lemma_parse_line_len(ls.last());
    }
}

/// Each item takes a line of at least two characters: a source text of `n`
/// characters gives at most `(n + 1) / 3` items.
pub proof fn lemma_source_items_count(source: Text)
    ensures
        source_items(source) matches Ok(items) ==> 3 * items.len() <= source.len() + 1,
{
    lemma_pieces_weight(source, |c: char| is_newline(c));
    lemma_parse_lines_count(lines(source));
}

/// The decimal numeral of `x`, with a `-` before it when negative: what
/// `format!("{}", x)` writes.
pub open spec fn decimal_operand(x: i64) -> Seq<char> {
    if x < 0 {
        seq!['-'] + numeral((-(x as int)) as nat, 10)
    } else {
        numeral(x as nat, 10)
    }
}

/// The integer operand that `decimal_operand(x)` reads as.
pub open spec fn decimal_literal(x: i64) -> IntegerLiteral {
    if x < 0 {
        IntegerLiteral::Signed(x)
    } else {
        IntegerLiteral::Unsigned(x as u64)
    }
}

/// The characters a numeral operand is written with.
pub open spec fn numeral_char(c: char) -> bool {
    ('0' <= c && c <= '9') || c == '-'
}

/// A decimal operand reads back, is not empty, ends in a digit and is
/// written with digits and `-` alone.
pub proof fn lemma_decimal_operand(x: i64)
    ensures
        integer_literal_of(decimal_operand(x)) == Ok::<IntegerLiteral, AssemblyError<Text>>(
            decimal_literal(x),
        ),
        decimal_operand(x).len() > 0,
        '0' <= decimal_operand(x).last() <= '9',
        forall|i: int|
            0 <= i < decimal_operand(x).len() ==> numeral_char(#[trigger] decimal_operand(x)[i]),
{
    let t = decimal_operand(x);
    if x < 0 {
        let m = numeral((-(x as int)) as nat, 10);
        lemma_negative_numeral(x);
        lemma_numeral_value((-(x as int)) as nat, 10);
        assert(t.last() == m.last());
        assert forall|i: int| 0 <= i < t.len() implies numeral_char(#[trigger] t[i]) by {
            if i > 0 {
                assert(t[i] == m[i - 1]);
            }
        }
    } else {
        lemma_unsigned_numerals(x as u64);
        lemma_numeral_value(x as nat, 10);
    }
}

/// The line `PUSH t` for an operand `t` written with digits and `-`.
pub open spec fn push_line(t: Text) -> Text {
    seq!['P', 'U', 'S', 'H', ' '] + t
}

/// The line `HALT`.
pub open spec fn halt_line() -> Text {
    seq!['H', 'A', 'L', 'T']
}

/// `PUSH t` is the push of what `t` reads as.
pub proof fn lemma_push_line(t: Text)
    requires
        t.len() > 0,
        '0' <= t.last() <= '9',
        forall|i: int| 0 <= i < t.len() ==> numeral_char(#[trigger] t[i]),
        integer_literal_of(t) is Ok,
    ensures
        parse_line(push_line(t)) == Ok::<Option<AssemblyItem<Text>>, AssemblyError<Text>>(
            Some(AssemblyItem::Instruction(AssemblyInstruction::Push(integer_literal_of(t)->Ok_0))),
        ),
        forall|i: int| 0 <= i < push_line(t).len() ==> #[trigger] push_line(t)[i] != '\n',
{
    let l = push_line(t);
    let word = seq!['P', 'U', 'S', 'H'];
    assert forall|i: int| 0 <= i < l.len() implies #[trigger] l[i] != ';' && l[i] != '\n'
        && (i >= 5 ==> l[i] == t[i - 5]) by {
        if i >= 5 {
            assert(l[i] == t[i - 5]);
            assert(numeral_char(t[i - 5]));
        }
    }
    lemma_before_comment(l, l.len() as int);
    assert(l.take(l.len() as int) =~= l);
    assert(l.last() == t.last());
    lemma_trim_unchanged(l);
    let ws = |c: char| is_white_space(c);
    assert(l =~= word + seq![' '] + t);
    lemma_pieces_join(word, ' ', t, ws);
    assert forall|i: int| 0 <= i < word.len() implies !ws(#[trigger] word[i]) by {}
    lemma_pieces_single(word, ws);
    assert forall|i: int| 0 <= i < t.len() implies !ws(#[trigger] t[i]) by {
        assert(numeral_char(t[i]));
    }
    lemma_pieces_single(t, ws);
    let ps = seq![word] + seq![t];
    assert(pieces(l, ws) == ps);
    assert(ps.drop_last() =~= seq![word]);
    assert(seq![word].drop_last() =~= Seq::<Seq<char>>::empty());
    assert(seq![word].last() == word && word.len() > 0);
    assert(nonempty(Seq::<Seq<char>>::empty()) == Seq::<Seq<char>>::empty());
    assert(Seq::<Seq<char>>::empty().push(word) =~= seq![word]);
    assert(nonempty(seq![word]) == seq![word]);
    assert(words(l) == nonempty(ps));
    assert(nonempty(ps) =~= seq![word, t]);
    assert(to_upper(word) =~= word);
}

/// `HALT` is the halt instruction.
pub proof fn lemma_halt_line()
    ensures
        parse_line(halt_line()) == Ok::<Option<AssemblyItem<Text>>, AssemblyError<Text>>(
            Some(AssemblyItem::Instruction(AssemblyInstruction::Plain(OpcodeByte::Halt))),
        ),
        forall|i: int| 0 <= i < halt_line().len() ==> #[trigger] halt_line()[i] != '\n',
{
    let l = halt_line();
    lemma_before_comment(l, 4);
    assert(l.take(4) =~= l);
    lemma_trim_unchanged(l);
    let ws = |c: char| is_white_space(c);
    lemma_pieces_single(l, ws);
    assert(seq![l].drop_last() =~= Seq::<Seq<char>>::empty());
    assert(pieces(l, ws) == seq![l]);
    assert(seq![l].last() == l && l.len() > 0);
    assert(nonempty(Seq::<Seq<char>>::empty()) == Seq::<Seq<char>>::empty());
    assert(Seq::<Seq<char>>::empty().push(l) =~= seq![l]);
    assert(words(l) == nonempty(seq![l]));
    assert(words(l) =~= seq![l]);
    assert(to_upper(l) =~= l);
}

/// A text of one line gives the item of that line.
pub proof fn lemma_one_line(l: Text)
    requires
        forall|i: int| 0 <= i < l.len() ==> #[trigger] l[i] != '\n',
    ensures
        source_items(l) == match parse_line(l) {
            Err(e) => Err(e),
            Ok(None) => Ok(Seq::empty()),
            Ok(Some(item)) => Ok(seq![item]),
        },
{
    lemma_pieces_single(l, |c: char| is_newline(c));
    assert(lines(l) == seq![l]);
    assert(seq![l].drop_last() =~= Seq::<Text>::empty());
    assert(seq![l].last() == l);
    assert(parse_lines(Seq::<Text>::empty()) == Ok::<Seq<AssemblyItem<Text>>, AssemblyError<Text>>(
        Seq::empty(),
    ));
    if let Ok(Some(item)) = parse_line(l) {
        assert(Seq::<AssemblyItem<Text>>::empty().push(item) =~= seq![item]);
    }
}

/// A numeral of a value below `2^k` has at most `k + 1` decimal digits.
pub proof fn lemma_numeral_len(n: nat, k: nat)
    requires
        n < vstd::arithmetic::power2::pow2(k),
    ensures
        numeral(n, 10).len() <= k + 1,
    decreases n,
{
    if n >= 10 {
        assert(k > 0) by {
            if k == 0 {
                vstd::arithmetic::power2::lemma2_to64();
            }
        }
        vstd::arithmetic::power2::lemma_pow2_unfold(k);
        let p = vstd::arithmetic::power2::pow2((k - 1) as nat);
        assert(n / 10 < p) by (nonlinear_arith)
            requires
                n < 2 * p,
                n >= 10,
        ;
        lemma_numeral_len(n / 10, (k - 1) as nat);
    }
}

/// `n` is an identifier in the ASCII sense: an ASCII letter of either case
/// or `_`, then ASCII letters, digits and `_`.
pub open spec fn ascii_identifier(n: Text) -> bool {
    &&& n.len() > 0
    &&& ('a' <= n[0] <= 'z') || ('A' <= n[0] <= 'Z') || n[0] == '_'
    &&& forall|i: int|
        1 <= i < n.len() ==> ('a' <= #[trigger] n[i] <= 'z') || ('A' <= n[i] <= 'Z') || ('0'
            <= n[i] <= '9') || n[i] == '_'
}

proof fn lemma_check_label_class(n: Text)
    requires
        n.len() > 0,
    ensures
        ascii_identifier(n) ==> check_label(n) == Ok::<(), AssemblyError<Text>>(()),
        !ascii_identifier(n) ==> check_label(n) == Err::<(), AssemblyError<Text>>(
            AssemblyError::InvalidLabel(n),
        ),
{
    if ascii_identifier(n) {
        assert forall|i: int| 1 <= i < n.len() implies #[trigger] is_label_char(n[i]) by {}
    } else if is_label_start(n[0]) {
        let i = choose|i: int|
            1 <= i < n.len() && !(('a' <= #[trigger] n[i] <= 'z') || ('A' <= n[i] <= 'Z') || ('0'
                <= n[i] <= '9') || n[i] == '_');
        assert(!is_label_char(n[i]));
    }
}

/// A line `n:` whose name is written in printable ASCII other than `;`
/// defines the label `n` exactly when `n` is an ASCII identifier (a letter
/// of either case or `_`, then letters, digits and `_`), and is refused as
/// an invalid label name otherwise.
pub proof fn lemma_label_definition(n: Text)
    requires
        n.len() > 0,
        forall|i: int| 0 <= i < n.len() ==> '!' <= #[trigger] n[i] <= '~' && n[i] != ';',
    ensures
        ascii_identifier(n) ==> source_items(n + seq![':']) == Ok::<
            Seq<AssemblyItem<Text>>,
            AssemblyError<Text>,
        >(seq![AssemblyItem::Label(n)]),
        !ascii_identifier(n) ==> source_items(n + seq![':']) == Err::<
            Seq<AssemblyItem<Text>>,
            AssemblyError<Text>,
        >(AssemblyError::InvalidLabel(n)),
{
    let l = n + seq![':'];
    assert forall|i: int| 0 <= i < l.len() implies #[trigger] l[i] != ';' && l[i] != '\n' by {
        if i < n.len() {
            assert(l[i] == n[i]);
        }
    }
    lemma_before_comment(l, l.len() as int);
    assert(l.take(l.len() as int) =~= l);
    assert(l[0] == n[0]);
    lemma_trim_unchanged(l);
    assert(l.drop_last() =~= n);
    assert(trim(before_comment(l)) == l);
    assert(l.last() == ':');
    lemma_check_label_class(n);
    lemma_one_line(l);
}

} // verus!
