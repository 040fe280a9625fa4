//! The assembler: turns assembly source text into program bytes for the
//! virtual machine.
//!
//! Assembly goes in four stages: the source is parsed line by line into
//! labels and instructions ([`parse`]); relative jumps and calls are widened
//! until every offset fits its encoding ([`layout`]); label addresses are
//! computed; and the instructions are encoded ([`emit`]).
use vstd::prelude::*;
use crate::opcodes::OpcodeByte;
use crate::text::{decimal, decimal_chars, string_of};
use self::emit::{emit_items, emit_program};
use self::layout::{
    calculate_label_addresses, label_table, lemma_items_size_bound, relax,
    relax_relative_instructions,
};
use self::parse::{lemma_source_items_count, parse_source, source_items};

pub mod parse;
pub mod layout;
pub mod emit;

verus! {

/// An integer operand of `PUSH`.
#[derive(Clone, Copy, PartialEq, Eq, Debug, Structural)]
pub enum IntegerLiteral {
    Unsigned(u64),
    Signed(i64),
}

/// The operand width of a relative jump or call.
#[derive(Clone, Copy, PartialEq, Eq, Debug, Structural)]
pub enum RelativeWidth {
    Signed4,
    Signed8,
    Signed16,
    Signed32,
    Signed64,
}

/// The kind of a relative control transfer.
#[derive(Clone, Copy, PartialEq, Eq, Debug, Structural)]
pub enum RelativeInstructionKind {
    Jump,
    JumpIfZero,
    Call,
}

/// An assembly instruction; `N` is the type of label names.
pub enum AssemblyInstruction<N> {
    /// An instruction encoded by its opcode byte alone.
    Plain(OpcodeByte),
    /// `PUSH` of an integer.
    Push(IntegerLiteral),
    /// `PADDR`: push the address of a label.
    PushAddress(N),
    /// `JMP`, `JZ` or `CALL` to a label, with the operand width it is encoded in.
    Relative { kind: RelativeInstructionKind, label_name: N, width: RelativeWidth },
}

/// A line of assembly: an instruction or a label definition.
pub enum AssemblyItem<N> {
    Instruction(AssemblyInstruction<N>),
    Label(N),
}

/// Why source text cannot be assembled; `N` is the type of names and texts.
pub enum AssemblyError<N> {
    /// A line holds no instruction.
    ExpectedInstruction,
    /// The mnemonic (upper-cased) takes another number of operands.
    OperandCount(N, usize),
    /// The first word of a line is no mnemonic.
    UnknownInstruction(N),
    /// A label definition `:` has an empty name.
    EmptyLabel,
    /// A label name is not an identifier.
    InvalidLabel(N),
    /// An integer operand cannot be read.
    InvalidInteger(N),
    /// A negative integer operand is below `i64::MIN`.
    SignedTooSmall(N),
    /// A label is used but not defined.
    UnknownLabel(N),
    /// A relative offset does not fit even 64 bits.
    TooFar(N),
    /// A label is defined twice.
    DuplicateLabel(N),
}

/// Label names held as character vectors.
pub type Chars = Vec<char>;

/// The mathematical name type.
pub type Text = Seq<char>;

impl View for AssemblyInstruction<Chars> {
    type V = AssemblyInstruction<Text>;

    open spec fn view(&self) -> AssemblyInstruction<Text> {
        match self {
            AssemblyInstruction::Plain(op) => AssemblyInstruction::Plain(*op),
            AssemblyInstruction::Push(l) => AssemblyInstruction::Push(*l),
            AssemblyInstruction::PushAddress(n) => AssemblyInstruction::PushAddress(n@),
            AssemblyInstruction::Relative { kind, label_name, width } => AssemblyInstruction::Relative {
                kind: *kind,
                label_name: label_name@,
                width: *width,
            },
        }
    }
}

impl View for AssemblyItem<Chars> {
    type V = AssemblyItem<Text>;

    open spec fn view(&self) -> AssemblyItem<Text> {
        match self {
            AssemblyItem::Instruction(i) => AssemblyItem::Instruction(i@),
            AssemblyItem::Label(n) => AssemblyItem::Label(n@),
        }
    }
}

impl View for AssemblyError<Chars> {
    type V = AssemblyError<Text>;

    open spec fn view(&self) -> AssemblyError<Text> {
        match self {
            AssemblyError::ExpectedInstruction => AssemblyError::ExpectedInstruction,
            AssemblyError::OperandCount(m, n) => AssemblyError::OperandCount(m@, *n),
            AssemblyError::UnknownInstruction(w) => AssemblyError::UnknownInstruction(w@),
            AssemblyError::EmptyLabel => AssemblyError::EmptyLabel,
            AssemblyError::InvalidLabel(n) => AssemblyError::InvalidLabel(n@),
            AssemblyError::InvalidInteger(t) => AssemblyError::InvalidInteger(t@),
            AssemblyError::SignedTooSmall(t) => AssemblyError::SignedTooSmall(t@),
            AssemblyError::UnknownLabel(n) => AssemblyError::UnknownLabel(n@),
            AssemblyError::TooFar(n) => AssemblyError::TooFar(n@),
            AssemblyError::DuplicateLabel(n) => AssemblyError::DuplicateLabel(n@),
        }
    }
}

/// The views of a sequence of items.
pub open spec fn item_views(items: Seq<AssemblyItem<Chars>>) -> Seq<AssemblyItem<Text>> {
    items.map_values(|it: AssemblyItem<Chars>| it@)
}

/// The message text of an error.
pub open spec fn message(e: AssemblyError<Text>) -> Seq<char> {
    match e {
        AssemblyError::ExpectedInstruction => "expected instruction"@,
        AssemblyError::OperandCount(m, n) => if n == 0 {
            m + " does not take any operands"@
        } else if n == 1 {
            m + " expects exactly one operand"@
        } else {
            m + " expects exactly "@ + decimal(n as nat) + " operands"@
        },
        AssemblyError::UnknownInstruction(w) => "unknown instruction: "@ + w,
        AssemblyError::EmptyLabel => "label name cannot be empty"@,
        AssemblyError::InvalidLabel(n) => "invalid label name: "@ + n,
        AssemblyError::InvalidInteger(t) => "invalid integer literal: "@ + t,
        AssemblyError::SignedTooSmall(t) => "signed integer literal is too small: "@ + t,
        AssemblyError::UnknownLabel(n) => "unknown label: "@ + n,
        AssemblyError::TooFar(n) => "jump target is too far away: "@ + n,
        AssemblyError::DuplicateLabel(n) => "duplicate label: "@ + n,
    }
}

/// `prefix` followed by the characters of `rest`.
fn joined(prefix: &str, rest: &[char]) -> (s: String)
    ensures
        s@ == prefix@ + rest@,
{
    let mut s = String::from_str(prefix);
    let tail = string_of(rest);
    s.append(tail.as_str());
    s
}

impl AssemblyError<Chars> {
    /// The message text of this error.
    pub fn message(&self) -> (s: String)
        ensures
            s@ == message(self@),
    {
        match self {
            AssemblyError::ExpectedInstruction => String::from_str("expected instruction"),
            AssemblyError::OperandCount(m, n) => {
                if *n == 0 {
                    let mut s = string_of(m.as_slice());
                    s.append(" does not take any operands");
                    s
                } else if *n == 1 {
                    let mut s = string_of(m.as_slice());
                    s.append(" expects exactly one operand");
                    s
                } else {
                    let mut s = string_of(m.as_slice());
                    s.append(" expects exactly ");
                    let digits = decimal_chars(*n);
                    let count = string_of(digits.as_slice());
                    s.append(count.as_str());
                    s.append(" operands");
                    s
                }
            },
            AssemblyError::UnknownInstruction(w) => joined("unknown instruction: ", w.as_slice()),
            AssemblyError::EmptyLabel => String::from_str("label name cannot be empty"),
            AssemblyError::InvalidLabel(n) => joined("invalid label name: ", n.as_slice()),
            AssemblyError::InvalidInteger(t) => joined("invalid integer literal: ", t.as_slice()),
            AssemblyError::SignedTooSmall(t) => joined(
                "signed integer literal is too small: ",
                t.as_slice(),
            ),
            AssemblyError::UnknownLabel(n) => joined("unknown label: ", n.as_slice()),
            AssemblyError::TooFar(n) => joined("jump target is too far away: ", n.as_slice()),
            AssemblyError::DuplicateLabel(n) => joined("duplicate label: ", n.as_slice()),
        }
    }
}


/// What assembling a source text gives: its items are parsed, relaxed, given
/// addresses and encoded.
pub open spec fn assembly(source: Text) -> Result<Seq<u8>, AssemblyError<Text>> {
    match source_items(source) {
        Err(e) => Err(e),
        Ok(items) => match relax(items) {
            Err(e) => Err(e),
            Ok(relaxed) => match label_table(relaxed) {
                Err(e) => Err(e),
                Ok(table) => emit_items(relaxed, table),
            },
        },
    }
}

/// Assembles a source text into program bytes, or gives the message of the
/// first error.
pub fn assemble(source: &str) -> (r: Result<Vec<u8>, String>)
    requires
        3 * source@.len() + 12 <= usize::MAX,
    ensures
        match assembly(source@) {
            Ok(bytes) => r is Ok && r->Ok_0@ == bytes,
            Err(e) => r is Err && r->Err_0@ == message(e),
        },
{
    let mut items = match parse_source(source) {
        Ok(items) => items,
        Err(e) => {
            return Err(e.message());
        },
    };
    proof {
        lemma_source_items_count(source@);
        assert(items@.len() == item_views(items@).len());
    }
    let ghost parsed = item_views(items@);
    match relax_relative_instructions(&mut items) {
        Ok(_) => {
            proof {
                self::layout::lemma_relax_fits(parsed);
                assert(items@.len() == item_views(items@).len());
            }
        },
        Err(e) => {
            return Err(e.message());
        },
    }
    proof {
        lemma_items_size_bound(item_views(items@));
    }
    let labels = match calculate_label_addresses(&items) {
        Ok(labels) => labels,
        Err(e) => {
            return Err(e.message());
        },
    };
    match emit_program(&items, &labels) {
        Ok(program) => Ok(program),
        Err(e) => Err(e.message()),
    }
}

} // verus!
