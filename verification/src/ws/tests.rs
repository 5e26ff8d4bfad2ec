//! The counting program of the Whitespace tutorial, written three ways: as
//! `S`/`T`/`L` letters, as packed bits, and as instructions.
use vstd::prelude::*;

use crate::ws::bits::{bits_of, Bits};
use crate::ws::inst::{inst_opcode, Inst, Int, Opcode, Sign, Uint};
use crate::ws::token::Token;
use crate::ws::token::Token::{L, S, T};

verus! {

/// The tutorial program with each token written as its letter, one
/// instruction per line, followed by the instruction in assembly.
pub const TUTORIAL_STL: &'static str = "
S S S T L                    push 1
L S S S T S S S S T T L  label_C:
S L S                        dup
T L S T                      printi
S S S T S T S L              push 10
T L S S                      printc
S S S T L                    push 1
T S S S                      add
S L S                        dup
S S S T S T T L              push 11
T S S T                      sub
L T S S T S S S T S T L      jz label_E
L S L S T S S S S T T L      jmp label_C
L S S S T S S S T S T L  label_E:
S L L                        drop
L L L                        end
";

/// The tokens of the tutorial program.
pub const TUTORIAL_TOKENS: [Token; 102] = [
    S, S, S, T, L, L, S, S, S, T, S, S, S, S, T, T, L, S, L, S, T, L, S, T, S, S, S, T, S, T, S, L,
    T, L, S, S, S, S, S, T, L, T, S, S, S, S, L, S, S, S, S, T, S, T, T, L, T, S, S, T, L, T, S, S,
    T, S, S, S, T, S, T, L, L, S, L, S, T, S, S, S, S, T, T, L, L, S, S, S, T, S, S, S, T, S, T, L,
    S, L, L, L, L, L,
];

/// The tutorial program packed into bits: `0` for S, `10` for T, `11` for L,
/// then a one bit that ends the program and zero bits that fill the last
/// byte.
pub const TUTORIAL_BITS: [u8; 19] = [
    0b00010111, 0b10001000, 0b00101011, 0b01101011, 0b01000010, 0b01001110, 0b11000001, 0b01110000,
    0b01100001, 0b00101011, 0b10001011, 0b10001000, 0b01001011, 0b11011010, 0b00001010, 0b11110001,
    0b00001001, 0b01101111, 0b11111100,
];

/// The opcodes of the tutorial program, in order.
pub open spec fn tutorial_opcodes() -> Seq<Opcode> {
    seq![
        Opcode::Push,
        Opcode::Label,
        Opcode::Dup,
        Opcode::Printi,
        Opcode::Push,
        Opcode::Printc,
        Opcode::Push,
        Opcode::Add,
        Opcode::Dup,
        Opcode::Push,
        Opcode::Sub,
        Opcode::Jz,
        Opcode::Jmp,
        Opcode::Label,
        Opcode::Drop,
        Opcode::End,
    ]
}

/// The bits of the label `label_C`.
pub open spec fn label_c_bits() -> Seq<bool> {
    seq![false, true, false, false, false, false, true, true]
}

/// The bits of the label `label_E`.
pub open spec fn label_e_bits() -> Seq<bool> {
    seq![false, true, false, false, false, true, false, true]
}

/// `inst` pushes the positive number with the magnitude bits `bits`.
pub open spec fn is_push(inst: Inst, bits: Seq<bool>) -> bool {
    inst matches Inst::Push(a) && a.sign == Sign::Pos && bits_of(a.bits) == bits
}

/// `inst` takes the label with the bits `bits`.
pub open spec fn has_label(inst: Inst, bits: Seq<bool>) -> bool {
    match inst {
        Inst::Label(a) => bits_of(a.bits) == bits,
        Inst::Jz(a) => bits_of(a.bits) == bits,
        Inst::Jmp(a) => bits_of(a.bits) == bits,
        _ => false,
    }
}

fn label_c() -> (u: Uint)
    ensures
        bits_of(u.bits) == label_c_bits(),
{
    let bits = Bits::from_bools(&[false, true, false, false, false, false, true, true]);
    Uint { bits }
}

fn label_e() -> (u: Uint)
    ensures
        bits_of(u.bits) == label_e_bits(),
{
    let bits = Bits::from_bools(&[false, true, false, false, false, true, false, true]);
    Uint { bits }
}

fn push_pos(bools: &[bool]) -> (inst: Inst)
    requires
        bools@.len() <= 8,
    ensures
        is_push(inst, bools@),
{
    Inst::Push(Int { sign: Sign::Pos, bits: Bits::from_bools(bools) })
}

/// The instructions of the tutorial program: it prints the numbers 1 to 10,
/// one per line.
pub fn tutorial_insts() -> (insts: Vec<Inst>)
    ensures
        insts@.len() == 16,
        forall|i: int| 0 <= i < 16 ==> inst_opcode(#[trigger] insts@[i]) == tutorial_opcodes()[i],
        is_push(insts@[0], seq![true]),
        has_label(insts@[1], label_c_bits()),
        is_push(insts@[4], seq![true, false, true, false]),
        is_push(insts@[6], seq![true]),
        is_push(insts@[9], seq![true, false, true, true]),
        has_label(insts@[11], label_e_bits()),
        has_label(insts@[12], label_c_bits()),
        has_label(insts@[13], label_e_bits()),
{
    let one = [true];
    let ten = [true, false, true, false];
    let eleven = [true, false, true, true];
    assert(one@ =~= seq![true]);
    assert(ten@ =~= seq![true, false, true, false]);
    assert(eleven@ =~= seq![true, false, true, true]);
    let mut v: Vec<Inst> = Vec::new();
    v.push(push_pos(&one));
    v.push(Inst::Label(label_c()));
    v.push(Inst::Dup);
    v.push(Inst::Printi);
    v.push(push_pos(&ten));
    v.push(Inst::Printc);
    v.push(push_pos(&one));
    v.push(Inst::Add);
    v.push(Inst::Dup);
    v.push(push_pos(&eleven));
    v.push(Inst::Sub);
    v.push(Inst::Jz(label_e()));
    v.push(Inst::Jmp(label_c()));
    v.push(Inst::Label(label_e()));
    v.push(Inst::Drop);
    v.push(Inst::End);
    assert forall|i: int| 0 <= i < 16 implies inst_opcode(#[trigger] v@[i])
        == tutorial_opcodes()[i] by {
        assert(tutorial_opcodes()[i] == tutorial_opcodes()[i]);
    }
    v
}

} // verus!
