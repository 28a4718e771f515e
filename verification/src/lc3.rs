use vstd::prelude::*;
use lc3_ensemble::ast::sim::SimInstr;
use lc3_ensemble::ast::ImmOrReg;

verus! {

/// The second operand of `ADD` and `AND`: a register or a 5-bit immediate.
#[derive(Debug, Clone, Copy, PartialEq, Eq)]
pub enum Operand {
    Reg(u8),
    Imm(i16),
}

/// An LC-3 assembly instruction as the decompiler reads it: register numbers,
/// signed offsets and immediates, condition codes and trap vectors as plain
/// integers.
#[derive(Debug, Clone, Copy, PartialEq, Eq)]
pub enum Instr {
    Add(u8, u8, Operand),
    And(u8, u8, Operand),
    Br(u8, i16),
    Jmp(u8),
    Jsr(i16),
    Jsrr(u8),
    Ld(u8, i16),
    Ldi(u8, i16),
    Ldr(u8, u8, i16),
    Lea(u8, i16),
    Not(u8, u8),
    Ret,
    Rti,
    St(u8, i16),
    Sti(u8, i16),
    Str(u8, u8, i16),
    Trap(u8),
    Getc,
    Putc,
    Puts,
    In,
    Putsp,
    Halt,
}

/// What a word of memory holds: an instruction or a data directive.
#[derive(Debug, Clone, Copy, PartialEq, Eq)]
pub enum Nucleus {
    Instr(Instr),
    Directive,
}

/// One disassembled memory word together with whether a symbol labels it.
#[derive(Debug, Clone, Copy, PartialEq, Eq)]
pub struct Line {
    pub labeled: bool,
    pub nucleus: Nucleus,
}

/// Every register number in the instruction is below 8.
pub open spec fn instr_regs_ok(i: Instr) -> bool {
    match i {
        Instr::Add(d, s, o) | Instr::And(d, s, o) => d < 8 && s < 8 && (o matches Operand::Reg(
            r,
        ) ==> r < 8),
        Instr::Jmp(r) | Instr::Jsrr(r) => r < 8,
        Instr::Ld(r, _) | Instr::Ldi(r, _) | Instr::Lea(r, _) | Instr::St(r, _) | Instr::Sti(
            r,
            _,
        ) => r < 8,
        Instr::Ldr(a, b, _) | Instr::Str(a, b, _) | Instr::Not(a, b) => a < 8 && b < 8,
        _ => true,
    }
}

/// Every register number in the disassembled word is below 8.
pub open spec fn nucleus_regs_ok(n: Nucleus) -> bool {
    match n {
        Nucleus::Instr(i) => instr_regs_ok(i),
        Nucleus::Directive => true,
    }
}

/// What `lc3_ensemble::ast::sim::SimInstr::decode` makes of a 16-bit word
/// (`None` where it reports an error), read as an instruction of this library:
/// a `JSR` with a register operand reads as `Jsrr`.
pub uninterp spec fn lc3_decode(word: u16) -> Option<Instr>;

#[verifier::external_type_specification]
#[verifier::external_body]
pub struct ExSimInstr(SimInstr);

#[verifier::external_type_specification]
#[verifier::external_body]
pub struct ExImmOrReg<const N: u32>(ImmOrReg<N>);

/// Whether `SimInstr::decode` rejects a word: the opcode `0b1101` is
/// illegal, and some opcodes require bits that they do not use to be zero
/// (or, for `NOT`, one).
pub open spec fn decode_rejects(w: u16) -> bool {
    let op = w >> 12u16;
    ||| op == 0xD
    ||| (op == 0x1 || op == 0x5) && w & 0x20 == 0 && w & 0x18 != 0
    ||| op == 0x4 && w & 0x800 == 0 && (w & 0x600 != 0 || w & 0x3F != 0)
    ||| op == 0x8 && w & 0xFFF != 0
    ||| op == 0x9 && w & 0x3F != 0x3F
    ||| op == 0xC && (w & 0x600 != 0 || w & 0x3F != 0)
    ||| op == 0xF && w & 0xF00 != 0
}

/// The LC-3 opcode of an instruction (the aliases of `JMP` and `TRAP` with
/// theirs).
pub open spec fn opcode_of(i: Instr) -> u16 {
    match i {
        Instr::Br(_, _) => 0x0,
        Instr::Add(_, _, _) => 0x1,
        Instr::Ld(_, _) => 0x2,
        Instr::St(_, _) => 0x3,
        Instr::Jsr(_) => 0x4,
        Instr::Jsrr(_) => 0x4,
        Instr::And(_, _, _) => 0x5,
        Instr::Ldr(_, _, _) => 0x6,
        Instr::Str(_, _, _) => 0x7,
        Instr::Rti => 0x8,
        Instr::Not(_, _) => 0x9,
        Instr::Ldi(_, _) => 0xA,
        Instr::Sti(_, _) => 0xB,
        Instr::Jmp(_) => 0xC,
        Instr::Ret => 0xC,
        Instr::Lea(_, _) => 0xE,
        _ => 0xF,
    }
}

/// Decodes one word with `lc3_ensemble::ast::sim::SimInstr::decode`.
/// Trusted: the result is the crate's instruction converted variant for
/// variant (so it is `lc3_decode(word)`); the decoder fails exactly on the
/// words of `decode_rejects`, and otherwise gives the instruction of the
/// word's opcode (a `JSR` by offset where bit 11 is set, by register where
/// it is not); as the crate's `Reg` enum has only `R0` to `R7`, every
/// register number in it is below 8. The operand fields are left to the
/// name `lc3_decode`.
#[verifier::external_body]
pub(crate) fn sim_decode(word: u16) -> (r: Option<Instr>)
    ensures
        r == lc3_decode(word),
        r is None <==> decode_rejects(word),
        r matches Some(i) ==> opcode_of(i) == word >> 12u16 && !(i is Ret) && (i is Jsr <==> (word >> 12u16 == 0x4 && word & 0x800 != 0)),
        r matches Some(i) ==> instr_regs_ok(i),
{
    match SimInstr::decode(word) {
        Ok(si) => Some(instr_first(si)),
        Err(_) => None,
    }
}

/// Converts the crate's `ImmOrReg` operand (part of `sim_decode`).
#[verifier::external_body]
fn operand_of(o: ImmOrReg<5>) -> Operand {
    match o {
        ImmOrReg::Imm(i) => Operand::Imm(i.get()),
        ImmOrReg::Reg(r) => Operand::Reg(r.reg_no()),
    }
}

/// Converts the first group of the crate's instructions (part of `sim_decode`).
#[verifier::external_body]
fn instr_first(i: SimInstr) -> Instr {
    match i {
        SimInstr::BR(cc, o) => Instr::Br(cc, o.get()),
        SimInstr::ADD(d, s, o) => Instr::Add(d.reg_no(), s.reg_no(), operand_of(o)),
        SimInstr::LD(d, o) => Instr::Ld(d.reg_no(), o.get()),
        SimInstr::ST(s, o) => Instr::St(s.reg_no(), o.get()),
        SimInstr::AND(d, s, o) => Instr::And(d.reg_no(), s.reg_no(), operand_of(o)),
        other => instr_second(other),
    }
}

/// Converts the second group of the crate's instructions (part of
/// `sim_decode`).
#[verifier::external_body]
fn instr_second(i: SimInstr) -> Instr {
    match i {
        SimInstr::JSR(ImmOrReg::Imm(o)) => Instr::Jsr(o.get()),
        SimInstr::JSR(ImmOrReg::Reg(r)) => Instr::Jsrr(r.reg_no()),
        SimInstr::LDR(d, b, o) => Instr::Ldr(d.reg_no(), b.reg_no(), o.get()),
        SimInstr::STR(s, b, o) => Instr::Str(s.reg_no(), b.reg_no(), o.get()),
        SimInstr::NOT(d, s) => Instr::Not(d.reg_no(), s.reg_no()),
        other => instr_third(other),
    }
}

/// Converts the remaining instructions (part of `sim_decode`); the groups
/// before it have taken every other variant, so what is not listed here is
/// `RTI`.
#[verifier::external_body]
fn instr_third(i: SimInstr) -> Instr {
    match i {
        SimInstr::LDI(d, o) => Instr::Ldi(d.reg_no(), o.get()),
        SimInstr::STI(s, o) => Instr::Sti(s.reg_no(), o.get()),
        SimInstr::JMP(r) => Instr::Jmp(r.reg_no()),
        SimInstr::LEA(d, o) => Instr::Lea(d.reg_no(), o.get()),
        SimInstr::TRAP(v) => Instr::Trap(v.get() as u8),
        _ => Instr::Rti,
    }
}

/// The disassembly of one word: words below `0x0200` and words that do not
/// decode are data (`.FILL`); `JMP R7` reads as `RET`, and the trap vectors
/// `x20` to `x25` read as their aliases `GETC`, `PUTC`, `PUTS`, `IN`, `PUTSP`
/// and `HALT`.
pub open spec fn disassembled(word: u16) -> Nucleus {
    if word < 0x0200 {
        Nucleus::Directive
    } else {
        match lc3_decode(word) {
            None => Nucleus::Directive,
            Some(i) => Nucleus::Instr(alias_of(i)),
        }
    }
}

/// The alias under which the disassembler prints a decoded instruction.
pub open spec fn alias_of(i: Instr) -> Instr {
    match i {
        Instr::Jmp(7) => Instr::Ret,
        Instr::Trap(0x20) => Instr::Getc,
        Instr::Trap(0x21) => Instr::Putc,
        Instr::Trap(0x22) => Instr::Puts,
        Instr::Trap(0x23) => Instr::In,
        Instr::Trap(0x24) => Instr::Putsp,
        Instr::Trap(0x25) => Instr::Halt,
        _ => i,
    }
}

/// Disassembles one word of memory.
pub fn disassemble_word(word: u16) -> (n: Nucleus)
    ensures
        n == disassembled(word),
        nucleus_regs_ok(n),
{
    if word < 0x0200 {
        return Nucleus::Directive;
    }
    match sim_decode(word) {
        None => Nucleus::Directive,
        Some(i) => {
            let a = match i {
                Instr::Jmp(7) => Instr::Ret,
                Instr::Trap(0x20) => Instr::Getc,
                Instr::Trap(0x21) => Instr::Putc,
                Instr::Trap(0x22) => Instr::Puts,
                Instr::Trap(0x23) => Instr::In,
                Instr::Trap(0x24) => Instr::Putsp,
                Instr::Trap(0x25) => Instr::Halt,
                _ => i,
            };
            Nucleus::Instr(a)
        },
    }
}

} // verus!
