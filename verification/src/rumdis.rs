//! Instruction decoder.
//!
//! An instruction is a 32-bit word. Bits [31:28] hold the opcode. The thirteen
//! three-register operations keep register A in bits [8:6], register B in bits
//! [5:3] and register C in bits [2:0]. The immediate-load operation instead
//! keeps its destination register in bits [27:25] and an unsigned 25-bit value
//! in bits [24:0]. An opcode outside the fourteen defined operations decodes
//! to a distinguished unrecognized variant carrying the raw word.
//!
//! Decoding is a direct application of the bit-field codec in [`crate::bitpack`].

use vstd::prelude::*;

verus! {

use vstd::arithmetic::power2::{pow2, lemma_pow2_strictly_increases, lemma2_to64};
use crate::bitpack::{getu, unsigned_field, lemma_unsigned_field_bound};

/// A bit field of an instruction word: `width` bits starting at
/// least-significant bit `lsb`.
pub struct Field {
    pub width: u32,
    pub lsb: u32,
}

impl Field {
    /// The field lies within a 32-bit instruction word.
    pub open spec fn valid(self) -> bool {
        1 <= self.width && self.width + self.lsb <= 32
    }
}

/// The unsigned value of the `width`-bit field of `instruction` starting at
/// bit `lsb`.
pub open spec fn instr_field(instruction: u32, width: u32, lsb: u32) -> u32
    recommends
        1 <= width,
        width + lsb <= 32,
{
    unsigned_field(instruction as u64, width as u64, lsb as u64) as u32
}

/// Any field of an instruction word is below `2^width`.
pub proof fn lemma_instr_field_bound(instruction: u32, width: u32, lsb: u32)
    requires
        1 <= width,
        width + lsb <= 32,
    ensures
        (instr_field(instruction, width, lsb) as nat) < pow2(width as nat),
        instr_field(instruction, width, lsb) == unsigned_field(
            instruction as u64,
            width as u64,
            lsb as u64,
        ),
{
    lemma_unsigned_field_bound(instruction as u64, width as u64, lsb as u64);
    if width < 32 {
        lemma_pow2_strictly_increases(width as nat, 32);
    }
    lemma2_to64();
}

/// Retrieves the value of the given bit field of `instruction`.
pub fn get(field: &Field, instruction: u32) -> (r: u32)
    requires
        field.valid(),
    ensures
        r == instr_field(instruction, field.width, field.lsb),
{
    proof {
        lemma_instr_field_bound(instruction, field.width, field.lsb);
    }
    getu(instruction as u64, field.width as u64, field.lsb as u64) as u32
}

/// Retrieves the opcode of `instruction`: its 4-bit field at bit 28.
pub fn op(instruction: u32) -> (r: u32)
    ensures
        r == instr_field(instruction, 4, 28),
{
    get(&(Field { width: 4, lsb: 28 }), instruction)
}

/// A decoded instruction: one of the fourteen operations with its operand
/// fields, or an unrecognized word kept as it stands.
#[derive(Debug, Clone, Copy, PartialEq, Eq, Structural)]
pub enum Instruction {
    Cmov { a: u32, b: u32, c: u32 },
    Load { a: u32, b: u32, c: u32 },
    Store { a: u32, b: u32, c: u32 },
    Add { a: u32, b: u32, c: u32 },
    Mul { a: u32, b: u32, c: u32 },
    Div { a: u32, b: u32, c: u32 },
    Nand { a: u32, b: u32, c: u32 },
    Halt,
    MapSegment { b: u32, c: u32 },
    UnmapSegment { c: u32 },
    Output { c: u32 },
    Input { c: u32 },
    LoadProgram { b: u32, c: u32 },
    LoadValue { reg: u32, value: u32 },
    Unrecognized { raw: u32 },
}

/// Every register operand of a decoded instruction addresses one of the eight
/// registers, and an immediate value fits in 25 bits.
pub open spec fn instruction_wf(instr: Instruction) -> bool {
    match instr {
        Instruction::Cmov { a, b, c } => a < 8 && b < 8 && c < 8,
        Instruction::Load { a, b, c } => a < 8 && b < 8 && c < 8,
        Instruction::Store { a, b, c } => a < 8 && b < 8 && c < 8,
        Instruction::Add { a, b, c } => a < 8 && b < 8 && c < 8,
        Instruction::Mul { a, b, c } => a < 8 && b < 8 && c < 8,
        Instruction::Div { a, b, c } => a < 8 && b < 8 && c < 8,
        Instruction::Nand { a, b, c } => a < 8 && b < 8 && c < 8,
        Instruction::Halt => true,
        Instruction::MapSegment { b, c } => b < 8 && c < 8,
        Instruction::UnmapSegment { c } => c < 8,
        Instruction::Output { c } => c < 8,
        Instruction::Input { c } => c < 8,
        Instruction::LoadProgram { b, c } => b < 8 && c < 8,
        Instruction::LoadValue { reg, value } => reg < 8 && value < 0x2000000,
        Instruction::Unrecognized { raw: _ } => true,
    }
}

/// The meaning of an instruction word: opcode 0 through 13 select the fourteen
/// operations, in order; any other opcode is unrecognized.
pub open spec fn spec_decode(instruction: u32) -> Instruction {
    let o = instr_field(instruction, 4, 28);
    let a = instr_field(instruction, 3, 6);
    let b = instr_field(instruction, 3, 3);
    let c = instr_field(instruction, 3, 0);
    if o == 0 {
        Instruction::Cmov { a, b, c }
    } else if o == 1 {
        Instruction::Load { a, b, c }
    } else if o == 2 {
        Instruction::Store { a, b, c }
    } else if o == 3 {
        Instruction::Add { a, b, c }
    } else if o == 4 {
        Instruction::Mul { a, b, c }
    } else if o == 5 {
        Instruction::Div { a, b, c }
    } else if o == 6 {
        Instruction::Nand { a, b, c }
    } else if o == 7 {
        Instruction::Halt
    } else if o == 8 {
        Instruction::MapSegment { b, c }
    } else if o == 9 {
        Instruction::UnmapSegment { c }
    } else if o == 10 {
        Instruction::Output { c }
    } else if o == 11 {
        Instruction::Input { c }
    } else if o == 12 {
        Instruction::LoadProgram { b, c }
    } else if o == 13 {
        Instruction::LoadValue {
            reg: instr_field(instruction, 3, 25),
            value: instr_field(instruction, 25, 0),
        }
    } else {
        Instruction::Unrecognized { raw: instruction }
    }
}

/// A decoded instruction is well formed.
pub proof fn lemma_spec_decode_wf(instruction: u32)
    ensures
        instruction_wf(spec_decode(instruction)),
{
    lemma_instr_field_bound(instruction, 3, 6);
    lemma_instr_field_bound(instruction, 3, 3);
    lemma_instr_field_bound(instruction, 3, 0);
    lemma_instr_field_bound(instruction, 3, 25);
    lemma_instr_field_bound(instruction, 25, 0);
    lemma2_to64();
}

/// Decodes an instruction word into its operation and operand fields.
pub fn decode(instruction: u32) -> (r: Instruction)
    ensures
        r == spec_decode(instruction),
        instruction_wf(r),
{
    proof {
        lemma_spec_decode_wf(instruction);
    }
    let o = op(instruction);
    let a = get(&(Field { width: 3, lsb: 6 }), instruction);
    let b = get(&(Field { width: 3, lsb: 3 }), instruction);
    let c = get(&(Field { width: 3, lsb: 0 }), instruction);
    match o {
        0 => Instruction::Cmov { a, b, c },
        1 => Instruction::Load { a, b, c },
        2 => Instruction::Store { a, b, c },
        3 => Instruction::Add { a, b, c },
        4 => Instruction::Mul { a, b, c },
        5 => Instruction::Div { a, b, c },
        6 => Instruction::Nand { a, b, c },
        7 => Instruction::Halt,
        8 => Instruction::MapSegment { b, c },
        9 => Instruction::UnmapSegment { c },
        10 => Instruction::Output { c },
        11 => Instruction::Input { c },
        12 => Instruction::LoadProgram { b, c },
        13 => Instruction::LoadValue {
            reg: get(&(Field { width: 3, lsb: 25 }), instruction),
            value: get(&(Field { width: 25, lsb: 0 }), instruction),
        },
        _ => Instruction::Unrecognized { raw: instruction },
    }
}

} // verus!
