//! The stack-machine instruction set and the little-endian encoding of
//! operands, as specification functions shared by the emitter and the
//! module reader and writer.
use vstd::prelude::*;

verus! {

/// One-byte opcodes of the instruction set. Operands, where present, follow
/// the opcode inline: jumps carry a 4-byte signed offset, constant and
/// variable instructions a 4-byte index or value, and a call a 4-byte callee
/// address plus a 1-byte argument count.
#[derive(Debug, Clone, Copy, PartialEq, Eq, Structural)]
pub enum OpCode {
    Halt,
    Jump,
    JumpIfFalse,
    Push,
    StoreGlobal,
    LoadGlobal,
    StoreLocal,
    LoadLocal,
    LoadConst,
    Add,
    Sub,
    Mul,
    Div,
    Less,
    Call,
    Return,
    Pop,
    Print,
    NewArray,
    LoadArray,
    StoreArray,
}

/// The byte value of each opcode, stable within one module version.
pub open spec fn opcode_byte(op: OpCode) -> u8 {
    match op {
        OpCode::Halt => 0x00,
        OpCode::Jump => 0x01,
        OpCode::JumpIfFalse => 0x02,
        OpCode::Push => 0x10,
        OpCode::StoreGlobal => 0x11,
        OpCode::LoadGlobal => 0x12,
        OpCode::StoreLocal => 0x13,
        OpCode::LoadLocal => 0x14,
        OpCode::LoadConst => 0x15,
        OpCode::Add => 0x20,
        OpCode::Sub => 0x21,
        OpCode::Mul => 0x22,
        OpCode::Div => 0x23,
        OpCode::Less => 0x24,
        OpCode::Call => 0x30,
        OpCode::Return => 0x31,
        OpCode::Pop => 0x80,
        OpCode::Print => 0x81,
        OpCode::NewArray => 0x40,
        OpCode::LoadArray => 0x41,
        OpCode::StoreArray => 0x42,
    }
}

impl From<OpCode> for u8 {
    fn from(op: OpCode) -> (b: u8) {
        match op {
            OpCode::Halt => 0x00,
            OpCode::Jump => 0x01,
            OpCode::JumpIfFalse => 0x02,
            OpCode::Push => 0x10,
            OpCode::StoreGlobal => 0x11,
            OpCode::LoadGlobal => 0x12,
            OpCode::StoreLocal => 0x13,
            OpCode::LoadLocal => 0x14,
            OpCode::LoadConst => 0x15,
            OpCode::Add => 0x20,
            OpCode::Sub => 0x21,
            OpCode::Mul => 0x22,
            OpCode::Div => 0x23,
            OpCode::Less => 0x24,
            OpCode::Call => 0x30,
            OpCode::Return => 0x31,
            OpCode::Pop => 0x80,
            OpCode::Print => 0x81,
            OpCode::NewArray => 0x40,
            OpCode::LoadArray => 0x41,
            OpCode::StoreArray => 0x42,
        }
    }
}

impl vstd::std_specs::convert::FromSpecImpl<OpCode> for u8 {
    open spec fn obeys_from_spec() -> bool {
        true
    }

    open spec fn from_spec(op: OpCode) -> u8 {
        opcode_byte(op)
    }
}

/// The little-endian bytes of a 32-bit value, least significant first.
pub open spec fn le4(v: u32) -> Seq<u8> {
    seq![
        (v & 0xff) as u8,
        ((v >> 8) & 0xff) as u8,
        ((v >> 16) & 0xff) as u8,
        ((v >> 24) & 0xff) as u8,
    ]
}

/// The little-endian bytes of a 16-bit value.
pub open spec fn le2(v: u16) -> Seq<u8> {
    seq![(v & 0xff) as u8, ((v >> 8) & 0xff) as u8]
}

/// The 32-bit value read back from four little-endian bytes.
pub open spec fn u32_of_le(b0: u8, b1: u8, b2: u8, b3: u8) -> u32 {
    (b0 as u32) | ((b1 as u32) << 8) | ((b2 as u32) << 16) | ((b3 as u32) << 24)
}

/// The 16-bit value read back from two little-endian bytes.
pub open spec fn u16_of_le(b0: u8, b1: u8) -> u16 {
    (b0 as u16) | ((b1 as u16) << 8)
}

/// A 32-bit quantity, such as a jump distance, reduced from an unbounded
/// integer by the machine's two's-complement wraparound.
pub open spec fn wrap32(n: int) -> u32 {
    (n % 0x1_0000_0000) as u32
}

/// Reading four little-endian bytes undoes writing them.
pub proof fn lemma_le4_roundtrip(v: u32)
    ensures
        u32_of_le(le4(v)[0], le4(v)[1], le4(v)[2], le4(v)[3]) == v,
        le4(v).len() == 4,
{
    assert(((v & 0xff) as u8 as u32) | ((((v >> 8) & 0xff) as u8 as u32) << 8) | ((((v >> 16)
        & 0xff) as u8 as u32) << 16) | ((((v >> 24) & 0xff) as u8 as u32) << 24) == v)
        by (bit_vector);
}

/// Reading two little-endian bytes undoes writing them.
pub proof fn lemma_le2_roundtrip(v: u16)
    ensures
        u16_of_le(le2(v)[0], le2(v)[1]) == v,
        le2(v).len() == 2,
{
    assert(((v & 0xff) as u8 as u16) | ((((v >> 8) & 0xff) as u8 as u16) << 8) == v)
        by (bit_vector);
}

/// Pushes the four little-endian bytes of `v` onto `out`.
pub fn push_le4(out: &mut Vec<u8>, v: u32)
    ensures
        final(out)@ == old(out)@ + le4(v),
{
    let b0: u8 = (v & 0xff) as u8;
    let b1: u8 = ((v >> 8) & 0xff) as u8;
    let b2: u8 = ((v >> 16) & 0xff) as u8;
    let b3: u8 = ((v >> 24) & 0xff) as u8;
    out.push(b0);
    out.push(b1);
    out.push(b2);
    out.push(b3);
    assert(out@ =~= old(out)@ + le4(v));
}

/// Pushes the two little-endian bytes of `v` onto `out`.
pub fn push_le2(out: &mut Vec<u8>, v: u16)
    ensures
        final(out)@ == old(out)@ + le2(v),
{
    let b0: u8 = (v & 0xff) as u8;
    let b1: u8 = ((v >> 8) & 0xff) as u8;
    out.push(b0);
    out.push(b1);
    assert(out@ =~= old(out)@ + le2(v));
}

} // verus!
