//! The instruction set: operation codes, condition flags and memory kinds.
use vstd::prelude::*;

verus! {

/// Stops the machine.
pub const HALT: u8 = 0b00000;
/// Loads a 16-bit constant into a register.
pub const CONST: u8 = 0b00001;
/// Adds two registers.
pub const ADD: u8 = 0b00010;
/// Subtracts two registers.
pub const SUB: u8 = 0b00011;
/// Multiplies two registers.
pub const MULT: u8 = 0b00100;
/// Divides two registers.
pub const DIV: u8 = 0b00101;
/// Copies a register.
pub const COPY: u8 = 0b00110;
/// Loads a 16-bit word from memory.
pub const LOAD: u8 = 0b00111;
/// Stores a 16-bit word to memory.
pub const STORE: u8 = 0b01000;
/// Copies a register when a condition on another register holds.
pub const COND_COPY: u8 = 0b01001;

/// Condition of `cond_copy`: the register is zero.
pub const COND_ZERO_FLAG: u8 = 0b00;
/// Condition of `cond_copy`: the register is not zero.
pub const COND_NON_ZERO_FLAG: u8 = 0b01;

/// Memory kind: random access memory.
pub const RAM: u8 = 0b0000;
/// Memory kind: read-only memory.
pub const ROM: u8 = 0b0001;

/// Number of bytes of the machine's memory.
pub const MEMORY_SIZE: usize = 65536;

/// Number of registers; the last one is the instruction pointer.
pub const REGISTER_COUNT: usize = 8;

/// An instruction, as its bytes encode it.
pub enum Instr {
    Halt,
    /// `dest := value`.
    Const { dest: u8, value: u16 },
    /// `dest := a op b` for the operation code `opcode`.
    Arith { opcode: u8, dest: u8, a: u8, b: u8 },
    /// `dest := src`.
    Copy { dest: u8, src: u8 },
    /// `dest :=` the word at the address held in `addr`.
    Load { dest: u8, addr: u8 },
    /// The word at the address held in `addr` `:= src`.
    Store { addr: u8, src: u8 },
    /// `dest := src` when `cond` passes the test `flag`.
    CondCopy { dest: u8, cond: u8, src: u8, flag: u8 },
    /// An operation code that names no instruction.
    Unknown { opcode: u8 },
}

/// How the executor reads the instruction at `ip`: the operation code in the
/// top five bits of the first byte and a register in its low three bits;
/// then, in the second byte, registers in the top three bits and in the three
/// below, and the condition flag in the low two bits; a constant is the
/// second and third bytes, high byte first.
pub open spec fn decode(ram: Seq<u8>, ip: int) -> Instr {
    let b0 = ram[ip];
    let b1 = ram[ip + 1];
    let op = b0 / 8;
    let d = b0 % 8;
    let a = b1 / 32;
    let b = (b1 / 4) % 8;
    if op == HALT {
        Instr::Halt
    } else if op == CONST {
        Instr::Const { dest: d, value: (b1 * 256 + ram[ip + 2]) as u16 }
    } else if op == ADD || op == SUB || op == MULT || op == DIV {
        Instr::Arith { opcode: op, dest: d, a, b }
    } else if op == COPY {
        Instr::Copy { dest: d, src: b }
    } else if op == LOAD {
        Instr::Load { dest: d, addr: a }
    } else if op == STORE {
        Instr::Store { addr: d, src: a }
    } else if op == COND_COPY {
        Instr::CondCopy { dest: d, cond: a, src: b, flag: b1 % 4 }
    } else {
        Instr::Unknown { opcode: op }
    }
}

} // verus!
