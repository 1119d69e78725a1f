//! The executor reads back the instructions that the assembler writes.
use vstd::prelude::*;

use crate::assembler::{
    address_of, flag_step, line_step, mnemonic_of, register_step, valid_state, value_step, AsmView,
    Mnemonic,
};
use crate::isa::{decode, Instr, COPY, LOAD};
use crate::text::{all_white, first_non_white, words};

verus! {

/// The line assembles into an instruction (it is not blank, a comment or a
/// label).
pub open spec fn is_instruction_line(line: Seq<char>) -> bool {
    &&& !(all_white(line) || first_non_white(line) == Some('#'))
    &&& !(mnemonic_of(words(line)[0]) is Label)
    &&& !(mnemonic_of(words(line)[0]) is Unknown)
}

/// The instruction that an instruction line names, with the operands that
/// the assembler reads; for `const`, the value it writes (0 for a label not
/// yet defined).
pub open spec fn line_instr(s: AsmView, line: Seq<char>) -> Instr {
    let t = words(line);
    let w = t[0];
    let (r1, t1) = register_step(t.drop_first(), w);
    let d = r1->Ok_0;
    match mnemonic_of(w) {
        Mnemonic::Halt => Instr::Halt,
        Mnemonic::Const => {
            let (v, _t2, _p) = value_step(t1, address_of(s.ip + 1), s.labels, s.pending, w);
            Instr::Const { dest: d, value: v->Ok_0 }
        },
        Mnemonic::Arith { opcode } => {
            let (r2, t2) = register_step(t1, w);
            let (r3, _t3) = register_step(t2, w);
            Instr::Arith { opcode, dest: d, a: r2->Ok_0, b: r3->Ok_0 }
        },
        Mnemonic::Pair { opcode } => {
            let (r2, _t2) = register_step(t1, w);
            let x = r2->Ok_0;
            if opcode == COPY {
                Instr::Copy { dest: d, src: x }
            } else if opcode == LOAD {
                Instr::Load { dest: d, addr: x }
            } else {
                Instr::Store { addr: d, src: x }
            }
        },
        Mnemonic::CondCopy => {
            let (r2, t2) = register_step(t1, w);
            let (f, t3) = flag_step(t2);
            let (r3, _t4) = register_step(t3, w);
            Instr::CondCopy { dest: d, cond: r2->Ok_0, src: r3->Ok_0, flag: f->Ok_0 }
        },
        _ => Instr::Unknown { opcode: 0 },
    }
}

/// The executor decodes the bytes that the assembler writes for an
/// instruction line as the instruction the line names, with the same
/// operands; except that `copy` puts its source register where the executor
/// does not read it, so that a `copy` whose source is not `r0` is left out.
pub proof fn lemma_decode_assembled(s: AsmView, line: Seq<char>)
    requires
        valid_state(s),
        line_step(s, line) is Ok,
        is_instruction_line(line),
        !(line_instr(s, line) matches Instr::Copy { src, .. } && src != 0),
    ensures
        decode(line_step(s, line)->Ok_0.ram, s.ip as int) == line_instr(s, line),
{
    let s2 = line_step(s, line)->Ok_0;
    let ram = s2.ram;
    let b0 = ram[s.ip as int];
    let b1 = ram[s.ip as int + 1];
    let t = words(line);
    let w = t[0];
    let (r1, t1) = register_step(t.drop_first(), w);
    let d = r1->Ok_0;
    match mnemonic_of(w) {
        Mnemonic::Halt => {
            assert(b0 == 0);
        },
        Mnemonic::Const => {
            assert(b0 / 8 == 1 && b0 % 8 == d);
        },
        Mnemonic::Arith { opcode } => {
            let (r2, t2) = register_step(t1, w);
            let (r3, _t3) = register_step(t2, w);
            let a = r2->Ok_0;
            let b = r3->Ok_0;
            assert(b0 == opcode * 8 + d);
            assert(b0 / 8 == opcode && b0 % 8 == d);
            assert(b1 == a * 32 + b * 4);
            assert(b1 / 32 == a && (b1 / 4) % 8 == b);
        },
        Mnemonic::Pair { opcode } => {
            let (r2, _t2) = register_step(t1, w);
            let x = r2->Ok_0;
            assert(b0 == opcode * 8 + d);
            assert(b0 / 8 == opcode && b0 % 8 == d);
            assert(b1 == x * 32);
            assert(b1 / 32 == x);
            if opcode == COPY {
                assert(x == 0);
                assert((b1 / 4) % 8 == 0);
            }
        },
        Mnemonic::CondCopy => {
            let (r2, t2) = register_step(t1, w);
            let (f, t3) = flag_step(t2);
            let (r3, _t4) = register_step(t3, w);
            let c = r2->Ok_0;
            let src = r3->Ok_0;
            let fl = f->Ok_0;
            assert(fl < 4);
            assert(b0 / 8 == 9 && b0 % 8 == d);
            assert(b1 == c * 32 + src * 4 + fl);
            assert(b1 / 32 == c && (b1 / 4) % 8 == src && b1 % 4 == fl);
        },
        _ => {},
    }
}

} // verus!
