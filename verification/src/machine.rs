//! The executor: the machine's state and one step of it.
use vstd::prelude::*;

use crate::isa::{
    decode, Instr, ADD, COND_COPY, COND_NON_ZERO_FLAG, COND_ZERO_FLAG, CONST, COPY, DIV, HALT, LOAD, MEMORY_SIZE,
    MULT, REGISTER_COUNT, STORE, SUB,
};

verus! {

/// The index of the instruction pointer among the registers.
pub const IP: usize = 7;

/// Why the machine stops without a `halt`.
#[derive(Debug, PartialEq, Eq, Structural)]
pub enum ExecFault {
    /// The operation code (the top five bits) names no instruction.
    UnknownInstruction { opcode: u8 },
    /// The instruction pointer would move past address 65535.
    IpOverflow,
    /// A two-byte access at address 65535 would reach past the memory.
    AddressOverflow,
}

/// The state of the machine: its memory and its eight registers, of which
/// the last is the instruction pointer.
#[verifier::ext_equal]
pub struct MachineView {
    pub ram: Seq<u8>,
    pub regs: Seq<u16>,
}

/// What one step does.
pub enum Step {
    /// The instruction at the instruction pointer is `halt`.
    Halted,
    /// The machine went on to this state.
    Next(MachineView),
    /// The machine stops on this fault.
    Faulted(ExecFault),
}

/// A 16-bit word read in two's complement.
pub open spec fn signed(x: u16) -> int {
    if x < 32768 {
        x as int
    } else {
        x - 65536
    }
}

/// An integer in `-32768..=32767` as a 16-bit word in two's complement.
pub open spec fn word(v: int) -> u16 {
    if v < 0 {
        (v + 65536) as u16
    } else {
        v as u16
    }
}

/// Integer division rounding toward zero, as `i16` division does.
pub open spec fn div_toward_zero(a: int, b: int) -> int {
    let q = (if a < 0 {
        -a
    } else {
        a
    }) / (if b < 0 {
        -b
    } else {
        b
    });
    if (a < 0) != (b < 0) {
        -q
    } else {
        q
    }
}

/// `div`: the signed quotient, or 0 where `i16::checked_div` gives `None`
/// (a zero divisor, or -32768 divided by -1).
pub open spec fn quotient(x: u16, y: u16) -> u16 {
    if y == 0 || (x == 32768 && y == 65535) {
        0
    } else {
        word(div_toward_zero(signed(x), signed(y)))
    }
}

/// `cond_copy`: whether the condition register `c` passes with `flag`;
/// flags 2 and 3 both test that the register is not negative.
pub open spec fn condition_holds(c: u16, flag: u8) -> bool {
    if flag == COND_ZERO_FLAG {
        c == 0
    } else if flag == COND_NON_ZERO_FLAG {
        c != 0
    } else {
        c < 32768
    }
}

/// What an instruction other than `halt` and `const` does to the memory and
/// the registers, once the instruction pointer has moved to its second byte.
pub open spec fn execute(ins: Instr, ram: Seq<u8>, regs: Seq<u16>) -> Result<MachineView, ExecFault> {
    match ins {
        Instr::Arith { opcode, dest, a, b } => {
            let x = regs[a as int];
            let y = regs[b as int];
            let v = if opcode == ADD {
                ((x + y) % 65536) as u16
            } else if opcode == SUB {
                ((x + 65536 - y) % 65536) as u16
            } else if opcode == MULT {
                ((x * y) % 65536) as u16
            } else {
                quotient(x, y)
            };
            Ok(MachineView { ram, regs: regs.update(dest as int, v) })
        },
        Instr::Copy { dest, src } => Ok(MachineView { ram, regs: regs.update(dest as int, regs[src as int]) }),
        Instr::Load { dest, addr } => {
            let at = regs[addr as int];
            if at == 65535 {
                Err(ExecFault::AddressOverflow)
            } else {
                Ok(
                    MachineView {
                        ram,
                        regs: regs.update(dest as int, (ram[at as int] * 256 + ram[at + 1]) as u16),
                    },
                )
            }
        },
        Instr::Store { addr, src } => {
            let at = regs[addr as int];
            let v = regs[src as int];
            if at == 65535 {
                Err(ExecFault::AddressOverflow)
            } else {
                Ok(
                    MachineView {
                        ram: ram.update(at as int, (v / 256) as u8).update(at + 1, (v % 256) as u8),
                        regs,
                    },
                )
            }
        },
        Instr::CondCopy { dest, cond, src, flag } => {
            if condition_holds(regs[cond as int], flag) {
                Ok(MachineView { ram, regs: regs.update(dest as int, regs[src as int]) })
            } else {
                Ok(MachineView { ram, regs })
            }
        },
        _ => Ok(MachineView { ram, regs }),
    }
}

/// One step of the machine: decode the instruction at the instruction
/// pointer, move the pointer past its operands, run it, and move the
/// pointer one byte on.
pub open spec fn step_spec(m: MachineView) -> Step {
    let ip = m.regs[IP as int];
    let ins = decode(m.ram, ip as int);
    match ins {
        Instr::Halt => Step::Halted,
        Instr::Unknown { opcode } => Step::Faulted(ExecFault::UnknownInstruction { opcode }),
        _ => if ip == 65535 {
            Step::Faulted(ExecFault::IpOverflow)
        } else {
            let done = match ins {
                Instr::Const { dest, value } => if ip + 1 == 65535 {
                    Err(ExecFault::IpOverflow)
                } else {
                    Ok(
                        MachineView {
                            ram: m.ram,
                            regs: m.regs.update(IP as int, (ip + 2) as u16).update(dest as int, value),
                        },
                    )
                },
                _ => execute(ins, m.ram, m.regs.update(IP as int, (ip + 1) as u16)),
            };
            match done {
                Err(e) => Step::Faulted(e),
                Ok(after) => {
                    let ip3 = after.regs[IP as int];
                    if ip3 == 65535 {
                        Step::Faulted(ExecFault::IpOverflow)
                    } else {
                        Step::Next(
                            MachineView {
                                ram: after.ram,
                                regs: after.regs.update(IP as int, (ip3 + 1) as u16),
                            },
                        )
                    }
                },
            }
        },
    }
}

/// Running at most `fuel` steps: whether the machine halted (or the fault it
/// stopped on), and its state at the end.
pub open spec fn run_spec(m: MachineView, fuel: nat) -> (Result<bool, ExecFault>, MachineView)
    decreases fuel,
{
    if fuel == 0 {
        (Ok(false), m)
    } else {
        match step_spec(m) {
            Step::Halted => (Ok(true), m),
            Step::Faulted(e) => (Err(e), m),
            Step::Next(m2) => run_spec(m2, (fuel - 1) as nat),
        }
    }
}

/// Running `a` steps without stopping and then `b` more is running `a + b`
/// steps.
pub proof fn lemma_run_in_parts(m: MachineView, a: nat, b: nat)
    requires
        run_spec(m, a).0 == Ok::<bool, ExecFault>(false),
    ensures
        run_spec(m, a + b) == run_spec(run_spec(m, a).1, b),
    decreases a,
{
    if a > 0 {
        match step_spec(m) {
            Step::Next(m2) => {
                lemma_run_in_parts(m2, (a - 1) as nat, b);
                assert((a + b - 1) as nat == (a - 1) as nat + b);
            },
            _ => {},
        }
    }
}

/// A `load` through the same address register right after a `store` gives
/// back the word that was stored.
pub proof fn lemma_load_after_store(ram: Seq<u8>, regs: Seq<u16>, addr: u8, src: u8, dest: u8)
    requires
        ram.len() == MEMORY_SIZE,
        regs.len() == REGISTER_COUNT,
        addr < 8,
        src < 8,
        dest < 8,
        execute(Instr::Store { addr, src }, ram, regs) is Ok,
    ensures
        ({
            let stored = execute(Instr::Store { addr, src }, ram, regs)->Ok_0;
            execute(Instr::Load { dest, addr }, stored.ram, stored.regs) == Ok::<MachineView, ExecFault>(
                MachineView { ram: stored.ram, regs: regs.update(dest as int, regs[src as int]) },
            )
        }),
{
    let v = regs[src as int];
    assert((v / 256) as u8 * 256 + (v % 256) as u8 == v);
}

/// The value a register operand `r` reads while an instruction at `ip`
/// runs: the register, except that `r7` reads the address of the
/// instruction's second byte.
pub open spec fn operand(m: MachineView, r: u8) -> u16 {
    if r == 7 {
        (m.regs[IP as int] + 1) as u16
    } else {
        m.regs[r as int]
    }
}

/// The condition of the `cond_copy` at the instruction pointer passes:
/// flag 0 asks for zero, flag 1 for not zero, flags 2 and 3 for not negative.
pub open spec fn cond_copy_passes(m: MachineView) -> bool {
    let ip = m.regs[IP as int];
    let b1 = m.ram[ip + 1];
    let c = operand(m, b1 / 32);
    let f = b1 % 4;
    if f == 0 {
        c == 0
    } else if f == 1 {
        c != 0
    } else {
        c < 32768
    }
}

/// A `cond_copy` whose condition fails changes nothing but the instruction
/// pointer, which moves past its two bytes, whatever its destination (`r7`
/// included).
pub proof fn lemma_cond_copy_not_taken(m: MachineView)
    requires
        well_formed(m),
        m.regs[IP as int] + 2 < 65536,
        m.ram[m.regs[IP as int] as int] / 8 == COND_COPY,
        !cond_copy_passes(m),
    ensures
        step_spec(m) == Step::Next(
            MachineView { ram: m.ram, regs: m.regs.update(IP as int, (m.regs[IP as int] + 2) as u16) },
        ),
{
    let ip = m.regs[IP as int];
    let regs1 = m.regs.update(IP as int, (ip + 1) as u16);
    let b1 = m.ram[ip + 1];
    assert(regs1[(b1 / 32) as int] == operand(m, b1 / 32));
    assert(m.regs.update(IP as int, (ip + 2) as u16) =~= regs1.update(IP as int, (ip + 2) as u16));
}

/// A `cond_copy` whose condition passes copies its source into its
/// destination; when the destination is `r7` the machine jumps: the next
/// instruction is at the copied value + 1.
pub proof fn lemma_cond_copy_taken(m: MachineView)
    requires
        well_formed(m),
        m.regs[IP as int] + 2 < 65536,
        m.ram[m.regs[IP as int] as int] / 8 == COND_COPY,
        cond_copy_passes(m),
        m.ram[m.regs[IP as int] as int] % 8 == 7 ==> operand(
            m,
            (m.ram[m.regs[IP as int] + 1] / 4) % 8,
        ) != 65535,
    ensures
        ({
            let ip = m.regs[IP as int];
            let d = m.ram[ip as int] % 8;
            let v = operand(m, (m.ram[ip + 1] / 4) % 8);
            step_spec(m) == Step::Next(
                MachineView {
                    ram: m.ram,
                    regs: if d == 7 {
                        m.regs.update(IP as int, (v + 1) as u16)
                    } else {
                        m.regs.update(d as int, v).update(IP as int, (ip + 2) as u16)
                    },
                },
            )
        }),
{
    let ip = m.regs[IP as int];
    let regs1 = m.regs.update(IP as int, (ip + 1) as u16);
    let b1 = m.ram[ip + 1];
    let d = m.ram[ip as int] % 8;
    assert(regs1[(b1 / 32) as int] == operand(m, b1 / 32));
    assert(regs1[((b1 / 4) % 8) as int] == operand(m, (b1 / 4) % 8));
    let v = operand(m, (b1 / 4) % 8);
    if d == 7 {
        assert(regs1.update(d as int, v).update(IP as int, (v + 1) as u16) =~= m.regs.update(
            IP as int,
            (v + 1) as u16,
        ));
    } else {
        assert(regs1.update(d as int, v).update(IP as int, (ip + 2) as u16) =~= m.regs.update(
            d as int,
            v,
        ).update(IP as int, (ip + 2) as u16));
    }
}

/// An `add`, `sub`, `mult`, `div`, `copy` or `load` into `r7` jumps: it
/// leaves the other registers and the memory as they were, and the next
/// instruction is at the value that the same instruction writes into any
/// other register `d`, + 1 (when that value is 65535, the step faults).
pub proof fn lemma_writing_ip_jumps(m: MachineView, d: u8)
    requires
        well_formed(m),
        d < 7,
        m.regs[IP as int] + 2 < 65536,
        ADD <= m.ram[m.regs[IP as int] as int] / 8 <= LOAD,
        m.ram[m.regs[IP as int] as int] % 8 == 7,
        // a `load` must not read the byte that is changed to retarget it
        m.ram[m.regs[IP as int] as int] / 8 == LOAD ==> ({
            let at = operand(m, m.ram[m.regs[IP as int] + 1] / 32);
            at != m.regs[IP as int] && at + 1 != m.regs[IP as int]
        }),
    ensures
        ({
            let ip = m.regs[IP as int];
            let op = m.ram[ip as int] / 8;
            let other = MachineView { ram: m.ram.update(ip as int, (op * 8 + d) as u8), regs: m.regs };
            step_spec(other) matches Step::Next(n) ==> step_spec(m) == if n.regs[d as int] == 65535 {
                Step::Faulted(ExecFault::IpOverflow)
            } else {
                Step::Next(
                    MachineView {
                        ram: m.ram,
                        regs: m.regs.update(IP as int, (n.regs[d as int] + 1) as u16),
                    },
                )
            }
        }),
{
    let ip = m.regs[IP as int];
    let op = m.ram[ip as int] / 8;
    let other = MachineView { ram: m.ram.update(ip as int, (op * 8 + d) as u8), regs: m.regs };
    assert(other.ram[ip + 1] == m.ram[ip + 1]);
    let regs1 = m.regs.update(IP as int, (ip + 1) as u16);
    let b1 = m.ram[ip + 1];
    assert(((op * 8 + d) as u8) / 8 == op && ((op * 8 + d) as u8) % 8 == d);
    if op == LOAD {
        let at = regs1[(b1 / 32) as int];
        assert(at == operand(m, b1 / 32));
        if at != 65535 {
            assert(other.ram[at as int] == m.ram[at as int]);
            assert(other.ram[at + 1] == m.ram[at + 1]);
        }
    }
    if let Step::Next(n) = step_spec(other) {
        let v = n.regs[d as int];
        assert(regs1.update(IP as int, v).update(IP as int, (v + 1) as u16) =~= m.regs.update(
            IP as int,
            (v + 1) as u16,
        ));
    }
}

/// A state of the machine: 65536 bytes of memory and eight registers.
pub open spec fn well_formed(m: MachineView) -> bool {
    m.ram.len() == MEMORY_SIZE && m.regs.len() == REGISTER_COUNT
}

/// The machine.
pub struct Machine {
    ram: Vec<u8>,
    registers: Vec<u16>,
}

impl View for Machine {
    type V = MachineView;

    closed spec fn view(&self) -> MachineView {
        MachineView { ram: self.ram@, regs: self.registers@ }
    }
}

fn signed_quotient(x: u16, y: u16) -> (r: u16)
    ensures
        r == quotient(x, y),
{
    if y == 0 || (x == 32768 && y == 65535) {
        return 0;
    }
    let xneg = x >= 32768;
    let yneg = y >= 32768;
    let xm: u32 = if xneg {
        65536 - x as u32
    } else {
        x as u32
    };
    let ym: u32 = if yneg {
        65536 - y as u32
    } else {
        y as u32
    };
    let q: u32 = xm / ym;
    assert(q <= xm) by (nonlinear_arith)
        requires
            ym >= 1,
            q == xm / ym,
    ;
    if xneg != yneg {
        if q == 0 {
            0
        } else {
            (65536 - q) as u16
        }
    } else {
        assert(q < 32768) by (nonlinear_arith)
            requires
                ym >= 1,
                q == xm / ym,
                xm <= 32768,
                xm == 32768 ==> ym >= 2,
        ;
        q as u16
    }
}

impl Machine {
    /// The machine has its memory and its registers.
    pub closed spec fn wf(&self) -> bool {
        well_formed(self@)
    }

    /// A machine with `ram` as its memory and all registers 0; `None` unless
    /// `ram` holds exactly 65536 bytes.
    pub fn new(ram: Vec<u8>) -> (m: Option<Machine>)
        ensures
            m is Some <==> ram@.len() == MEMORY_SIZE,
            m matches Some(m) ==> m.wf() && m@.ram == ram@ && m@.regs == Seq::new(
                REGISTER_COUNT as nat,
                |i: int| 0u16,
            ),
    {
        if ram.len() != MEMORY_SIZE {
            return None;
        }
        let mut registers: Vec<u16> = Vec::new();
        while registers.len() < REGISTER_COUNT
            invariant
                registers@.len() <= REGISTER_COUNT,
                forall|k: int| 0 <= k < registers@.len() ==> registers@[k] == 0,
            decreases REGISTER_COUNT - registers@.len(),
        {
            registers.push(0);
        }
        let m = Machine { ram, registers };
        assert(m@.regs =~= Seq::new(REGISTER_COUNT as nat, |i: int| 0u16));
        Some(m)
    }

    /// The registers.
    pub fn registers(&self) -> (r: &[u16])
        ensures
            r@ == self@.regs,
    {
        self.registers.as_slice()
    }

    /// The memory.
    pub fn memory(&self) -> (r: &[u8])
        ensures
            r@ == self@.ram,
    {
        self.ram.as_slice()
    }

    /// Gives up the machine for its memory.
    pub fn into_memory(self) -> (r: Vec<u8>)
        ensures
            r@ == self@.ram,
    {
        self.ram
    }

    /// Runs one instruction. `Ok(true)` when it is `halt`, which changes
    /// nothing; `Ok(false)` when the machine went on; on a fault nothing
    /// changes either.
    pub fn step(&mut self) -> (r: Result<bool, ExecFault>)
        requires
            old(self).wf(),
        ensures
            final(self).wf(),
            match step_spec(old(self)@) {
                Step::Halted => r == Ok::<bool, ExecFault>(true) && final(self)@ == old(self)@,
                Step::Next(m) => r == Ok::<bool, ExecFault>(false) && final(self)@ == m,
                Step::Faulted(e) => r == Err::<bool, ExecFault>(e) && final(self)@ == old(self)@,
            },
    {
        let ip = self.registers[IP];
        let b0 = self.ram[ip as usize];
        let op = b0 / 8;
        if op == HALT {
            return Ok(true);
        }
        if op > COND_COPY {
            return Err(ExecFault::UnknownInstruction { opcode: op });
        }
        if ip == 65535 {
            return Err(ExecFault::IpOverflow);
        }
        let ip1 = ip + 1;
        let b1 = self.ram[ip1 as usize];
        let dest = (b0 % 8) as usize;
        let ghost regs0 = self.registers@.update(IP as int, ip1);
        if op == CONST {
            if ip1 == 65535 {
                return Err(ExecFault::IpOverflow);
            }
            let ip2 = ip1 + 1;
            let value = (b1 as u16) * 256 + self.ram[ip2 as usize] as u16;
            let after_ip = if dest == IP {
                value
            } else {
                ip2
            };
            if after_ip == 65535 {
                return Err(ExecFault::IpOverflow);
            }
            self.registers.set(IP, ip2);
            self.registers.set(dest, value);
            self.registers.set(IP, after_ip + 1);
            Ok(false)
        } else {
            let a_reg = (b1 / 32) as usize;
            let b_reg = ((b1 / 4) % 8) as usize;
            let a = if a_reg == IP {
                ip1
            } else {
                self.registers[a_reg]
            };
            let b = if b_reg == IP {
                ip1
            } else {
                self.registers[b_reg]
            };
            assert(a == regs0[a_reg as int] && b == regs0[b_reg as int]);
            if op == STORE {
                let addr = if dest == IP {
                    ip1
                } else {
                    self.registers[dest]
                };
                assert(addr == regs0[dest as int]);
                if addr == 65535 {
                    return Err(ExecFault::AddressOverflow);
                }
                if ip1 == 65535 {
                    return Err(ExecFault::IpOverflow);
                }
                self.ram.set(addr as usize, (a / 256) as u8);
                self.ram.set(addr as usize + 1, (a % 256) as u8);
                self.registers.set(IP, ip1 + 1);
                Ok(false)
            } else {
                let value: u16 = if op == ADD {
                    ((a as u32 + b as u32) % 65536) as u16
                } else if op == SUB {
                    ((a as u32 + 65536 - b as u32) % 65536) as u16
                } else if op == MULT {
                    assert(a as u32 * b as u32 <= 65535 * 65535) by (nonlinear_arith)
                        requires
                            a <= 65535,
                            b <= 65535,
                    ;
                    ((a as u32 * b as u32) % 65536) as u16
                } else if op == DIV {
                    signed_quotient(a, b)
                } else if op == COPY {
                    b
                } else if op == LOAD {
                    if a == 65535 {
                        return Err(ExecFault::AddressOverflow);
                    }
                    (self.ram[a as usize] as u16) * 256 + self.ram[a as usize + 1] as u16
                } else {
                    // COND_COPY
                    let c = b1 % 4;
                    let holds = if c == COND_ZERO_FLAG {
                        a == 0
                    } else if c == COND_NON_ZERO_FLAG {
                        a != 0
                    } else {
                        a < 32768
                    };
                    if holds {
                        b
                    } else if dest == IP {
                        ip1
                    } else {
                        self.registers[dest]
                    }
                };
                let ip3 = if dest == IP {
                    value
                } else {
                    ip1
                };
                if ip3 == 65535 {
                    return Err(ExecFault::IpOverflow);
                }
                self.registers.set(IP, ip1);
                self.registers.set(dest, value);
                self.registers.set(IP, ip3 + 1);
                Ok(false)
            }
        }
    }

    /// Runs at most `fuel` instructions: `Ok(true)` once a `halt` is reached,
    /// `Ok(false)` when the fuel ran out first, or the fault the machine
    /// stopped on.
    pub fn run(&mut self, fuel: u64) -> (r: Result<bool, ExecFault>)
        requires
            old(self).wf(),
        ensures
            final(self).wf(),
            (r, final(self)@) == run_spec(old(self)@, fuel as nat),
    {
        let mut left = fuel;
        while left > 0
            invariant
                self.wf(),
                run_spec(old(self)@, fuel as nat) == run_spec(self@, left as nat),
            decreases left,
        {
            match self.step() {
                Ok(true) => return Ok(true),
                Err(e) => return Err(e),
                Ok(false) => {},
            }
            left = left - 1;
        }
        Ok(false)
    }
}

} // verus!
