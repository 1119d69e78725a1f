use virtual_cpu::assembler::assemble;
use virtual_cpu::isa::MEMORY_SIZE;
use virtual_cpu::machine::{ExecFault, Machine};

fn machine(source: &str) -> Machine {
    Machine::new(assemble(source).expect("the program assembles")).expect("memory is 65536 bytes")
}

fn run_to_halt(m: &mut Machine) {
    assert_eq!(m.run(10_000), Ok(true));
}

#[test]
fn memory_must_be_full_size() {
    assert!(Machine::new(vec![0; 100]).is_none());
    assert!(Machine::new(vec![0; MEMORY_SIZE + 1]).is_none());
    let m = Machine::new(vec![0; MEMORY_SIZE]).unwrap();
    assert_eq!(m.registers(), &[0; 8]);
}

#[test]
fn adds_two_constants() {
    let mut m = machine("const r0 5\nconst r1 7\nadd r2 r0 r1\nhalt");
    run_to_halt(&mut m);
    assert_eq!(m.registers(), &[5, 7, 12, 0, 0, 0, 0, 8]);
}

#[test]
fn halt_changes_nothing() {
    let mut m = machine("halt");
    assert_eq!(m.step(), Ok(true));
    assert_eq!(m.step(), Ok(true));
    assert_eq!(m.registers(), &[0; 8]);
}

#[test]
fn arithmetic_wraps() {
    let mut m = machine(
        "const r0 3\nconst r1 5\nsub r2 r0 r1\nconst r3 300\nmult r4 r3 r3\nconst r5 65535\nadd r6 r5 r1\nhalt",
    );
    run_to_halt(&mut m);
    let r = m.registers();
    assert_eq!(r[2], 65534);
    assert_eq!(r[4], (90000u32 % 65536) as u16);
    assert_eq!(r[6], 4);
}

#[test]
fn signed_multiplication() {
    let mut m = machine("const r0 -3\nconst r1 7\nmult r2 r0 r1\nhalt");
    run_to_halt(&mut m);
    assert_eq!(m.registers()[2] as i16, -21);
}

#[test]
fn division_is_signed_and_total() {
    let mut m = machine(
        "const r0 -7\nconst r1 2\ndiv r2 r0 r1\nconst r3 0\ndiv r4 r1 r3\nconst r5 -32768\nconst r6 -1\ndiv r3 r5 r6\nhalt",
    );
    run_to_halt(&mut m);
    let r = m.registers();
    assert_eq!(r[2] as i16, -3);
    assert_eq!(r[4], 0);
    assert_eq!(r[3], 0);
}

#[test]
fn division_rounds_toward_zero() {
    let mut m = machine("const r0 7\nconst r1 -2\ndiv r2 r0 r1\nconst r3 -7\nconst r4 -2\ndiv r5 r3 r4\nhalt");
    run_to_halt(&mut m);
    assert_eq!(m.registers()[2] as i16, -3);
    assert_eq!(m.registers()[5] as i16, 3);
}

#[test]
fn store_then_load() {
    let mut m = machine("const r0 100\nconst r1 4660\nstore r0 r1\nload r2 r0\nhalt");
    run_to_halt(&mut m);
    assert_eq!(m.registers()[2], 4660);
    assert_eq!(m.memory()[100], 0x12);
    assert_eq!(m.memory()[101], 0x34);
}

#[test]
fn copy_reads_the_low_register_field() {
    // The assembler writes the source of `copy` in the top bits of the
    // second byte; the executor takes the register from the bits below,
    // which are 0, so `copy r1 r2` copies r0.
    let mut m = machine("const r0 11\nconst r2 22\ncopy r1 r2\nhalt");
    run_to_halt(&mut m);
    assert_eq!(m.registers()[1], 11);
}

#[test]
fn conditional_copies() {
    let mut m = machine(
        "const r0 0\nconst r1 9\ncond_copy r2 r0 zero r1\ncond_copy r3 r0 non_zero r1\ncond_copy r4 r1 non_zero r1\nhalt",
    );
    run_to_halt(&mut m);
    assert_eq!(&m.registers()[..5], &[0, 9, 9, 0, 9]);
}

#[test]
fn flags_two_and_three_test_for_not_negative() {
    // const r0 -1; const r1 5; cond_copy r2 r1 (flag 2) r1; cond_copy r3 r0 (flag 3) r1; halt
    let mut ram = vec![0u8; MEMORY_SIZE];
    let prog = [8, 0xFF, 0xFF, 9, 0, 5, 74, 32 + 4 + 2, 75, 4 + 3, 0];
    ram[..prog.len()].copy_from_slice(&prog);
    let mut m = Machine::new(ram).unwrap();
    run_to_halt(&mut m);
    assert_eq!(m.registers()[2], 5);
    assert_eq!(m.registers()[3], 0);
}

#[test]
fn jump_by_writing_the_instruction_pointer() {
    // r7 := 5 makes the next instruction the one at 6.
    let mut m = machine("const r7 5\nconst r1 1\nhalt\nconst r2 2\nhalt");
    run_to_halt(&mut m);
    assert_eq!(m.registers()[1], 0);
    assert_eq!(m.registers()[2], 0);
    assert_eq!(m.registers()[7], 6);
}

#[test]
fn unknown_instruction_faults() {
    let mut ram = vec![0u8; MEMORY_SIZE];
    ram[0] = 10 << 3;
    let mut m = Machine::new(ram).unwrap();
    assert_eq!(m.step(), Err(ExecFault::UnknownInstruction { opcode: 10 }));
    assert_eq!(m.registers(), &[0; 8]);
}

#[test]
fn instruction_pointer_overflow_faults() {
    let mut ram = vec![0u8; MEMORY_SIZE];
    ram[..3].copy_from_slice(&[15, 0xFF, 0xFE]);
    ram[65535] = 2 << 3;
    let mut m = Machine::new(ram).unwrap();
    assert_eq!(m.step(), Ok(false));
    assert_eq!(m.registers()[7], 65535);
    assert_eq!(m.step(), Err(ExecFault::IpOverflow));
}

#[test]
fn two_byte_access_at_the_last_address_faults() {
    let mut m = machine("const r0 65535\nload r1 r0\nhalt");
    assert_eq!(m.run(10), Err(ExecFault::AddressOverflow));
    let mut m = machine("const r0 65535\nstore r0 r0\nhalt");
    assert_eq!(m.run(10), Err(ExecFault::AddressOverflow));
    assert_eq!(m.memory()[65535], 0);
}

#[test]
fn running_in_parts() {
    let source = "const r0 1\nadd r0 r0 r0\nadd r0 r0 r0\nadd r0 r0 r0\nhalt";
    let mut whole = machine(source);
    assert_eq!(whole.run(3), Ok(false));
    let mut parts = machine(source);
    assert_eq!(parts.run(1), Ok(false));
    assert_eq!(parts.run(2), Ok(false));
    assert_eq!(whole.registers(), parts.registers());
    assert_eq!(whole.run(5), Ok(true));
    assert_eq!(whole.registers()[0], 8);
}

#[test]
fn fuel_runs_out() {
    let mut m = machine("const r7 65535\nhalt");
    // Jumping to the last address wraps nothing: it faults.
    assert_eq!(m.run(5), Err(ExecFault::IpOverflow));
    let mut m = machine("const r1 1\nhalt");
    assert_eq!(m.run(0), Ok(false));
    assert_eq!(m.registers(), &[0; 8]);
}
