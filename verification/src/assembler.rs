//! The assembler: from source text to a memory image.
use vstd::prelude::*;

use crate::isa::{ADD, COND_COPY, COND_NON_ZERO_FLAG, COND_ZERO_FLAG, CONST, COPY, DIV, HALT, LOAD, MEMORY_SIZE, MULT, STORE, SUB};
use crate::names::{copy_name, same_name, NameMap};
use crate::text::{
    all_white, first_non_white, first_non_white_char, is_blank, parse_i16, parse_i16_spec,
    parse_u16, parse_u16_spec, parse_u8_from, parse_u8_spec, split_words, words,
};

verus! {

/// The characters of `s`.
pub fn chars_of(s: &str) -> (r: Vec<char>)
    ensures
        r@ == s@,
{
    broadcast use vstd::string::group_string_axioms;

    let mut v: Vec<char> = Vec::new();
    for c in it: s.chars()
        invariant
            v@ == it.seq().take(it.index()),
            it.seq() == s@,
    {
        v.push(c);
        assert(v@ =~= it.seq().take(it.index() + 1));
    }
    assert(v@ =~= s@);
    v
}

/// Why a source text does not assemble.
#[derive(Debug, PartialEq, Eq)]
pub enum AsmError {
    /// No token where `instruction` expects a register.
    MissingRegister { instruction: Vec<char> },
    /// The token where `instruction` expects a register does not start with `r`.
    NotARegister { instruction: Vec<char> },
    /// What follows the `r` of a register is not a `u8`.
    RegisterNotInteger { instruction: Vec<char> },
    /// The register index is 8 or more.
    RegisterTooBig,
    /// No token where `instruction` expects a value.
    MissingValue { instruction: Vec<char> },
    /// The value is neither a label reference nor a `u16` nor an `i16`.
    ValueOutOfRange { instruction: Vec<char> },
    /// `cond_copy` lacks its condition flag.
    MissingCondFlag,
    /// `cond_copy` has a flag other than `zero` and `non_zero`.
    UnknownCondFlag { flag: Vec<char> },
    /// `instruction` is followed by a token it does not take.
    TrailingTokens { instruction: Vec<char>, token: Vec<char> },
    /// The first token of a line is no instruction and no label.
    UnknownInstruction { name: Vec<char> },
    /// A label is defined twice.
    LabelRedefinition { name: Vec<char> },
    /// A label is referred to and never defined.
    UnresolvedLabel { name: Vec<char> },
    /// The program does not fit in memory.
    OutOfMemory,
}

/// The mathematical value of an `AsmError`.
pub enum AsmFault {
    MissingRegister { instruction: Seq<char> },
    NotARegister { instruction: Seq<char> },
    RegisterNotInteger { instruction: Seq<char> },
    RegisterTooBig,
    MissingValue { instruction: Seq<char> },
    ValueOutOfRange { instruction: Seq<char> },
    MissingCondFlag,
    UnknownCondFlag { flag: Seq<char> },
    TrailingTokens { instruction: Seq<char>, token: Seq<char> },
    UnknownInstruction { name: Seq<char> },
    LabelRedefinition { name: Seq<char> },
    UnresolvedLabel { name: Seq<char> },
    OutOfMemory,
}

impl View for AsmError {
    type V = AsmFault;

    open spec fn view(&self) -> AsmFault {
        match self {
            AsmError::MissingRegister { instruction } => AsmFault::MissingRegister {
                instruction: instruction@,
            },
            AsmError::NotARegister { instruction } => AsmFault::NotARegister {
                instruction: instruction@,
            },
            AsmError::RegisterNotInteger { instruction } => AsmFault::RegisterNotInteger {
                instruction: instruction@,
            },
            AsmError::RegisterTooBig => AsmFault::RegisterTooBig,
            AsmError::MissingValue { instruction } => AsmFault::MissingValue {
                instruction: instruction@,
            },
            AsmError::ValueOutOfRange { instruction } => AsmFault::ValueOutOfRange {
                instruction: instruction@,
            },
            AsmError::MissingCondFlag => AsmFault::MissingCondFlag,
            AsmError::UnknownCondFlag { flag } => AsmFault::UnknownCondFlag { flag: flag@ },
            AsmError::TrailingTokens { instruction, token } => AsmFault::TrailingTokens {
                instruction: instruction@,
                token: token@,
            },
            AsmError::UnknownInstruction { name } => AsmFault::UnknownInstruction { name: name@ },
            AsmError::LabelRedefinition { name } => AsmFault::LabelRedefinition { name: name@ },
            AsmError::UnresolvedLabel { name } => AsmFault::UnresolvedLabel { name: name@ },
            AsmError::OutOfMemory => AsmFault::OutOfMemory,
        }
    }
}

/// A result with its error taken by its view.
pub open spec fn fault_of<T>(r: Result<T, AsmError>) -> Result<T, AsmFault> {
    match r {
        Ok(v) => Ok(v),
        Err(e) => Err(e@),
    }
}

/// The tokens of a line that are still to be read.
pub struct Tokens {
    /// The remaining tokens, the next one last.
    rest: Vec<Vec<char>>,
}

impl View for Tokens {
    type V = Seq<Seq<char>>;

    closed spec fn view(&self) -> Seq<Seq<char>> {
        self.rest.deep_view().reverse()
    }
}

impl Tokens {
    /// The white-space separated words of `line`.
    pub fn from_chars(line: &[char]) -> (t: Tokens)
        ensures
            t@ == words(line@),
    {
        let mut ws = split_words(line);
        let ghost all = ws.deep_view();
        let mut rest: Vec<Vec<char>> = Vec::new();
        assert(ws@.len() == all.len());
        assert(rest.deep_view().reverse() =~= all.skip(ws@.len() as int));
        while ws.len() > 0
            invariant
                ws.deep_view() == all.take(ws@.len() as int),
                rest.deep_view().reverse() == all.skip(ws@.len() as int),
                ws@.len() <= all.len(),
                rest@.len() + ws@.len() == all.len(),
            decreases ws@.len(),
        {
            let ghost n = ws@.len() as int;
            let ghost old_ws = ws;
            let ghost old_rest = rest;
            let w = ws.pop().unwrap();
            assert(w@ == all[n - 1]) by {
                assert(old_ws.deep_view()[n - 1] == all.take(n)[n - 1]);
            }
            rest.push(w);
            assert(ws.deep_view() =~= all.take(n - 1)) by {
                assert forall|k: int| 0 <= k < n - 1 implies #[trigger] ws.deep_view()[k] == all.take(
                    n - 1,
                )[k] by {
                    assert(ws@[k] == old_ws@[k]);
                    assert(old_ws.deep_view()[k] == all.take(n)[k]);
                }
            }
            assert(rest.deep_view().reverse() =~= all.skip(n - 1)) by {
                assert forall|k: int| 0 <= k < all.len() - (n - 1) implies #[trigger] rest.deep_view().reverse()[k]
                    == all.skip(n - 1)[k] by {
                    if k > 0 {
                        assert(rest@[rest@.len() - 1 - k] == old_rest@[old_rest@.len() - 1 - (k
                            - 1)]);
                        assert(old_rest.deep_view().reverse()[k - 1] == all.skip(n)[k - 1]);
                    } else {
                        assert(rest@[rest@.len() - 1] == w);
                    }
                }
            }
        }
        assert(all.skip(0) =~= all);
        Tokens { rest }
    }

    /// The white-space separated words of `line`.
    pub fn new(line: &str) -> (t: Tokens)
        ensures
            t@ == words(line@),
    {
        let cs = chars_of(line);
        Tokens::from_chars(cs.as_slice())
    }

    /// Takes the next token, if any.
    pub fn next(&mut self) -> (r: Option<Vec<char>>)
        ensures
            old(self)@.len() == 0 ==> r is None && final(self)@ == old(self)@,
            old(self)@.len() > 0 ==> (r matches Some(w) && w@ == old(self)@[0] && final(self)@
                == old(self)@.drop_first()),
    {
        let ghost old_rest = self.rest;
        let r = self.rest.pop();
        proof {
            if old_rest@.len() > 0 {
                assert(self.rest.deep_view().reverse() =~= old_rest.deep_view().reverse().drop_first())
                    by {
                    assert forall|k: int| 0 <= k < self.rest@.len() implies #[trigger] self.rest.deep_view().reverse()[k]
                        == old_rest.deep_view().reverse().drop_first()[k] by {
                        assert(self.rest@[self.rest@.len() - 1 - k] == old_rest@[old_rest@.len() - 1
                            - (k + 1)]);
                    }
                }
                assert(old_rest.deep_view().reverse()[0] == old_rest@[old_rest@.len() - 1]@);
            } else {
                assert(old_rest.deep_view().reverse() =~= Seq::<Seq<char>>::empty());
            }
        }
        r
    }

    /// Whether no token is left.
    pub fn is_empty(&self) -> (b: bool)
        ensures
            b == (self@.len() == 0),
    {
        self.rest.len() == 0
    }
}

/// Reading a register operand of `instruction` from the tokens `t`: the
/// result, and the tokens left.
pub open spec fn register_step(t: Seq<Seq<char>>, instruction: Seq<char>) -> (
    Result<u8, AsmFault>,
    Seq<Seq<char>>,
) {
    if t.len() == 0 {
        (Err(AsmFault::MissingRegister { instruction }), t)
    } else {
        let w = t[0];
        let rest = t.drop_first();
        if w.len() == 0 || w[0] != 'r' {
            (Err(AsmFault::NotARegister { instruction }), rest)
        } else {
            match parse_u8_spec(w.drop_first()) {
                None => (Err(AsmFault::RegisterNotInteger { instruction }), rest),
                Some(r) => if r >= 8 {
                    (Err(AsmFault::RegisterTooBig), rest)
                } else {
                    (Ok(r), rest)
                },
            }
        }
    }
}

fn register_operand(tokens: &mut Tokens, instruction: &[char]) -> (r: Result<u8, AsmError>)
    ensures
        (fault_of(r), final(tokens)@) == register_step(old(tokens)@, instruction@),
{
    match tokens.next() {
        None => Err(AsmError::MissingRegister { instruction: copy_name(instruction) }),
        Some(w) => {
            if w.len() == 0 || w[0] != 'r' {
                return Err(AsmError::NotARegister { instruction: copy_name(instruction) });
            }
            assert(w@.drop_first() =~= w@.skip(1));
            match parse_u8_from(w.as_slice(), 1) {
                None => Err(AsmError::RegisterNotInteger { instruction: copy_name(instruction) }),
                Some(reg) => {
                    if reg >= 8 {
                        Err(AsmError::RegisterTooBig)
                    } else {
                        Ok(reg)
                    }
                },
            }
        },
    }
}

/// Checks the next token as a register operand of the instruction
/// `instruction_name`, and reads it: `r` followed by what `u8::from_str`
/// reads as a number below 8, or the error that says why it is not one.
pub fn read_register(tokens: &mut Tokens, instruction_name: &str) -> (r: Result<u8, AsmError>)
    ensures
        (fault_of(r), final(tokens)@) == register_step(old(tokens)@, instruction_name@),
        r matches Ok(reg) ==> reg < 8,
{
    let instruction = chars_of(instruction_name);
    register_operand(tokens, instruction.as_slice())
}

/// Reads the next token as a register operand of the instruction
/// `instruction_name`: `r` followed by what `u8::from_str` reads as a number
/// below 8. The token must be one (`read_register` checks it).
pub fn validate_register(tokens: &mut Tokens, instruction_name: &str) -> (r: u8)
    requires
        register_step(old(tokens)@, instruction_name@).0 is Ok,
    ensures
        (Ok::<u8, AsmFault>(r), final(tokens)@) == register_step(old(tokens)@, instruction_name@),
        r < 8,
{
    let instruction = chars_of(instruction_name);
    match register_operand(tokens, instruction.as_slice()) {
        Ok(reg) => reg,
        Err(_) => {
            proof {
                assert(false);
            }
            0
        },
    }
}

/// Reading a value operand of `instruction` at address `ip` from the tokens
/// `t`, with the labels defined so far and the references still waiting for
/// a label: the result, the tokens left, and the waiting references after.
pub open spec fn value_step(
    t: Seq<Seq<char>>,
    ip: u16,
    labels: Map<Seq<char>, u16>,
    pending: Map<Seq<char>, Seq<u16>>,
    instruction: Seq<char>,
) -> (Result<u16, AsmFault>, Seq<Seq<char>>, Map<Seq<char>, Seq<u16>>) {
    if t.len() == 0 {
        (Err(AsmFault::MissingValue { instruction }), t, pending)
    } else {
        let w = t[0];
        let rest = t.drop_first();
        if w.len() > 0 && w[0] == ':' {
            let name = w.drop_first();
            if labels.contains_key(name) {
                (Ok(labels[name]), rest, pending)
            } else {
                (Ok(0), rest, pending.insert(name, waiting_at(pending, name).push(ip)))
            }
        } else {
            match parse_u16_spec(w) {
                Some(v) => (Ok(v), rest, pending),
                None => match parse_i16_spec(w) {
                    Some(v) => (Ok(v as u16), rest, pending),
                    None => (Err(AsmFault::ValueOutOfRange { instruction }), rest, pending),
                },
            }
        }
    }
}

/// The addresses that wait for `name` in `pending`.
pub open spec fn waiting_at(pending: Map<Seq<char>, Seq<u16>>, name: Seq<char>) -> Seq<u16> {
    if pending.contains_key(name) {
        pending[name]
    } else {
        Seq::empty()
    }
}

/// Checks the next token as a value operand of the instruction
/// `instruction_name` whose value is to be written at `ip`, and reads it as
/// `validate_value` does, or gives the error that says why it is not one.
pub fn read_value(
    tokens: &mut Tokens,
    ip: u16,
    labels: &NameMap<u16>,
    to_be_found_labels: &mut NameMap<Vec<u16>>,
    instruction_name: &str,
) -> (r: Result<u16, AsmError>)
    requires
        labels.wf(),
        old(to_be_found_labels).wf(),
    ensures
        final(to_be_found_labels).wf(),
        (fault_of(r), final(tokens)@, final(to_be_found_labels)@) == value_step(
            old(tokens)@,
            ip,
            labels@,
            old(to_be_found_labels)@,
            instruction_name@,
        ),
{
    let instruction = chars_of(instruction_name);
    value_operand(tokens, ip, labels, to_be_found_labels, instruction.as_slice())
}

/// Reads the next token as a value operand of the instruction
/// `instruction_name` whose value is to be written at `ip`: `:name` gives the
/// address of the label `name` when it is defined, and otherwise records `ip`
/// as waiting for it and gives 0; any other token is read by `u16::from_str`,
/// failing that by `i16::from_str` (taken in two's complement). The token
/// must be one of these (`read_value` checks it).
pub fn validate_value(
    tokens: &mut Tokens,
    ip: u16,
    labels: &NameMap<u16>,
    to_be_found_labels: &mut NameMap<Vec<u16>>,
    instruction_name: &str,
) -> (r: u16)
    requires
        labels.wf(),
        old(to_be_found_labels).wf(),
        value_step(old(tokens)@, ip, labels@, old(to_be_found_labels)@, instruction_name@).0 is Ok,
    ensures
        final(to_be_found_labels).wf(),
        (Ok::<u16, AsmFault>(r), final(tokens)@, final(to_be_found_labels)@) == value_step(
            old(tokens)@,
            ip,
            labels@,
            old(to_be_found_labels)@,
            instruction_name@,
        ),
{
    let instruction = chars_of(instruction_name);
    match value_operand(tokens, ip, labels, to_be_found_labels, instruction.as_slice()) {
        Ok(v) => v,
        Err(_) => {
            proof {
                assert(false);
            }
            0
        },
    }
}

fn value_operand(
    tokens: &mut Tokens,
    ip: u16,
    labels: &NameMap<u16>,
    pending: &mut NameMap<Vec<u16>>,
    instruction: &[char],
) -> (r: Result<u16, AsmError>)
    requires
        labels.wf(),
        old(pending).wf(),
    ensures
        final(pending).wf(),
        (fault_of(r), final(tokens)@, final(pending)@) == value_step(
            old(tokens)@,
            ip,
            labels@,
            old(pending)@,
            instruction@,
        ),
{
    match tokens.next() {
        None => Err(AsmError::MissingValue { instruction: copy_name(instruction) }),
        Some(w) => {
            if w.len() > 0 && w[0] == ':' {
                let name = crate::text::copy_range(w.as_slice(), 1, w.len());
                assert(name@ =~= w@.drop_first());
                match labels.get(name.as_slice()) {
                    Some(a) => Ok(*a),
                    None => {
                        pending.push_to(name.as_slice(), ip);
                        Ok(0)
                    },
                }
            } else {
                match parse_u16(w.as_slice()) {
                    Some(v) => Ok(v),
                    None => match parse_i16(w.as_slice()) {
                        Some(v) => Ok(v as u16),
                        None => Err(AsmError::ValueOutOfRange { instruction: copy_name(instruction) }),
                    },
                }
            }
        },
    }
}

/// Recognising the first word of a line.
pub enum Mnemonic {
    Halt,
    Const,
    /// `add`, `sub`, `mult`, `div`: a destination and two source registers.
    Arith { opcode: u8 },
    /// `copy`, `load`, `store`: two registers.
    Pair { opcode: u8 },
    CondCopy,
    /// A word that starts with `:` defines a label.
    Label,
    Unknown,
}

/// The kind of instruction that the word `w` names.
pub open spec fn mnemonic_of(w: Seq<char>) -> Mnemonic {
    if w == seq!['h', 'a', 'l', 't'] {
        Mnemonic::Halt
    } else if w == seq!['c', 'o', 'n', 's', 't'] {
        Mnemonic::Const
    } else if w == seq!['a', 'd', 'd'] {
        Mnemonic::Arith { opcode: ADD }
    } else if w == seq!['s', 'u', 'b'] {
        Mnemonic::Arith { opcode: SUB }
    } else if w == seq!['m', 'u', 'l', 't'] {
        Mnemonic::Arith { opcode: MULT }
    } else if w == seq!['d', 'i', 'v'] {
        Mnemonic::Arith { opcode: DIV }
    } else if w == seq!['c', 'o', 'p', 'y'] {
        Mnemonic::Pair { opcode: COPY }
    } else if w == seq!['l', 'o', 'a', 'd'] {
        Mnemonic::Pair { opcode: LOAD }
    } else if w == seq!['s', 't', 'o', 'r', 'e'] {
        Mnemonic::Pair { opcode: STORE }
    } else if w == seq!['c', 'o', 'n', 'd', '_', 'c', 'o', 'p', 'y'] {
        Mnemonic::CondCopy
    } else if w.len() > 0 && w[0] == ':' {
        Mnemonic::Label
    } else {
        Mnemonic::Unknown
    }
}

fn classify(w: &[char]) -> (m: Mnemonic)
    ensures
        m == mnemonic_of(w@),
{
    if same_name(w, &['h', 'a', 'l', 't']) {
        Mnemonic::Halt
    } else if same_name(w, &['c', 'o', 'n', 's', 't']) {
        Mnemonic::Const
    } else if same_name(w, &['a', 'd', 'd']) {
        Mnemonic::Arith { opcode: ADD }
    } else if same_name(w, &['s', 'u', 'b']) {
        Mnemonic::Arith { opcode: SUB }
    } else if same_name(w, &['m', 'u', 'l', 't']) {
        Mnemonic::Arith { opcode: MULT }
    } else if same_name(w, &['d', 'i', 'v']) {
        Mnemonic::Arith { opcode: DIV }
    } else if same_name(w, &['c', 'o', 'p', 'y']) {
        Mnemonic::Pair { opcode: COPY }
    } else if same_name(w, &['l', 'o', 'a', 'd']) {
        Mnemonic::Pair { opcode: LOAD }
    } else if same_name(w, &['s', 't', 'o', 'r', 'e']) {
        Mnemonic::Pair { opcode: STORE }
    } else if same_name(w, &['c', 'o', 'n', 'd', '_', 'c', 'o', 'p', 'y']) {
        Mnemonic::CondCopy
    } else if w.len() > 0 && w[0] == ':' {
        Mnemonic::Label
    } else {
        Mnemonic::Unknown
    }
}

/// The state of an assembly in progress.
pub struct AsmView {
    /// The memory image.
    pub ram: Seq<u8>,
    /// The address of the next byte to write.
    pub ip: nat,
    /// The address of each label defined so far.
    pub labels: Map<Seq<char>, u16>,
    /// For each label referred to before its definition, the addresses of the
    /// two-byte values that wait for it.
    pub pending: Map<Seq<char>, Seq<u16>>,
}

/// The high byte of a 16-bit value.
pub open spec fn high_byte(v: u16) -> u8 {
    (v / 256) as u8
}

/// The low byte of a 16-bit value.
pub open spec fn low_byte(v: u16) -> u8 {
    (v % 256) as u8
}

/// `ip` as a 16-bit address (what `as u16` gives for `ip <= 65536`).
pub open spec fn address_of(ip: nat) -> u16 {
    if ip < 65536 {
        ip as u16
    } else {
        0
    }
}

/// There is room for one more byte.
pub open spec fn room(s: AsmView) -> bool {
    s.ip < MEMORY_SIZE
}

/// Writes `b` at `s.ip` and moves past it.
pub open spec fn emit(s: AsmView, b: u8) -> AsmView {
    AsmView { ram: s.ram.update(s.ip as int, b), ip: s.ip + 1, labels: s.labels, pending: s.pending }
}

/// Refuses tokens left after an instruction.
pub open spec fn end_of_line(s: AsmView, instruction: Seq<char>, t: Seq<Seq<char>>) -> Result<
    AsmView,
    AsmFault,
> {
    if t.len() > 0 {
        Err(AsmFault::TrailingTokens { instruction, token: t[0] })
    } else {
        Ok(s)
    }
}

/// `halt`: one byte.
pub open spec fn halt_step(s: AsmView, w: Seq<char>, t: Seq<Seq<char>>) -> Result<AsmView, AsmFault> {
    if !room(s) {
        Err(AsmFault::OutOfMemory)
    } else {
        end_of_line(emit(s, (HALT * 8) as u8), w, t)
    }
}

/// `const rD value`: the operation byte, then the value, high byte first.
pub open spec fn const_step(s: AsmView, w: Seq<char>, t: Seq<Seq<char>>) -> Result<AsmView, AsmFault> {
    let (r, t1) = register_step(t, w);
    match r {
        Err(e) => Err(e),
        Ok(dest) => if !room(s) {
            Err(AsmFault::OutOfMemory)
        } else {
            let s1 = emit(s, (CONST * 8 + dest) as u8);
            let (v, t2, p) = value_step(t1, address_of(s1.ip), s1.labels, s1.pending, w);
            match v {
                Err(e) => Err(e),
                Ok(val) => {
                    let s2 = AsmView { ram: s1.ram, ip: s1.ip, labels: s1.labels, pending: p };
                    if !room(s2) {
                        Err(AsmFault::OutOfMemory)
                    } else {
                        let s3 = emit(s2, high_byte(val));
                        if !room(s3) {
                            Err(AsmFault::OutOfMemory)
                        } else {
                            end_of_line(emit(s3, low_byte(val)), w, t2)
                        }
                    }
                },
            }
        },
    }
}

/// `add`/`sub`/`mult`/`div rD rA rB`: the operation byte, then `rA` in the
/// top three bits and `rB` in the three below.
pub open spec fn arith_step(s: AsmView, opcode: u8, w: Seq<char>, t: Seq<Seq<char>>) -> Result<
    AsmView,
    AsmFault,
> {
    let (r, t1) = register_step(t, w);
    match r {
        Err(e) => Err(e),
        Ok(dest) => if !room(s) {
            Err(AsmFault::OutOfMemory)
        } else {
            let s1 = emit(s, (opcode * 8 + dest) as u8);
            let (ra, t2) = register_step(t1, w);
            match ra {
                Err(e) => Err(e),
                Ok(a) => {
                    let (rb, t3) = register_step(t2, w);
                    match rb {
                        Err(e) => Err(e),
                        Ok(b) => if !room(s1) {
                            Err(AsmFault::OutOfMemory)
                        } else {
                            end_of_line(emit(s1, (a * 32 + b * 4) as u8), w, t3)
                        },
                    }
                },
            }
        },
    }
}

/// `copy`/`load`/`store rD rS`: the operation byte, then `rS` in the top
/// three bits.
pub open spec fn pair_step(s: AsmView, opcode: u8, w: Seq<char>, t: Seq<Seq<char>>) -> Result<
    AsmView,
    AsmFault,
> {
    let (r, t1) = register_step(t, w);
    match r {
        Err(e) => Err(e),
        Ok(dest) => if !room(s) {
            Err(AsmFault::OutOfMemory)
        } else {
            let s1 = emit(s, (opcode * 8 + dest) as u8);
            let (rs, t2) = register_step(t1, w);
            match rs {
                Err(e) => Err(e),
                Ok(src) => if !room(s1) {
                    Err(AsmFault::OutOfMemory)
                } else {
                    end_of_line(emit(s1, (src * 32) as u8), w, t2)
                },
            }
        },
    }
}

/// Reading the condition flag of `cond_copy`.
pub open spec fn flag_step(t: Seq<Seq<char>>) -> (Result<u8, AsmFault>, Seq<Seq<char>>) {
    if t.len() == 0 {
        (Err(AsmFault::MissingCondFlag), t)
    } else if t[0] == seq!['z', 'e', 'r', 'o'] {
        (Ok(COND_ZERO_FLAG), t.drop_first())
    } else if t[0] == seq!['n', 'o', 'n', '_', 'z', 'e', 'r', 'o'] {
        (Ok(COND_NON_ZERO_FLAG), t.drop_first())
    } else {
        (Err(AsmFault::UnknownCondFlag { flag: t[0] }), t.drop_first())
    }
}

/// `cond_copy rD rC flag rS`: the operation byte, then `rC`, `rS` and the
/// flag from the top bits down. Tokens after `rS` are not looked at.
pub open spec fn cond_step(s: AsmView, w: Seq<char>, t: Seq<Seq<char>>) -> Result<AsmView, AsmFault> {
    let (r, t1) = register_step(t, w);
    match r {
        Err(e) => Err(e),
        Ok(dest) => if !room(s) {
            Err(AsmFault::OutOfMemory)
        } else {
            let s1 = emit(s, (COND_COPY * 8 + dest) as u8);
            let (rc, t2) = register_step(t1, w);
            match rc {
                Err(e) => Err(e),
                Ok(c) => {
                    let (rf, t3) = flag_step(t2);
                    match rf {
                        Err(e) => Err(e),
                        Ok(f) => {
                            let (rs, _t4) = register_step(t3, w);
                            match rs {
                                Err(e) => Err(e),
                                Ok(src) => if !room(s1) {
                                    Err(AsmFault::OutOfMemory)
                                } else {
                                    Ok(emit(s1, (c * 32 + src * 4 + f) as u8))
                                },
                            }
                        },
                    }
                },
            }
        },
    }
}

/// Writes `addr`, high byte first, at each of `locs` in turn.
pub open spec fn patch(ram: Seq<u8>, locs: Seq<u16>, addr: u16) -> Seq<u8>
    decreases locs.len(),
{
    if locs.len() == 0 {
        ram
    } else {
        let r = patch(ram, locs.drop_last(), addr);
        let l = locs.last() as int;
        r.update(l, high_byte(addr)).update(l + 1, low_byte(addr))
    }
}

/// `:name` defines the label `name` at the current address and fills in the
/// values that wait for it. Tokens after it are not looked at.
pub open spec fn label_step(s: AsmView, w: Seq<char>) -> Result<AsmView, AsmFault> {
    let name = w.drop_first();
    let addr = address_of(s.ip);
    if s.labels.contains_key(name) {
        Err(AsmFault::LabelRedefinition { name })
    } else if s.pending.contains_key(name) {
        Ok(
            AsmView {
                ram: patch(s.ram, s.pending[name], addr),
                ip: s.ip,
                labels: s.labels.insert(name, addr),
                pending: s.pending.remove(name),
            },
        )
    } else {
        Ok(AsmView { ram: s.ram, ip: s.ip, labels: s.labels.insert(name, addr), pending: s.pending })
    }
}

/// Assembling one line: blank lines and lines whose first non-white character
/// is `#` change nothing; otherwise the first word says what the line is.
pub open spec fn line_step(s: AsmView, line: Seq<char>) -> Result<AsmView, AsmFault> {
    if all_white(line) || first_non_white(line) == Some('#') {
        Ok(s)
    } else {
        let t = words(line);
        let w = t[0];
        let rest = t.drop_first();
        match mnemonic_of(w) {
            Mnemonic::Halt => halt_step(s, w, rest),
            Mnemonic::Const => const_step(s, w, rest),
            Mnemonic::Arith { opcode } => arith_step(s, opcode, w, rest),
            Mnemonic::Pair { opcode } => pair_step(s, opcode, w, rest),
            Mnemonic::CondCopy => cond_step(s, w, rest),
            Mnemonic::Label => label_step(s, w),
            Mnemonic::Unknown => Err(AsmFault::UnknownInstruction { name: w }),
        }
    }
}

/// Every address that waits for a label leaves room for a two-byte value.
pub open spec fn waiting_fit(p: Map<Seq<char>, Seq<u16>>) -> bool {
    forall|name: Seq<char>, i: int|
        #![trigger p[name][i]]
        p.contains_key(name) && 0 <= i < p[name].len() ==> p[name][i] + 1 < MEMORY_SIZE
}

/// A state that an assembly can be in between lines.
pub open spec fn valid_state(s: AsmView) -> bool {
    &&& s.ram.len() == MEMORY_SIZE
    &&& s.ip <= MEMORY_SIZE
    &&& waiting_fit(s.pending)
}

/// The result of an exec step, against the result that the spec gives.
pub open spec fn step_agrees(r: Result<(), AsmError>, after: AsmView, expected: Result<AsmView, AsmFault>) -> bool {
    match expected {
        Ok(s) => r is Ok && after == s,
        Err(e) => r matches Err(x) && x@ == e,
    }
}

/// Writes `addr` at each of `locs` in turn, as `patch` says.
fn patch_all(ram: &mut Vec<u8>, locs: &Vec<u16>, addr: u16)
    requires
        old(ram)@.len() == MEMORY_SIZE,
        forall|i: int| 0 <= i < locs@.len() ==> locs@[i] + 1 < MEMORY_SIZE,
    ensures
        final(ram)@ == patch(old(ram)@, locs@, addr),
        final(ram)@.len() == MEMORY_SIZE,
{
    let hi = (addr / 256) as u8;
    let lo = (addr % 256) as u8;
    let mut i: usize = 0;
    assert(locs@.take(0) =~= Seq::<u16>::empty());
    while i < locs.len()
        invariant
            i <= locs@.len(),
            ram@.len() == MEMORY_SIZE,
            forall|k: int| 0 <= k < locs@.len() ==> locs@[k] + 1 < MEMORY_SIZE,
            ram@ == patch(old(ram)@, locs@.take(i as int), addr),
            hi == high_byte(addr),
            lo == low_byte(addr),
        decreases locs@.len() - i,
    {
        let l = locs[i] as usize;
        assert(locs@[i as int] + 1 < MEMORY_SIZE);
        ram.set(l, hi);
        ram.set(l + 1, lo);
        assert(locs@.take(i + 1).drop_last() =~= locs@.take(i as int));
        i = i + 1;
    }
    assert(locs@.take(locs@.len() as int) =~= locs@);
}

/// The state before the first line: zeroed memory, address 0, no labels.
pub open spec fn initial_state() -> AsmView {
    AsmView {
        ram: Seq::new(MEMORY_SIZE as nat, |i: int| 0u8),
        ip: 0,
        labels: Map::empty(),
        pending: Map::empty(),
    }
}

/// An assembly in progress.
pub struct Assembler {
    ram: Vec<u8>,
    ip: usize,
    labels: NameMap<u16>,
    pending: NameMap<Vec<u16>>,
}

impl View for Assembler {
    type V = AsmView;

    closed spec fn view(&self) -> AsmView {
        AsmView { ram: self.ram@, ip: self.ip as nat, labels: self.labels@, pending: self.pending@ }
    }
}

impl Assembler {
    /// The tables are well formed and the state is valid.
    pub closed spec fn wf(&self) -> bool {
        &&& self.labels.wf()
        &&& self.pending.wf()
        &&& valid_state(self@)
    }

    closed spec fn sound(&self) -> bool {
        &&& self.labels.wf()
        &&& self.pending.wf()
        &&& self.ram@.len() == MEMORY_SIZE
        &&& self.ip <= MEMORY_SIZE
    }

    /// Writes `b` at the current address and moves past it.
    fn put(&mut self, b: u8) -> (r: Result<(), AsmError>)
        requires
            old(self).sound(),
        ensures
            final(self).sound(),
            step_agrees(
                r,
                final(self)@,
                if room(old(self)@) {
                    Ok(emit(old(self)@, b))
                } else {
                    Err(AsmFault::OutOfMemory)
                },
            ),
            final(self)@.pending == old(self)@.pending,
    {
        if self.ip >= MEMORY_SIZE {
            return Err(AsmError::OutOfMemory);
        }
        self.ram.set(self.ip, b);
        self.ip = self.ip + 1;
        Ok(())
    }


    fn halt_line(&mut self, tokens: &mut Tokens, w: &[char]) -> (r: Result<(), AsmError>)
        requires
            old(self).wf(),
        ensures
            step_agrees(r, final(self)@, halt_step(old(self)@, w@, old(tokens)@)),
            r is Ok ==> final(self).wf(),
    {
        match self.put(HALT * 8) {
            Err(e) => return Err(e),
            Ok(()) => {},
        }
        self.end_line(tokens, w)
    }

    fn const_line(&mut self, tokens: &mut Tokens, w: &[char]) -> (r: Result<(), AsmError>)
        requires
            old(self).wf(),
        ensures
            step_agrees(r, final(self)@, const_step(old(self)@, w@, old(tokens)@)),
            r is Ok ==> final(self).wf(),
    {
        let dest = match register_operand(tokens, w) {
            Err(e) => return Err(e),
            Ok(d) => d,
        };
        match self.put(CONST * 8 + dest) {
            Err(e) => return Err(e),
            Ok(()) => {},
        }
        let ghost s1 = self@;
        let at: u16 = if self.ip < 65536 {
            self.ip as u16
        } else {
            0
        };
        let v = match value_operand(tokens, at, &self.labels, &mut self.pending, w) {
            Err(e) => return Err(e),
            Ok(v) => v,
        };
        let ghost s2 = self@;
        match self.put((v / 256) as u8) {
            Err(e) => return Err(e),
            Ok(()) => {},
        }
        match self.put((v % 256) as u8) {
            Err(e) => return Err(e),
            Ok(()) => {},
        }
        proof {
            // The address just written waits only if it leaves room for its
            // two bytes, which it did; the others waited already.
            let p0 = s1.pending;
            assert forall|name: Seq<char>, i: int|
                #![trigger s2.pending[name][i]]
                s2.pending.contains_key(name) && 0 <= i < s2.pending[name].len() implies s2.pending[name][i]
                + 1 < MEMORY_SIZE by {
                if p0.contains_key(name) && i < p0[name].len() {
                    assert(s2.pending[name][i] == p0[name][i]);
                }
            }
        }
        self.end_line(tokens, w)
    }

    fn arith_line(&mut self, tokens: &mut Tokens, opcode: u8, w: &[char]) -> (r: Result<(), AsmError>)
        requires
            old(self).wf(),
            opcode < 32,
        ensures
            step_agrees(r, final(self)@, arith_step(old(self)@, opcode, w@, old(tokens)@)),
            r is Ok ==> final(self).wf(),
    {
        let dest = match register_operand(tokens, w) {
            Err(e) => return Err(e),
            Ok(d) => d,
        };
        match self.put(opcode * 8 + dest) {
            Err(e) => return Err(e),
            Ok(()) => {},
        }
        let a = match register_operand(tokens, w) {
            Err(e) => return Err(e),
            Ok(d) => d,
        };
        let b = match register_operand(tokens, w) {
            Err(e) => return Err(e),
            Ok(d) => d,
        };
        match self.put(a * 32 + b * 4) {
            Err(e) => return Err(e),
            Ok(()) => {},
        }
        self.end_line(tokens, w)
    }

    fn pair_line(&mut self, tokens: &mut Tokens, opcode: u8, w: &[char]) -> (r: Result<(), AsmError>)
        requires
            old(self).wf(),
            opcode < 32,
        ensures
            step_agrees(r, final(self)@, pair_step(old(self)@, opcode, w@, old(tokens)@)),
            r is Ok ==> final(self).wf(),
    {
        let dest = match register_operand(tokens, w) {
            Err(e) => return Err(e),
            Ok(d) => d,
        };
        match self.put(opcode * 8 + dest) {
            Err(e) => return Err(e),
            Ok(()) => {},
        }
        let src = match register_operand(tokens, w) {
            Err(e) => return Err(e),
            Ok(d) => d,
        };
        match self.put(src * 32) {
            Err(e) => return Err(e),
            Ok(()) => {},
        }
        self.end_line(tokens, w)
    }

    fn cond_line(&mut self, tokens: &mut Tokens, w: &[char]) -> (r: Result<(), AsmError>)
        requires
            old(self).wf(),
        ensures
            step_agrees(r, final(self)@, cond_step(old(self)@, w@, old(tokens)@)),
            r is Ok ==> final(self).wf(),
    {
        let dest = match register_operand(tokens, w) {
            Err(e) => return Err(e),
            Ok(d) => d,
        };
        match self.put(COND_COPY * 8 + dest) {
            Err(e) => return Err(e),
            Ok(()) => {},
        }
        let c = match register_operand(tokens, w) {
            Err(e) => return Err(e),
            Ok(d) => d,
        };
        let f = match tokens.next() {
            None => return Err(AsmError::MissingCondFlag),
            Some(tok) => {
                if same_name(tok.as_slice(), &['z', 'e', 'r', 'o']) {
                    COND_ZERO_FLAG
                } else if same_name(tok.as_slice(), &['n', 'o', 'n', '_', 'z', 'e', 'r', 'o']) {
                    COND_NON_ZERO_FLAG
                } else {
                    return Err(AsmError::UnknownCondFlag { flag: tok });
                }
            },
        };
        let src = match register_operand(tokens, w) {
            Err(e) => return Err(e),
            Ok(d) => d,
        };
        self.put(c * 32 + src * 4 + f)
    }

    fn label_line(&mut self, w: &[char]) -> (r: Result<(), AsmError>)
        requires
            old(self).wf(),
            w@.len() > 0,
        ensures
            step_agrees(r, final(self)@, label_step(old(self)@, w@)),
            r is Ok ==> final(self).wf(),
    {
        let name = crate::text::copy_range(w, 1, w.len());
        assert(name@ =~= w@.drop_first());
        let addr: u16 = if self.ip < 65536 {
            self.ip as u16
        } else {
            0
        };
        let was = self.labels.insert(copy_name(name.as_slice()), addr);
        if was {
            return Err(AsmError::LabelRedefinition { name });
        }
        let ghost p0 = self@.pending;
        match self.pending.remove(name.as_slice()) {
            Some(locs) => {
                proof {
                    assert forall|i: int| 0 <= i < locs@.len() implies locs@[i] + 1 < MEMORY_SIZE by {
                        assert(p0[name@][i] == locs@[i]);
                    }
                }
                patch_all(&mut self.ram, &locs, addr);
            },
            None => {
                assert(self@.pending =~= p0);
            },
        }
        proof {
            let p = self@.pending;
            assert forall|n: Seq<char>, i: int|
                #![trigger p[n][i]]
                p.contains_key(n) && 0 <= i < p[n].len() implies p[n][i] + 1 < MEMORY_SIZE by {
                assert(p[n] == p0[n]);
                assert(p0[n][i] == p[n][i]);
            }
        }
        Ok(())
    }


    /// A fresh assembly: zeroed memory at address 0, no labels.
    pub fn new() -> (a: Assembler)
        ensures
            a.wf(),
            a@ == initial_state(),
    {
        let mut ram: Vec<u8> = Vec::new();
        while ram.len() < MEMORY_SIZE
            invariant
                ram@.len() <= MEMORY_SIZE,
                forall|k: int| 0 <= k < ram@.len() ==> ram@[k] == 0,
            decreases MEMORY_SIZE - ram@.len(),
        {
            ram.push(0);
        }
        let a = Assembler { ram, ip: 0, labels: NameMap::new(), pending: NameMap::new() };
        assert(a@.ram =~= initial_state().ram);
        a
    }

    /// Assembles one line of source text.
    pub fn assemble_line(&mut self, line: &[char]) -> (r: Result<(), AsmError>)
        requires
            old(self).wf(),
        ensures
            step_agrees(r, final(self)@, line_step(old(self)@, line@)),
            r is Ok ==> final(self).wf(),
    {
        if is_blank(line) {
            return Ok(());
        }
        match first_non_white_char(line) {
            Some(c) => {
                if c == '#' {
                    return Ok(());
                }
            },
            None => {},
        }
        let mut tokens = Tokens::from_chars(line);
        let w = match tokens.next() {
            Some(w) => w,
            None => {
                proof {
                    crate::text::lemma_words_nonempty(line@);
                }
                return Ok(());
            },
        };
        match classify(w.as_slice()) {
            Mnemonic::Halt => self.halt_line(&mut tokens, w.as_slice()),
            Mnemonic::Const => self.const_line(&mut tokens, w.as_slice()),
            Mnemonic::Arith { opcode } => self.arith_line(&mut tokens, opcode, w.as_slice()),
            Mnemonic::Pair { opcode } => self.pair_line(&mut tokens, opcode, w.as_slice()),
            Mnemonic::CondCopy => self.cond_line(&mut tokens, w.as_slice()),
            Mnemonic::Label => self.label_line(w.as_slice()),
            Mnemonic::Unknown => Err(AsmError::UnknownInstruction { name: w }),
        }
    }

    /// Ends the assembly: the memory image, unless a label is still awaited.
    pub fn finish(self) -> (r: Result<Vec<u8>, AsmError>)
        requires
            self.wf(),
        ensures
            self@.pending == Map::<Seq<char>, Seq<u16>>::empty() ==> (r matches Ok(img) && img@
                == self@.ram),
            self@.pending != Map::<Seq<char>, Seq<u16>>::empty() ==> (r matches Err(
                AsmError::UnresolvedLabel { name },
            ) && self@.pending.contains_key(name@)),
    {
        match self.pending.any_name() {
            Some(name) => Err(AsmError::UnresolvedLabel { name }),
            None => Ok(self.ram),
        }
    }

    fn end_line(&self, tokens: &mut Tokens, w: &[char]) -> (r: Result<(), AsmError>)
        ensures
            step_agrees(r, self@, end_of_line(self@, w@, old(tokens)@)),
    {
        match tokens.next() {
            Some(tok) => Err(AsmError::TrailingTokens { instruction: copy_name(w), token: tok }),
            None => Ok(()),
        }
    }
}

/// Number of characters before the first line feed (or the end).
pub open spec fn line_len(s: Seq<char>) -> nat
    decreases s.len(),
{
    if s.len() == 0 || s[0] == '\n' {
        0
    } else {
        1 + line_len(s.drop_first())
    }
}

proof fn lemma_line_len(s: Seq<char>, m: int)
    requires
        0 <= m <= s.len(),
        forall|k: int| 0 <= k < m ==> #[trigger] s[k] != '\n',
        m == s.len() || s[m] == '\n',
    ensures
        line_len(s) == m,
    decreases m,
{
    if m > 0 {
        let t = s.drop_first();
        assert forall|k: int| 0 <= k < m - 1 implies #[trigger] t[k] != '\n' by {
            assert(t[k] == s[k + 1]);
        }
        if m - 1 < t.len() {
            assert(t[m - 1] == s[m]);
        }
        lemma_line_len(t, m - 1);
    }
}

pub proof fn lemma_line_len_bound(s: Seq<char>)
    ensures
        line_len(s) <= s.len(),
    decreases s.len(),
{
    if s.len() > 0 && s[0] != '\n' {
        lemma_line_len_bound(s.drop_first());
    }
}

/// Assembling the lines of `s` one after the other from the state `st`,
/// stopping at the first error. Lines end at line feeds; a carriage return
/// before a line feed is white space and so changes nothing.
pub open spec fn run_lines(st: AsmView, s: Seq<char>) -> Result<AsmView, AsmFault>
    decreases s.len(),
{
    let n = line_len(s);
    match line_step(st, s.take(n as int)) {
        Err(e) => Err(e),
        Ok(st2) => if n < s.len() {
            run_lines(st2, s.skip(n as int + 1))
        } else {
            Ok(st2)
        },
    }
}

/// What assembling `source` gives: the memory image, or the first error.
/// When labels are still awaited at the end, the error names one of them.
pub open spec fn assembled(source: Seq<char>, r: Result<Vec<u8>, AsmError>) -> bool {
    match run_lines(initial_state(), source) {
        Err(e) => r matches Err(x) && x@ == e,
        Ok(fin) => if fin.pending == Map::<Seq<char>, Seq<u16>>::empty() {
            r matches Ok(img) && img@ == fin.ram
        } else {
            r matches Err(AsmError::UnresolvedLabel { name }) && fin.pending.contains_key(name@)
        },
    }
}

/// Assembles a whole program into a 65536-byte memory image.
pub fn assemble(source: &str) -> (r: Result<Vec<u8>, AsmError>)
    ensures
        assembled(source@, r),
        r matches Ok(img) ==> img@.len() == MEMORY_SIZE,
{
    let cs = chars_of(source);
    let n = cs.len();
    let mut state = Assembler::new();
    let mut i: usize = 0;
    let mut finished = false;
    assert(cs@.skip(0) =~= cs@);
    while !finished
        invariant
            n == cs@.len(),
            cs@ == source@,
            i <= n,
            state.wf(),
            finished ==> run_lines(initial_state(), source@) == Ok::<AsmView, AsmFault>(state@),
            !finished ==> run_lines(initial_state(), source@) == run_lines(state@, cs@.skip(i as int)),
        decreases n - i + (if finished {
            0int
        } else {
            1int
        }),
    {
        let mut j: usize = i;
        while j < n && cs[j] != '\n'
            invariant
                n == cs@.len(),
                i <= j <= n,
                forall|k: int| i <= k < j ==> #[trigger] cs@[k] != '\n',
            decreases n - j,
        {
            j = j + 1;
        }
        let ghost rest = cs@.skip(i as int);
        proof {
            assert forall|k: int| 0 <= k < j - i implies #[trigger] rest[k] != '\n' by {
                assert(rest[k] == cs@[i + k]);
            }
            if j < n {
                assert(rest[j - i] == cs@[j as int]);
            }
            lemma_line_len(rest, j - i);
        }
        let line = crate::text::copy_range(cs.as_slice(), i, j);
        assert(line@ =~= rest.take(j - i));
        match state.assemble_line(line.as_slice()) {
            Err(e) => return Err(e),
            Ok(()) => {},
        }
        if j < n {
            assert(rest.skip(j - i + 1) =~= cs@.skip(j + 1));
            i = j + 1;
        } else {
            finished = true;
        }
    }
    state.finish()
}

} // verus!
