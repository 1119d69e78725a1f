//! Label references: every value written as `:name` ends up holding the
//! address at which `name` is defined.
use vstd::prelude::*;

use crate::assembler::{assembled, AsmError, initial_state, label_step, run_lines, const_step, emit, value_step, waiting_at, AsmFault, arith_step, cond_step, halt_step, pair_step, address_of, high_byte, line_len, line_step, low_byte, mnemonic_of, patch, register_step, valid_state, AsmView, Mnemonic};
use crate::isa::{CONST, MEMORY_SIZE};
use crate::text::{all_white, first_non_white, words};

verus! {

/// A label reference: the label's name and the address of the two-byte value
/// that is to hold the label's address.
pub type LabelRef = (Seq<char>, u16);

/// The label reference that a line makes: a `const` whose value is `:name`.
pub open spec fn line_refs(s: AsmView, line: Seq<char>) -> Seq<LabelRef> {
    if all_white(line) || first_non_white(line) == Some('#') {
        Seq::empty()
    } else {
        let t = words(line);
        if mnemonic_of(t[0]) is Const {
            let (_r, t1) = register_step(t.drop_first(), t[0]);
            if t1.len() > 0 && t1[0].len() > 0 && t1[0][0] == ':' {
                seq![(t1[0].drop_first(), address_of(s.ip + 1))]
            } else {
                Seq::empty()
            }
        } else {
            Seq::empty()
        }
    }
}

/// The label references of the lines of `s` that assemble, in order, from
/// the state `st` (as `run_lines` goes through them).
pub open spec fn run_refs(st: AsmView, s: Seq<char>) -> Seq<LabelRef>
    decreases s.len(),
{
    let n = line_len(s);
    let line = s.take(n as int);
    match line_step(st, line) {
        Err(_) => Seq::empty(),
        Ok(st2) => line_refs(st, line) + if n < s.len() {
            run_refs(st2, s.skip(n as int + 1))
        } else {
            Seq::empty()
        },
    }
}

/// The value at `l` holds `a`, high byte first.
pub open spec fn holds_address(ram: Seq<u8>, l: u16, a: u16) -> bool {
    ram[l as int] == high_byte(a) && ram[l + 1] == low_byte(a)
}

/// Every address waiting for a label is that of a reference to it.
pub open spec fn waiting_are_refs(p: Map<Seq<char>, Seq<u16>>, refs: Seq<LabelRef>) -> bool {
    forall|n: Seq<char>, k: int|
        #![trigger p[n][k]]
        p.contains_key(n) && 0 <= k < p[n].len() ==> exists|i: int|
            0 <= i < refs.len() && #[trigger] refs[i] == (n, p[n][k])
}

/// The addresses waiting for each label ascend, two bytes apart at least.
pub open spec fn waiting_ascend(p: Map<Seq<char>, Seq<u16>>) -> bool {
    forall|n: Seq<char>, j: int, k: int|
        #![trigger p[n][j], p[n][k]]
        p.contains_key(n) && 0 <= j < k < p[n].len() ==> p[n][j] + 2 <= p[n][k]
}

/// Between lines, each reference made so far either holds the address of
/// its label, when the label is defined, or waits for it.
pub open spec fn refs_invariant(s: AsmView, refs: Seq<LabelRef>) -> bool {
    &&& valid_state(s)
    &&& forall|n: Seq<char>| !(#[trigger] s.labels.contains_key(n) && s.pending.contains_key(n))
    &&& forall|i: int| 0 <= i < refs.len() ==> #[trigger] refs[i].1 + 1 < s.ip
    &&& forall|i: int, j: int|
        0 <= i < j < refs.len() ==> #[trigger] refs[i].1 + 2 <= #[trigger] refs[j].1
    &&& forall|i: int|
        0 <= i < refs.len() ==> if s.labels.contains_key(#[trigger] refs[i].0) {
            holds_address(s.ram, refs[i].1, s.labels[refs[i].0])
        } else {
            s.pending.contains_key(refs[i].0) && s.pending[refs[i].0].contains(refs[i].1)
        }
    &&& waiting_are_refs(s.pending, refs)
    &&& waiting_ascend(s.pending)
}

/// What `patch` leaves at each address, when the values it writes do not
/// overlap.
pub proof fn lemma_patch(ram: Seq<u8>, locs: Seq<u16>, a: u16)
    requires
        forall|j: int, k: int| 0 <= j < k < locs.len() ==> locs[j] + 2 <= locs[k],
        forall|j: int| 0 <= j < locs.len() ==> locs[j] + 1 < ram.len(),
    ensures
        patch(ram, locs, a).len() == ram.len(),
        forall|j: int| 0 <= j < locs.len() ==> holds_address(patch(ram, locs, a), #[trigger] locs[j], a),
        forall|x: int|
            0 <= x < ram.len() && (forall|j: int| 0 <= j < locs.len() ==> x != #[trigger] locs[j] && x
                != locs[j] + 1) ==> #[trigger] patch(ram, locs, a)[x] == ram[x],
    decreases locs.len(),
{
    if locs.len() > 0 {
        let init = locs.drop_last();
        lemma_patch(ram, init, a);
        let last = locs.last();
        assert forall|j: int| 0 <= j < locs.len() implies holds_address(patch(ram, locs, a), #[trigger] locs[j], a) by {
            if j < locs.len() - 1 {
                assert(init[j] == locs[j]);
                assert(locs[j] + 2 <= last);
            }
        }
        assert forall|x: int|
            0 <= x < ram.len() && (forall|j: int| 0 <= j < locs.len() ==> x != #[trigger] locs[j] && x
                != locs[j] + 1) implies #[trigger] patch(ram, locs, a)[x] == ram[x] by {
            assert(x != locs[locs.len() - 1] && x != locs[locs.len() - 1] + 1);
            assert forall|j: int| 0 <= j < init.len() implies x != #[trigger] init[j] && x != init[j] + 1 by {
                assert(init[j] == locs[j]);
            }
        }
    }
}

/// `s2` only wrote at or after `s.ip`, and left the labels alone.
pub open spec fn only_wrote_ahead(s: AsmView, s2: AsmView) -> bool {
    &&& s2.labels == s.labels
    &&& s2.pending == s.pending
    &&& s.ip <= s2.ip <= MEMORY_SIZE
    &&& s2.ram.len() == s.ram.len()
    &&& forall|x: int| 0 <= x < s.ip ==> #[trigger] s2.ram[x] == s.ram[x]
}

proof fn lemma_plain_steps(s: AsmView, opcode: u8, w: Seq<char>, t: Seq<Seq<char>>)
    requires
        valid_state(s),
    ensures
        halt_step(s, w, t) matches Ok(s2) ==> only_wrote_ahead(s, s2),
        arith_step(s, opcode, w, t) matches Ok(s2) ==> only_wrote_ahead(s, s2),
        pair_step(s, opcode, w, t) matches Ok(s2) ==> only_wrote_ahead(s, s2),
        cond_step(s, w, t) matches Ok(s2) ==> only_wrote_ahead(s, s2),
{
}

proof fn lemma_plain_keeps_invariant(s: AsmView, s2: AsmView, refs: Seq<LabelRef>)
    requires
        refs_invariant(s, refs),
        only_wrote_ahead(s, s2),
    ensures
        refs_invariant(s2, refs),
{
    assert forall|i: int| 0 <= i < refs.len() implies if s2.labels.contains_key(#[trigger] refs[i].0) {
        holds_address(s2.ram, refs[i].1, s2.labels[refs[i].0])
    } else {
        s2.pending.contains_key(refs[i].0) && s2.pending[refs[i].0].contains(refs[i].1)
    } by {
        assert(refs[i].1 + 1 < s.ip);
        assert(s2.ram[refs[i].1 as int] == s.ram[refs[i].1 as int]);
        assert(s2.ram[refs[i].1 + 1] == s.ram[refs[i].1 + 1]);
    }
    assert(valid_state(s2));
    assert(forall|n: Seq<char>| !(#[trigger] s2.labels.contains_key(n) && s2.pending.contains_key(n)));
    assert(forall|i: int| 0 <= i < refs.len() ==> #[trigger] refs[i].1 + 1 < s2.ip);
}

/// The label reference of a `const` with operand tokens `t`.
pub open spec fn const_ref(s: AsmView, w: Seq<char>, t: Seq<Seq<char>>) -> Seq<LabelRef> {
    let (_r, t1) = register_step(t, w);
    if t1.len() > 0 && t1[0].len() > 0 && t1[0][0] == ':' {
        seq![(t1[0].drop_first(), address_of(s.ip + 1))]
    } else {
        Seq::empty()
    }
}

proof fn lemma_const_keeps_invariant(s: AsmView, w: Seq<char>, t: Seq<Seq<char>>, refs: Seq<LabelRef>)
    requires
        refs_invariant(s, refs),
        const_step(s, w, t) is Ok,
    ensures
        refs_invariant(const_step(s, w, t)->Ok_0, refs + const_ref(s, w, t)),
{
    let (r, t1) = register_step(t, w);
    let dest = r->Ok_0;
    let s1 = emit(s, (CONST * 8 + dest) as u8);
    let loc = address_of(s1.ip);
    assert(loc == s.ip + 1);
    let (v, t2, p) = value_step(t1, loc, s1.labels, s1.pending, w);
    let val = v->Ok_0;
    let s2 = AsmView { ram: s1.ram, ip: s1.ip, labels: s1.labels, pending: p };
    let s3 = emit(s2, high_byte(val));
    let s4 = emit(s3, low_byte(val));
    assert(const_step(s, w, t) == Ok::<AsmView, AsmFault>(s4));
    let new_refs = const_ref(s, w, t);
    let all = refs + new_refs;
    assert(s4.ip == s.ip + 3);
    assert(s4.ram.len() == s.ram.len());
    assert(s4.labels == s.labels);
    assert(s4.pending == p);
    assert forall|x: int| 0 <= x < s.ip implies #[trigger] s4.ram[x] == s.ram[x] by {}
    assert(s4.ram[loc as int] == high_byte(val));
    assert(s4.ram[loc + 1] == low_byte(val));
    assert(loc + 1 < MEMORY_SIZE);
    // What the value operand did to the waiting addresses.
    let is_ref = t1.len() > 0 && t1[0].len() > 0 && t1[0][0] == ':';
    let name = t1[0].drop_first();
    if is_ref {
        assert(new_refs == seq![(name, loc)]);
        if s.labels.contains_key(name) {
            assert(p == s.pending);
            assert(val == s.labels[name]);
        } else {
            assert(p == s.pending.insert(name, waiting_at(s.pending, name).push(loc)));
            assert(val == 0);
        }
    } else {
        assert(new_refs == Seq::<LabelRef>::empty());
        assert(p == s.pending);
    }
    // Every earlier waiting address lies before `s.ip`.
    assert forall|n: Seq<char>, k: int|
        s.pending.contains_key(n) && 0 <= k < s.pending[n].len() implies #[trigger] s.pending[n][k] + 1
        < s.ip by {
        let i = choose|i: int| 0 <= i < refs.len() && #[trigger] refs[i] == (n, s.pending[n][k]);
        assert(refs[i].1 + 1 < s.ip);
    }
    // The waiting addresses after the line.
    assert forall|n: Seq<char>, k: int|
        #![trigger p[n][k]]
        p.contains_key(n) && 0 <= k < p[n].len() implies (s.pending.contains_key(n) && k
        < s.pending[n].len() && p[n][k] == s.pending[n][k]) || (is_ref && n == name && p[n][k]
        == loc && !s.labels.contains_key(name)) by {
        if is_ref && n == name && !s.labels.contains_key(name) {
            let old_list = waiting_at(s.pending, name);
            if k < old_list.len() {
                assert(p[n][k] == old_list[k]);
            }
        }
    }
    assert(valid_state(s4)) by {
        assert forall|n: Seq<char>, k: int|
            #![trigger p[n][k]]
            p.contains_key(n) && 0 <= k < p[n].len() implies p[n][k] + 1 < MEMORY_SIZE by {
            if s.pending.contains_key(n) && k < s.pending[n].len() && p[n][k] == s.pending[n][k] {
                assert(s.pending[n][k] + 1 < s.ip);
            }
        }
    }
    assert forall|n: Seq<char>| !(#[trigger] s4.labels.contains_key(n) && s4.pending.contains_key(n)) by {
        assert(s.labels.contains_key(n) ==> !s.pending.contains_key(n));
    }
    assert forall|i: int| 0 <= i < all.len() implies #[trigger] all[i].1 + 1 < s4.ip by {
        if i < refs.len() {
            assert(all[i] == refs[i]);
        }
    }
    assert forall|i: int, j: int| 0 <= i < j < all.len() implies #[trigger] all[i].1 + 2
        <= #[trigger] all[j].1 by {
        if j < refs.len() {
            assert(all[i] == refs[i] && all[j] == refs[j]);
        } else {
            assert(all[i] == refs[i]);
            assert(refs[i].1 + 1 < s.ip);
        }
    }
    assert forall|i: int| 0 <= i < all.len() implies if s4.labels.contains_key(#[trigger] all[i].0) {
        holds_address(s4.ram, all[i].1, s4.labels[all[i].0])
    } else {
        s4.pending.contains_key(all[i].0) && s4.pending[all[i].0].contains(all[i].1)
    } by {
        if i < refs.len() {
            assert(all[i] == refs[i]);
            assert(refs[i].1 + 1 < s.ip);
            assert(s4.ram[refs[i].1 as int] == s.ram[refs[i].1 as int]);
            assert(s4.ram[refs[i].1 + 1] == s.ram[refs[i].1 + 1]);
            if !s.labels.contains_key(refs[i].0) {
                let n = refs[i].0;
                let l = refs[i].1;
                let k = choose|k: int| 0 <= k < s.pending[n].len() && s.pending[n][k] == l;
                if is_ref && n == name {
                    assert(p[n][k] == l);
                } else {
                    assert(p[n] == s.pending[n]);
                }
            }
        } else {
            assert(all[i] == (name, loc));
            if !s.labels.contains_key(name) {
                let k = waiting_at(s.pending, name).len() as int;
                assert(p[name][k] == loc);
            }
        }
    }
    assert(waiting_are_refs(p, all)) by {
        assert forall|n: Seq<char>, k: int|
            #![trigger p[n][k]]
            p.contains_key(n) && 0 <= k < p[n].len() implies exists|i: int|
                0 <= i < all.len() && #[trigger] all[i] == (n, p[n][k]) by {
            if s.pending.contains_key(n) && k < s.pending[n].len() && p[n][k] == s.pending[n][k] {
                let i = choose|i: int| 0 <= i < refs.len() && #[trigger] refs[i] == (n, s.pending[n][k]);
                assert(all[i] == refs[i]);
            } else {
                assert(all[refs.len() as int] == (name, loc));
            }
        }
    }
    assert(waiting_ascend(p)) by {
        assert forall|n: Seq<char>, j: int, k: int|
            #![trigger p[n][j], p[n][k]]
            p.contains_key(n) && 0 <= j < k < p[n].len() implies p[n][j] + 2 <= p[n][k] by {
            if s.pending.contains_key(n) && k < s.pending[n].len() && p[n][k] == s.pending[n][k] {
                assert(p[n][j] == s.pending[n][j]);
            } else {
                if s.pending.contains_key(n) && j < s.pending[n].len() && p[n][j] == s.pending[n][j] {
                    assert(s.pending[n][j] + 1 < s.ip);
                } else {
                    assert(p[n].len() == waiting_at(s.pending, n).len() + 1);
                }
            }
        }
    }
}

proof fn lemma_label_keeps_invariant(s: AsmView, w: Seq<char>, refs: Seq<LabelRef>)
    requires
        refs_invariant(s, refs),
        label_step(s, w) is Ok,
    ensures
        refs_invariant(label_step(s, w)->Ok_0, refs),
{
    let s2 = label_step(s, w)->Ok_0;
    let name = w.drop_first();
    let addr = address_of(s.ip);
    assert(!s.labels.contains_key(name));
    assert(s2.labels == s.labels.insert(name, addr));
    assert(s2.ip == s.ip);
    if s.pending.contains_key(name) {
        let locs = s.pending[name];
        assert(s2.ram == patch(s.ram, locs, addr));
        assert(s2.pending == s.pending.remove(name));
        assert forall|j: int, k: int| 0 <= j < k < locs.len() implies locs[j] + 2 <= locs[k] by {
            assert(s.pending[name][j] + 2 <= s.pending[name][k]);
        }
        assert forall|j: int| 0 <= j < locs.len() implies locs[j] + 1 < s.ram.len() by {
            assert(s.pending[name][j] + 1 < MEMORY_SIZE);
        }
        lemma_patch(s.ram, locs, addr);
        assert forall|i: int| 0 <= i < refs.len() implies if s2.labels.contains_key(#[trigger] refs[i].0) {
            holds_address(s2.ram, refs[i].1, s2.labels[refs[i].0])
        } else {
            s2.pending.contains_key(refs[i].0) && s2.pending[refs[i].0].contains(refs[i].1)
        } by {
            let n = refs[i].0;
            let l = refs[i].1;
            if n == name {
                let k = choose|k: int| 0 <= k < locs.len() && locs[k] == l;
                assert(holds_address(s2.ram, locs[k], addr));
            } else if s.labels.contains_key(n) {
                assert(l + 1 < s.ip);
                assert forall|j: int| 0 <= j < locs.len() implies l != #[trigger] locs[j] && l != locs[j]
                    + 1 && l + 1 != locs[j] && l + 1 != locs[j] + 1 by {
                    let i2 = choose|i2: int| 0 <= i2 < refs.len() && #[trigger] refs[i2] == (
                        name,
                        s.pending[name][j],
                    );
                    assert(i2 != i);
                    if i < i2 {
                        assert(refs[i].1 + 2 <= refs[i2].1);
                    } else {
                        assert(refs[i2].1 + 2 <= refs[i].1);
                    }
                }
                assert(s2.ram[l as int] == s.ram[l as int]);
                assert(s2.ram[l + 1] == s.ram[l + 1]);
            } else {
                assert(s2.pending[n] == s.pending[n]);
            }
        }
        assert(waiting_are_refs(s2.pending, refs)) by {
            assert forall|n: Seq<char>, k: int|
                #![trigger s2.pending[n][k]]
                s2.pending.contains_key(n) && 0 <= k < s2.pending[n].len() implies exists|i: int|
                    0 <= i < refs.len() && #[trigger] refs[i] == (n, s2.pending[n][k]) by {
                assert(s2.pending[n] == s.pending[n]);
                assert(s.pending[n][k] == s2.pending[n][k]);
            }
        }
        assert(waiting_ascend(s2.pending)) by {
            assert forall|n: Seq<char>, j: int, k: int|
                #![trigger s2.pending[n][j], s2.pending[n][k]]
                s2.pending.contains_key(n) && 0 <= j < k < s2.pending[n].len() implies s2.pending[n][j]
                    + 2 <= s2.pending[n][k] by {
                assert(s2.pending[n] == s.pending[n]);
                assert(s.pending[n][j] + 2 <= s.pending[n][k]);
            }
        }
        assert(valid_state(s2)) by {
            assert forall|n: Seq<char>, i: int|
                #![trigger s2.pending[n][i]]
                s2.pending.contains_key(n) && 0 <= i < s2.pending[n].len() implies s2.pending[n][i] + 1
                    < MEMORY_SIZE by {
                assert(s2.pending[n] == s.pending[n]);
                assert(s.pending[n][i] + 1 < MEMORY_SIZE);
            }
        }
    } else {
        assert(s2.ram == s.ram);
        assert(s2.pending == s.pending);
        assert forall|i: int| 0 <= i < refs.len() implies if s2.labels.contains_key(#[trigger] refs[i].0) {
            holds_address(s2.ram, refs[i].1, s2.labels[refs[i].0])
        } else {
            s2.pending.contains_key(refs[i].0) && s2.pending[refs[i].0].contains(refs[i].1)
        } by {
            if refs[i].0 == name {
                assert(!s.labels.contains_key(name));
            }
        }
    }
}

/// Assembling a line keeps the invariant, with the line's reference added.
pub proof fn lemma_line_keeps_invariant(s: AsmView, line: Seq<char>, refs: Seq<LabelRef>)
    requires
        refs_invariant(s, refs),
        line_step(s, line) is Ok,
    ensures
        refs_invariant(line_step(s, line)->Ok_0, refs + line_refs(s, line)),
{
    if all_white(line) || first_non_white(line) == Some('#') {
        assert(refs + line_refs(s, line) =~= refs);
    } else {
        let t = words(line);
        let w = t[0];
        let rest = t.drop_first();
        match mnemonic_of(w) {
            Mnemonic::Const => {
                lemma_const_keeps_invariant(s, w, rest, refs);
                assert(line_refs(s, line) == const_ref(s, w, rest));
            },
            Mnemonic::Label => {
                lemma_label_keeps_invariant(s, w, refs);
                assert(refs + line_refs(s, line) =~= refs);
            },
            Mnemonic::Halt => {
                lemma_plain_steps(s, 0, w, rest);
                lemma_plain_keeps_invariant(s, line_step(s, line)->Ok_0, refs);
                assert(refs + line_refs(s, line) =~= refs);
            },
            Mnemonic::Arith { opcode } => {
                lemma_plain_steps(s, opcode, w, rest);
                lemma_plain_keeps_invariant(s, line_step(s, line)->Ok_0, refs);
                assert(refs + line_refs(s, line) =~= refs);
            },
            Mnemonic::Pair { opcode } => {
                lemma_plain_steps(s, opcode, w, rest);
                lemma_plain_keeps_invariant(s, line_step(s, line)->Ok_0, refs);
                assert(refs + line_refs(s, line) =~= refs);
            },
            Mnemonic::CondCopy => {
                lemma_plain_steps(s, 0, w, rest);
                lemma_plain_keeps_invariant(s, line_step(s, line)->Ok_0, refs);
                assert(refs + line_refs(s, line) =~= refs);
            },
            Mnemonic::Unknown => {},
        }
    }
}

/// Assembling lines keeps the invariant, with their references added.
pub proof fn lemma_run_keeps_invariant(st: AsmView, s: Seq<char>, refs: Seq<LabelRef>)
    requires
        refs_invariant(st, refs),
        run_lines(st, s) is Ok,
    ensures
        refs_invariant(run_lines(st, s)->Ok_0, refs + run_refs(st, s)),
    decreases s.len(),
{
    let n = line_len(s);
    let line = s.take(n as int);
    lemma_line_keeps_invariant(st, line, refs);
    let st2 = line_step(st, line)->Ok_0;
    let refs2 = refs + line_refs(st, line);
    if n < s.len() {
        lemma_run_keeps_invariant(st2, s.skip(n as int + 1), refs2);
        assert(refs2 + run_refs(st2, s.skip(n as int + 1)) =~= refs + run_refs(st, s));
    } else {
        assert(refs2 =~= refs + run_refs(st, s));
    }
}

/// When `assemble` gives an image, the image is 65536 bytes, and every value
/// written as `:name` in it holds, high byte first, the address at which
/// `name` is defined.
pub proof fn lemma_labels_resolved(source: Seq<char>, r: Result<Vec<u8>, AsmError>)
    requires
        assembled(source, r),
        r is Ok,
    ensures
        ({
            let fin = run_lines(initial_state(), source)->Ok_0;
            let refs = run_refs(initial_state(), source);
            let img = r->Ok_0@;
            &&& img.len() == MEMORY_SIZE
            &&& forall|i: int|
                0 <= i < refs.len() ==> fin.labels.contains_key(#[trigger] refs[i].0)
                    && holds_address(img, refs[i].1, fin.labels[refs[i].0])
        }),
{
    let init = initial_state();
    assert(refs_invariant(init, Seq::<LabelRef>::empty()));
    lemma_run_keeps_invariant(init, source, Seq::<LabelRef>::empty());
    assert(Seq::<LabelRef>::empty() + run_refs(init, source) =~= run_refs(init, source));
}

} // verus!
