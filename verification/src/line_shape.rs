//! An instruction line takes its operands and nothing more.
use vstd::prelude::*;

use crate::assembler::{line_step, register_step, valid_state, AsmFault, AsmView};
use crate::isa::MEMORY_SIZE;
use crate::text::{all_white, first_non_white, words};

verus! {

/// `add`, `sub`, `mult` or `div`: three register operands.
pub open spec fn three_register_name(w: Seq<char>) -> bool {
    ||| w == seq!['a', 'd', 'd']
    ||| w == seq!['s', 'u', 'b']
    ||| w == seq!['m', 'u', 'l', 't']
    ||| w == seq!['d', 'i', 'v']
}

/// `copy`, `load` or `store`: two register operands.
pub open spec fn two_register_name(w: Seq<char>) -> bool {
    ||| w == seq!['c', 'o', 'p', 'y']
    ||| w == seq!['l', 'o', 'a', 'd']
    ||| w == seq!['s', 't', 'o', 'r', 'e']
}

/// `tok` reads as a register operand of the instruction `w`.
pub open spec fn register_token(tok: Seq<char>, w: Seq<char>) -> bool {
    register_step(seq![tok], w).0 is Ok
}

/// A line that is neither blank nor a comment.
pub open spec fn code_line(line: Seq<char>) -> bool {
    !all_white(line) && first_non_white(line) != Some('#')
}

/// Reading a register looks at the first token only and consumes it.
proof fn lemma_register_first_token(ts: Seq<Seq<char>>, w: Seq<char>)
    requires
        ts.len() > 0,
    ensures
        register_step(ts, w).0 == register_step(seq![ts[0]], w).0,
        register_step(ts, w).1 == ts.drop_first(),
{
    assert(seq![ts[0]][0] == ts[0]);
}

/// An `add`/`sub`/`mult`/`div` line with a token after its three register
/// operands does not assemble: the error names the line's instruction and
/// the first extra token. With exactly its three operands it assembles into
/// two bytes.
pub proof fn lemma_three_register_operands_exactly(s: AsmView, line: Seq<char>)
    requires
        valid_state(s),
        s.ip + 2 <= MEMORY_SIZE,
        code_line(line),
        words(line).len() >= 4,
        three_register_name(words(line)[0]),
        register_token(words(line)[1], words(line)[0]),
        register_token(words(line)[2], words(line)[0]),
        register_token(words(line)[3], words(line)[0]),
    ensures
        words(line).len() > 4 ==> line_step(s, line) == Err::<AsmView, AsmFault>(
            AsmFault::TrailingTokens { instruction: words(line)[0], token: words(line)[4] },
        ),
        words(line).len() == 4 ==> (line_step(s, line) matches Ok(s2) && s2.ip == s.ip + 2
            && s2.labels == s.labels && s2.pending == s.pending),
{
    let t = words(line);
    let w = t[0];
    let t0 = t.drop_first();
    lemma_register_first_token(t0, w);
    let t1 = t0.drop_first();
    lemma_register_first_token(t1, w);
    let t2 = t1.drop_first();
    lemma_register_first_token(t2, w);
    let t3 = t2.drop_first();
    assert(t0[0] == t[1] && t1[0] == t[2] && t2[0] == t[3]);
    if t.len() > 4 {
        assert(t3[0] == t[4]);
    } else {
        assert(t3.len() == 0);
    }
}

/// A `copy`/`load`/`store` line with a token after its two register
/// operands does not assemble: the error names the line's instruction and
/// the first extra token. With exactly its two operands it assembles into
/// two bytes.
pub proof fn lemma_two_register_operands_exactly(s: AsmView, line: Seq<char>)
    requires
        valid_state(s),
        s.ip + 2 <= MEMORY_SIZE,
        code_line(line),
        words(line).len() >= 3,
        two_register_name(words(line)[0]),
        register_token(words(line)[1], words(line)[0]),
        register_token(words(line)[2], words(line)[0]),
    ensures
        words(line).len() > 3 ==> line_step(s, line) == Err::<AsmView, AsmFault>(
            AsmFault::TrailingTokens { instruction: words(line)[0], token: words(line)[3] },
        ),
        words(line).len() == 3 ==> (line_step(s, line) matches Ok(s2) && s2.ip == s.ip + 2
            && s2.labels == s.labels && s2.pending == s.pending),
{
    let t = words(line);
    let w = t[0];
    let t0 = t.drop_first();
    lemma_register_first_token(t0, w);
    let t1 = t0.drop_first();
    lemma_register_first_token(t1, w);
    let t2 = t1.drop_first();
    assert(t0[0] == t[1] && t1[0] == t[2]);
    if t.len() > 3 {
        assert(t2[0] == t[3]);
    } else {
        assert(t2.len() == 0);
    }
}

} // verus!
