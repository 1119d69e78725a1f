//! Characters, words and decimal numbers of assembly source text.
use vstd::prelude::*;

verus! {

/// The Unicode `White_Space` property, which is what `char::is_whitespace`
/// tests and what the source text is split on.
pub open spec fn is_white(c: char) -> bool {
    let u = c as u32;
    ||| 0x9 <= u <= 0xD
    ||| u == 0x20
    ||| u == 0x85
    ||| u == 0xA0
    ||| u == 0x1680
    ||| 0x2000 <= u <= 0x200A
    ||| u == 0x2028
    ||| u == 0x2029
    ||| u == 0x202F
    ||| u == 0x205F
    ||| u == 0x3000
}

/// Whether `c` is white space.
pub fn is_white_char(c: char) -> (b: bool)
    ensures
        b == is_white(c),
{
    let u = c as u32;
    (0x9 <= u && u <= 0xD) || u == 0x20 || u == 0x85 || u == 0xA0 || u == 0x1680 || (0x2000 <= u
        && u <= 0x200A) || u == 0x2028 || u == 0x2029 || u == 0x202F || u == 0x205F || u == 0x3000
}

/// Number of characters before the first white space (or the end).
pub open spec fn word_len(s: Seq<char>) -> nat
    decreases s.len(),
{
    if s.len() == 0 || is_white(s[0]) {
        0
    } else {
        1 + word_len(s.drop_first())
    }
}

pub proof fn lemma_word_len_bound(s: Seq<char>)
    ensures
        word_len(s) <= s.len(),
        s.len() > 0 && !is_white(s[0]) ==> word_len(s) >= 1,
    decreases s.len(),
{
    if s.len() > 0 && !is_white(s[0]) {
        lemma_word_len_bound(s.drop_first());
    }
}

/// The maximal runs of non-white characters of `s`, in order
/// (what `str::split_whitespace` yields).
pub open spec fn words(s: Seq<char>) -> Seq<Seq<char>>
    decreases s.len(),
{
    if s.len() == 0 {
        seq![]
    } else if is_white(s[0]) {
        words(s.drop_first())
    } else {
        proof {
            lemma_word_len_bound(s);
        }
        seq![s.take(word_len(s) as int)] + words(s.skip(word_len(s) as int))
    }
}

/// `s` holds white space only (what `str::trim` leaves empty).
pub open spec fn all_white(s: Seq<char>) -> bool {
    forall|i: int| 0 <= i < s.len() ==> is_white(#[trigger] s[i])
}

/// The first character of `s` that is not white space, if any
/// (the head of `str::trim_start`).
pub open spec fn first_non_white(s: Seq<char>) -> Option<char>
    decreases s.len(),
{
    if s.len() == 0 {
        None
    } else if is_white(s[0]) {
        first_non_white(s.drop_first())
    } else {
        Some(s[0])
    }
}

proof fn lemma_word_len_exact(s: Seq<char>, m: int)
    requires
        0 <= m <= s.len(),
        forall|k: int| 0 <= k < m ==> !is_white(#[trigger] s[k]),
        m == s.len() || is_white(s[m]),
    ensures
        word_len(s) == m,
    decreases m,
{
    if m > 0 {
        let t = s.drop_first();
        assert forall|k: int| 0 <= k < m - 1 implies !is_white(#[trigger] t[k]) by {
            assert(t[k] == s[k + 1]);
        }
        if m - 1 < t.len() {
            assert(t[m - 1] == s[m]);
        }
        lemma_word_len_exact(t, m - 1);
    }
}

/// Copies `s[from..to]`.
pub fn copy_range(s: &[char], from: usize, to: usize) -> (r: Vec<char>)
    requires
        from <= to <= s@.len(),
    ensures
        r@ == s@.subrange(from as int, to as int),
{
    let mut r: Vec<char> = Vec::new();
    let mut k: usize = from;
    while k < to
        invariant
            from <= k <= to <= s@.len(),
            r@ == s@.subrange(from as int, k as int),
        decreases to - k,
    {
        r.push(s[k]);
        k = k + 1;
        assert(r@ =~= s@.subrange(from as int, k as int));
    }
    r
}

/// Splits a line into its words.
pub fn split_words(line: &[char]) -> (ws: Vec<Vec<char>>)
    ensures
        ws.deep_view() == words(line@),
{
    let n = line.len();
    let mut out: Vec<Vec<char>> = Vec::new();
    let mut i: usize = 0;
    assert(line@.skip(0) =~= line@);
    assert(out.deep_view() =~= Seq::<Seq<char>>::empty());
    while i < n
        invariant
            n == line@.len(),
            i <= n,
            words(line@) == out.deep_view() + words(line@.skip(i as int)),
        decreases n - i,
    {
        let rest = Ghost(line@.skip(i as int));
        if is_white_char(line[i]) {
            assert(rest@[0] == line@[i as int]);
            assert(rest@.drop_first() =~= line@.skip(i + 1));
            i = i + 1;
        } else {
            let mut j: usize = i;
            while j < n && !is_white_char(line[j])
                invariant
                    n == line@.len(),
                    i <= j <= n,
                    forall|k: int| i <= k < j ==> !is_white(#[trigger] line@[k]),
                decreases n - j,
            {
                j = j + 1;
            }
            proof {
                assert forall|k: int| 0 <= k < j - i implies !is_white(#[trigger] rest@[k]) by {
                    assert(rest@[k] == line@[i + k]);
                }
                if j < n {
                    assert(rest@[j - i] == line@[j as int]);
                }
                lemma_word_len_exact(rest@, j - i);
                assert(rest@[0] == line@[i as int]);
                assert(rest@.take(j - i) =~= line@.subrange(i as int, j as int));
                assert(rest@.skip(j - i) =~= line@.skip(j as int));
            }
            let w = copy_range(line, i, j);
            let ghost before = out.deep_view();
            let ghost old_out = out;
            out.push(w);
            assert forall|k: int| 0 <= k < out.len() implies #[trigger] out.deep_view()[k]
                == before.push(w@)[k] by {
                if k < before.len() {
                    assert(out@[k] == old_out@[k]);
                }
            }
            assert(out.deep_view() =~= before.push(w@));
            assert(words(rest@) == seq![w@] + words(line@.skip(j as int)));
            assert(words(line@) =~= out.deep_view() + words(line@.skip(j as int)));
            i = j;
        }
    }
    assert(line@.skip(n as int) =~= Seq::<char>::empty());
    assert(out.deep_view() + Seq::<Seq<char>>::empty() =~= out.deep_view());
    out
}

/// Whether `s` holds white space only.
pub fn is_blank(s: &[char]) -> (b: bool)
    ensures
        b == all_white(s@),
{
    let mut i: usize = 0;
    while i < s.len()
        invariant
            i <= s@.len(),
            forall|k: int| 0 <= k < i ==> is_white(#[trigger] s@[k]),
        decreases s@.len() - i,
    {
        if !is_white_char(s[i]) {
            return false;
        }
        i = i + 1;
    }
    true
}

proof fn lemma_first_non_white(s: Seq<char>, i: int)
    requires
        0 <= i <= s.len(),
        forall|k: int| 0 <= k < i ==> is_white(#[trigger] s[k]),
    ensures
        first_non_white(s) == first_non_white(s.skip(i)),
    decreases i,
{
    if i > 0 {
        let t = s.drop_first();
        assert forall|k: int| 0 <= k < i - 1 implies is_white(#[trigger] t[k]) by {
            assert(t[k] == s[k + 1]);
        }
        lemma_first_non_white(t, i - 1);
        assert(t.skip(i - 1) =~= s.skip(i));
    } else {
        assert(s.skip(0) =~= s);
    }
}

/// The first character of `s` that is not white space, if any.
pub fn first_non_white_char(s: &[char]) -> (r: Option<char>)
    ensures
        r == first_non_white(s@),
{
    let mut i: usize = 0;
    while i < s.len()
        invariant
            i <= s@.len(),
            forall|k: int| 0 <= k < i ==> is_white(#[trigger] s@[k]),
        decreases s@.len() - i,
    {
        if !is_white_char(s[i]) {
            proof {
                lemma_first_non_white(s@, i as int);
                assert(s@.skip(i as int)[0] == s@[i as int]);
            }
            return Some(s[i]);
        }
        i = i + 1;
    }
    proof {
        lemma_first_non_white(s@, i as int);
    }
    None
}

/// An ASCII decimal digit (what `char::to_digit(10)` accepts).
pub open spec fn is_digit(c: char) -> bool {
    '0' as u32 <= c as u32 <= '9' as u32
}

pub open spec fn digit_value(c: char) -> nat {
    (c as u32 - '0' as u32) as nat
}

pub open spec fn all_digits(s: Seq<char>) -> bool {
    forall|i: int| 0 <= i < s.len() ==> is_digit(#[trigger] s[i])
}

/// The number that the decimal digits `s` denote.
pub open spec fn decimal(s: Seq<char>) -> nat
    decreases s.len(),
{
    if s.len() == 0 {
        0
    } else {
        decimal(s.drop_last()) * 10 + digit_value(s.last())
    }
}

/// What `from_str` of an unsigned integer type accepts: an optional `+`,
/// then one or more decimal digits, denoting at most `max`.
pub open spec fn parse_unsigned(s: Seq<char>, max: nat) -> Option<nat> {
    let d = if s.len() > 0 && s[0] == '+' {
        s.drop_first()
    } else {
        s
    };
    if d.len() > 0 && all_digits(d) && decimal(d) <= max {
        Some(decimal(d))
    } else {
        None
    }
}

/// What `i16::from_str` accepts: `-` and at most 32768, or what
/// `parse_unsigned` accepts up to 32767.
pub open spec fn parse_i16_spec(s: Seq<char>) -> Option<i16> {
    if s.len() > 0 && s[0] == '-' {
        let d = s.drop_first();
        if d.len() > 0 && all_digits(d) && decimal(d) <= 32768 {
            Some((0 - decimal(d)) as i16)
        } else {
            None
        }
    } else {
        match parse_unsigned(s, 32767) {
            Some(v) => Some(v as i16),
            None => None,
        }
    }
}

pub open spec fn parse_u8_spec(s: Seq<char>) -> Option<u8> {
    match parse_unsigned(s, 255) {
        Some(v) => Some(v as u8),
        None => None,
    }
}

pub open spec fn parse_u16_spec(s: Seq<char>) -> Option<u16> {
    match parse_unsigned(s, 65535) {
        Some(v) => Some(v as u16),
        None => None,
    }
}

/// The bound above which the value of a digit string is not tracked exactly.
pub const DECIMAL_CAP: u32 = 100000;

pub open spec fn capped(n: nat) -> nat {
    if n < DECIMAL_CAP {
        n
    } else {
        DECIMAL_CAP as nat
    }
}

/// Reads `s[from..]` as decimal digits: `None` unless it is a non-empty run of
/// digits, else the value, capped at `DECIMAL_CAP`.
fn decimal_from(s: &[char], from: usize) -> (r: Option<u32>)
    requires
        from <= s@.len(),
    ensures
        r is Some <==> (from < s@.len() && all_digits(s@.skip(from as int))),
        r matches Some(v) ==> v == capped(decimal(s@.skip(from as int))),
{
    if from >= s.len() {
        return None;
    }
    let mut v: u32 = 0;
    let mut i: usize = from;
    while i < s.len()
        invariant
            from <= i <= s@.len(),
            all_digits(s@.subrange(from as int, i as int)),
            v == capped(decimal(s@.subrange(from as int, i as int))),
            v <= DECIMAL_CAP,
        decreases s@.len() - i,
    {
        let c = s[i];
        let cu = c as u32;
        if cu < ('0' as u32) || cu > ('9' as u32) {
            proof {
                let t = s@.skip(from as int);
                assert(t[i - from] == c);
            }
            return None;
        }
        let ghost prev = s@.subrange(from as int, i as int);
        let ghost next = s@.subrange(from as int, i + 1);
        assert(next.drop_last() =~= prev);
        assert(next.last() == c);
        assert(decimal(next) == decimal(prev) * 10 + digit_value(c));
        let d: u32 = cu - ('0' as u32);
        let w: u32 = v * 10 + d;
        v = if w < DECIMAL_CAP {
            w
        } else {
            DECIMAL_CAP
        };
        i = i + 1;
        assert forall|k: int| 0 <= k < next.len() implies is_digit(#[trigger] next[k]) by {
            if k < prev.len() {
                assert(next[k] == prev[k]);
            }
        }
    }
    assert(s@.subrange(from as int, s@.len() as int) =~= s@.skip(from as int));
    Some(v)
}

/// What `u8::from_str` gives for `s[from..]`.
pub fn parse_u8_from(s: &[char], from: usize) -> (r: Option<u8>)
    requires
        from <= s@.len(),
    ensures
        r == parse_u8_spec(s@.skip(from as int)),
{
    let ghost t = s@.skip(from as int);
    let mut start = from;
    if from < s.len() && s[from] == '+' {
        start = from + 1;
        assert(t[0] == s@[from as int]);
        assert(t.drop_first() =~= s@.skip(start as int));
    } else if from < s.len() {
        assert(t[0] == s@[from as int]);
    }
    match decimal_from(s, start) {
        Some(v) => {
            if v <= 255 {
                Some(v as u8)
            } else {
                None
            }
        },
        None => None,
    }
}

/// What `u16::from_str` gives for `s`.
pub fn parse_u16(s: &[char]) -> (r: Option<u16>)
    ensures
        r == parse_u16_spec(s@),
{
    let mut start: usize = 0;
    if s.len() > 0 && s[0] == '+' {
        start = 1;
        assert(s@.drop_first() =~= s@.skip(1));
    } else {
        assert(s@ =~= s@.skip(0));
    }
    match decimal_from(s, start) {
        Some(v) => {
            if v <= 65535 {
                Some(v as u16)
            } else {
                None
            }
        },
        None => None,
    }
}

/// What `i16::from_str` gives for `s`.
pub fn parse_i16(s: &[char]) -> (r: Option<i16>)
    ensures
        r == parse_i16_spec(s@),
{
    if s.len() > 0 && s[0] == '-' {
        assert(s@.drop_first() =~= s@.skip(1));
        match decimal_from(s, 1) {
            Some(v) => {
                if v <= 32768 {
                    let neg: i32 = 0 - (v as i32);
                    Some(neg as i16)
                } else {
                    None
                }
            },
            None => None,
        }
    } else {
        let mut start: usize = 0;
        if s.len() > 0 && s[0] == '+' {
            start = 1;
            assert(s@.drop_first() =~= s@.skip(1));
        } else {
            assert(s@ =~= s@.skip(0));
        }
        match decimal_from(s, start) {
            Some(v) => {
                if v <= 32767 {
                    Some(v as i16)
                } else {
                    None
                }
            },
            None => None,
        }
    }
}

/// A line that is not all white space has a first word.
pub proof fn lemma_words_nonempty(s: Seq<char>)
    requires
        !all_white(s),
    ensures
        words(s).len() > 0,
    decreases s.len(),
{
    if s.len() > 0 && is_white(s[0]) {
        let t = s.drop_first();
        let k = choose|k: int| 0 <= k < s.len() && !is_white(#[trigger] s[k]);
        assert(t[k - 1] == s[k]);
        lemma_words_nonempty(t);
    }
}

} // verus!
