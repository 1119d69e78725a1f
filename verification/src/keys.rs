//! Which keys to hold to type a memory image into a machine, one address and
//! byte at a time, and the set of keys held down.
use std::collections::HashSet;
use vstd::prelude::*;
use vstd::std_specs::hash::spec_hash_keys_iter;
use vstd::std_specs::iter::IteratorSpec;

verus! {

broadcast use vstd::std_specs::hash::group_hash_axioms;

/// Virtual-key code of the key that confirms a byte (`V`).
pub const KEY_CONFIRM: u16 = 0x56;

/// Virtual-key codes of the keys for the address bits, the most significant
/// bit first: Q W E R T Y U I O P A S D F G H.
pub open spec fn address_keys() -> Seq<u16> {
    seq![0x51, 0x57, 0x45, 0x52, 0x54, 0x59, 0x55, 0x49, 0x4F, 0x50, 0x41, 0x53, 0x44, 0x46, 0x47, 0x48]
}

/// Virtual-key codes of the keys for the data bits, the most significant bit
/// first: 1 to 8.
pub open spec fn data_keys() -> Seq<u16> {
    seq![0x31, 0x32, 0x33, 0x34, 0x35, 0x36, 0x37, 0x38]
}

/// Bit `b` of `v` is set.
pub open spec fn bit_set(v: u16, b: u16) -> bool {
    (v >> b) & 1 == 1
}

/// Of the first `n` of `keys`, in order, those whose bit of `v` is set, the
/// first key standing for bit `keys.len() - 1`.
pub open spec fn keys_of_bits(v: u16, keys: Seq<u16>, n: nat) -> Seq<u16>
    decreases n,
{
    if n == 0 {
        Seq::empty()
    } else {
        let before = keys_of_bits(v, keys, (n - 1) as nat);
        if bit_set(v, (keys.len() - n) as u16) {
            before.push(keys[n - 1])
        } else {
            before
        }
    }
}

/// The keys to press for `address` and `byte`: the address keys of its set
/// bits, then the data keys of the set bits of `byte`.
pub open spec fn frame_keys(address: u16, byte: u8) -> Seq<u16> {
    keys_of_bits(address, address_keys(), 16) + keys_of_bits(byte as u16, data_keys(), 8)
}

fn push_bit_keys(out: &mut Vec<u16>, v: u16, keys: &[u16])
    requires
        keys@.len() <= 16,
    ensures
        final(out)@ == old(out)@ + keys_of_bits(v, keys@, keys@.len() as nat),
{
    let n = keys.len();
    let mut i: usize = 0;
    let ghost start = out@;
    while i < n
        invariant
            n == keys@.len() <= 16,
            i <= n,
            out@ == start + keys_of_bits(v, keys@, i as nat),
        decreases n - i,
    {
        let b: u16 = (n - 1 - i) as u16;
        assert(keys@.len() - (i + 1) == b);
        if (v >> b) & 1 == 1 {
            out.push(keys[i]);
        }
        i = i + 1;
        assert(out@ =~= start + keys_of_bits(v, keys@, i as nat));
    }
}

/// The keys to press to type `byte` at `address`, in order.
pub fn keys_for(address: u16, byte: u8) -> (r: Vec<u16>)
    ensures
        r@ == frame_keys(address, byte),
{
    let address_codes: [u16; 16] = [
        0x51,
        0x57,
        0x45,
        0x52,
        0x54,
        0x59,
        0x55,
        0x49,
        0x4F,
        0x50,
        0x41,
        0x53,
        0x44,
        0x46,
        0x47,
        0x48,
    ];
    let data_codes: [u16; 8] = [0x31, 0x32, 0x33, 0x34, 0x35, 0x36, 0x37, 0x38];
    assert(address_codes@ == address_keys());
    assert(data_codes@ == data_keys());
    let mut r: Vec<u16> = Vec::new();
    push_bit_keys(&mut r, address, address_codes.as_slice());
    push_bit_keys(&mut r, byte as u16, data_codes.as_slice());
    assert(r@ =~= frame_keys(address, byte));
    r
}

/// A key to send down or up.
#[derive(Debug, Clone, Copy, PartialEq, Eq, Structural)]
pub enum KeyEvent {
    Press { key: u16 },
    Release { key: u16 },
}

/// The keys held down after `e`, from the keys `held` before.
pub open spec fn apply_event(held: Set<u16>, e: KeyEvent) -> Set<u16> {
    match e {
        KeyEvent::Press { key } => held.insert(key),
        KeyEvent::Release { key } => held.remove(key),
    }
}

/// The keys held down after the events `events`, in order, from `held`.
pub open spec fn held_after(held: Set<u16>, events: Seq<KeyEvent>) -> Set<u16>
    decreases events.len(),
{
    if events.len() == 0 {
        held
    } else {
        apply_event(held_after(held, events.drop_last()), events.last())
    }
}

/// The key an event is about.
pub open spec fn key_of(e: KeyEvent) -> u16 {
    match e {
        KeyEvent::Press { key } => key,
        KeyEvent::Release { key } => key,
    }
}

/// The last of `events` that is about `k` is a press.
pub open spec fn last_pressed(events: Seq<KeyEvent>, k: u16) -> bool
    decreases events.len(),
{
    if events.len() == 0 {
        false
    } else if key_of(events.last()) == k {
        events.last() is Press
    } else {
        last_pressed(events.drop_last(), k)
    }
}

/// Events sent one batch after another hold what the batches hold in turn.
pub proof fn lemma_held_after_append(held: Set<u16>, a: Seq<KeyEvent>, b: Seq<KeyEvent>)
    ensures
        held_after(held, a + b) == held_after(held_after(held, a), b),
    decreases b.len(),
{
    if b.len() == 0 {
        assert(a + b =~= a);
    } else {
        assert((a + b).drop_last() =~= a + b.drop_last());
        assert((a + b).last() == b.last());
        lemma_held_after_append(held, a, b.drop_last());
    }
}

/// Starting with no key held, a key is held after a run of events exactly
/// when the last event about it was a press.
pub proof fn lemma_held_iff_last_pressed(events: Seq<KeyEvent>, k: u16)
    ensures
        held_after(Set::<u16>::empty(), events).contains(k) == last_pressed(events, k),
    decreases events.len(),
{
    if events.len() > 0 {
        lemma_held_iff_last_pressed(events.drop_last(), k);
    }
}

/// Release events remove their keys and nothing else.
proof fn lemma_releases(held: Set<u16>, es: Seq<KeyEvent>)
    requires
        forall|i: int| 0 <= i < es.len() ==> es[i] is Release,
    ensures
        forall|k: u16|
            #[trigger] held_after(held, es).contains(k) == (held.contains(k) && !es.contains(
                KeyEvent::Release { key: k },
            )),
    decreases es.len(),
{
    if es.len() > 0 {
        let init = es.drop_last();
        lemma_releases(held, init);
        let k2 = key_of(es.last());
        assert(es.last() == KeyEvent::Release { key: k2 });
        assert(held_after(held, es) == held_after(held, init).remove(k2));
        assert(es[es.len() - 1] == es.last());
        assert forall|k: u16|
            #[trigger] held_after(held, es).contains(k) == (held.contains(k) && !es.contains(
                KeyEvent::Release { key: k },
            )) by {
            let e = KeyEvent::Release { key: k };
            assert(es.last() is Release);
            if init.contains(e) {
                let j = choose|j: int| 0 <= j < init.len() && init[j] == e;
                assert(es[j] == e);
            }
            if es.contains(e) {
                let j = choose|j: int| 0 <= j < es.len() && es[j] == e;
                if j < es.len() - 1 {
                    assert(init[j] == e);
                }
            }
        }
    }
}

/// The keys held down.
pub struct KeysDown {
    keys: HashSet<u16>,
}

impl View for KeysDown {
    type V = Set<u16>;

    closed spec fn view(&self) -> Set<u16> {
        self.keys@
    }
}

impl KeysDown {
    /// No key held.
    pub fn new() -> (k: KeysDown)
        ensures
            k@ == Set::<u16>::empty(),
    {
        KeysDown { keys: HashSet::new() }
    }

    /// Records `key` as held and gives the event that presses it.
    pub fn press_key(&mut self, key: u16) -> (e: KeyEvent)
        ensures
            final(self)@ == old(self)@.insert(key),
            e == (KeyEvent::Press { key }),
            final(self)@ == held_after(old(self)@, seq![e]),
    {
        self.keys.insert(key);
        let e = KeyEvent::Press { key };
        assert(seq![e].drop_last() =~= Seq::<KeyEvent>::empty());
        assert(held_after(old(self)@, Seq::<KeyEvent>::empty()) == old(self)@);
        assert(seq![e].last() == e);
        assert(self@ =~= apply_event(old(self)@, e));
        e
    }

    /// Gives the event that releases `key` and records it as not held.
    pub fn release_key(&mut self, key: u16) -> (e: KeyEvent)
        ensures
            final(self)@ == old(self)@.remove(key),
            e == (KeyEvent::Release { key }),
            final(self)@ == held_after(old(self)@, seq![e]),
    {
        self.keys.remove(&key);
        let e = KeyEvent::Release { key };
        assert(seq![e].drop_last() =~= Seq::<KeyEvent>::empty());
        assert(held_after(old(self)@, Seq::<KeyEvent>::empty()) == old(self)@);
        assert(seq![e].last() == e);
        assert(self@ =~= apply_event(old(self)@, e));
        e
    }

    /// Gives the events that release every held key, each once, and records
    /// that no key is held.
    pub fn release_all_keys(&mut self) -> (es: Vec<KeyEvent>)
        ensures
            final(self)@ == Set::<u16>::empty(),
            es@.len() == old(self)@.len(),
            forall|k: u16|
                old(self)@.contains(k) <==> es@.contains(KeyEvent::Release { key: k }),
            forall|i: int| 0 <= i < es@.len() ==> es@[i] is Release,
            final(self)@ == held_after(old(self)@, es@),
    {
        let mut es: Vec<KeyEvent> = Vec::new();
        let ghost sq = spec_hash_keys_iter(&self.keys).remaining();
        for k in it: self.keys.iter()
            invariant
                it.seq() == sq,
                es@.len() == it.index(),
                forall|j: int| 0 <= j < it.index() ==> es@[j] == (KeyEvent::Release { key: *it.seq()[j] }),
        {
            es.push(KeyEvent::Release { key: *k });
        }
        proof {
            assert(sq.unref().to_set() == old(self)@);
            assert forall|k: u16|
                old(self)@.contains(k) <==> es@.contains(KeyEvent::Release { key: k }) by {
                if old(self)@.contains(k) {
                    assert(sq.unref().to_set().contains(k));
                    let j = choose|j: int| 0 <= j < sq.unref().len() && sq.unref()[j] == k;
                    assert(es@[j] == (KeyEvent::Release { key: k }));
                }
                if es@.contains(KeyEvent::Release { key: k }) {
                    let j = choose|j: int| 0 <= j < es@.len() && es@[j] == (KeyEvent::Release { key: k });
                    assert(sq.unref()[j] == k);
                    assert(sq.unref().contains(k));
                }
            }
            lemma_releases(old(self)@, es@);
        }
        self.keys.clear();
        assert(held_after(old(self)@, es@) =~= Set::<u16>::empty());
        es
    }

    /// Whether `key` is held.
    pub fn is_down(&self, key: u16) -> (b: bool)
        ensures
            b == self@.contains(key),
    {
        self.keys.contains(&key)
    }

    /// The events that type `byte` at `address`, in three batches sent with
    /// pauses between them: release the confirming key and every held key;
    /// press the keys of the set bits of `address` and `byte`; press the
    /// confirming key.
    pub fn frame(&mut self, address: u16, byte: u8) -> (r: (Vec<KeyEvent>, Vec<KeyEvent>, KeyEvent))
        ensures
            r.0@.len() >= 1,
            r.0@[0] == (KeyEvent::Release { key: KEY_CONFIRM }),
            r.0@.len() == old(self)@.remove(KEY_CONFIRM).len() + 1,
            forall|i: int| 0 <= i < r.0@.len() ==> r.0@[i] is Release,
            forall|k: u16|
                old(self)@.remove(KEY_CONFIRM).contains(k) <==> r.0@.drop_first().contains(
                    KeyEvent::Release { key: k },
                ),
            r.1@ == frame_keys(address, byte).map_values(|k: u16| KeyEvent::Press { key: k }),
            r.2 == (KeyEvent::Press { key: KEY_CONFIRM }),
            final(self)@ == held_after(old(self)@, r.0@ + r.1@ + seq![r.2]),
            final(self)@ == frame_keys(address, byte).to_set().insert(KEY_CONFIRM),
    {
        let ghost h0 = self@;
        let first = self.release_key(KEY_CONFIRM);
        let ghost h1 = self@;
        let rest = self.release_all_keys();
        let mut releases: Vec<KeyEvent> = Vec::new();
        releases.push(first);
        let mut i: usize = 0;
        while i < rest.len()
            invariant
                i <= rest@.len(),
                releases@ == seq![first] + rest@.take(i as int),
            decreases rest@.len() - i,
        {
            releases.push(rest[i]);
            i = i + 1;
            assert(releases@ =~= seq![first] + rest@.take(i as int));
        }
        assert(rest@.take(rest@.len() as int) =~= rest@);
        assert(releases@.drop_first() =~= rest@);
        proof {
            lemma_held_after_append(h0, seq![first], rest@);
            assert forall|j: int| 0 <= j < releases@.len() implies releases@[j] is Release by {
                if j > 0 {
                    assert(releases@[j] == rest@[j - 1]);
                }
            }
        }
        let keys = keys_for(address, byte);
        let mut presses: Vec<KeyEvent> = Vec::new();
        let mut j: usize = 0;
        while j < keys.len()
            invariant
                j <= keys@.len(),
                presses@ == keys@.take(j as int).map_values(|k: u16| KeyEvent::Press { key: k }),
                self@ == held_after(Set::<u16>::empty(), presses@),
                self@ == keys@.take(j as int).to_set(),
            decreases keys@.len() - j,
        {
            let ghost before = presses@;
            let e = self.press_key(keys[j]);
            presses.push(e);
            proof {
                lemma_held_after_append(Set::<u16>::empty(), before, seq![e]);
                assert(before + seq![e] =~= presses@);
                assert(keys@.take(j + 1) =~= keys@.take(j as int).push(keys@[j as int]));
                keys@.take(j as int).lemma_push_to_set_commute(keys@[j as int]);
            }
            j = j + 1;
            assert(presses@ =~= keys@.take(j as int).map_values(|k: u16| KeyEvent::Press { key: k }));
        }
        assert(keys@.take(keys@.len() as int) =~= keys@);
        let ghost h2 = self@;
        let confirm = self.press_key(KEY_CONFIRM);
        proof {
            lemma_held_after_append(h0, releases@, presses@);
            lemma_held_after_append(h0, releases@ + presses@, seq![confirm]);
            lemma_held_after_append(Set::<u16>::empty(), Seq::empty(), presses@);
            assert(Seq::<KeyEvent>::empty() + presses@ =~= presses@);
        }
        (releases, presses, confirm)
    }
}

} // verus!
