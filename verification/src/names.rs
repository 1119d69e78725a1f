//! Tables keyed by label names.
use vstd::prelude::*;

verus! {

/// Whether two names are the same characters.
pub fn same_name(a: &[char], b: &[char]) -> (r: bool)
    ensures
        r == (a@ == b@),
{
    if a.len() != b.len() {
        return false;
    }
    let mut i: usize = 0;
    while i < a.len()
        invariant
            a@.len() == b@.len(),
            i <= a@.len(),
            forall|k: int| 0 <= k < i ==> a@[k] == b@[k],
        decreases a@.len() - i,
    {
        if a[i] != b[i] {
            return false;
        }
        i = i + 1;
    }
    assert(a@ =~= b@);
    true
}

/// A copy of a name.
pub fn copy_name(a: &[char]) -> (r: Vec<char>)
    ensures
        r@ == a@,
{
    let mut r: Vec<char> = Vec::new();
    let mut i: usize = 0;
    while i < a.len()
        invariant
            i <= a@.len(),
            r@ == a@.take(i as int),
        decreases a@.len() - i,
    {
        r.push(a[i]);
        i = i + 1;
        assert(r@ =~= a@.take(i as int));
    }
    assert(a@.take(a@.len() as int) =~= a@);
    r
}

/// A map from names to values, each name at most once; its view is the map
/// from each name to the view of its value.
pub struct NameMap<V: View> {
    entries: Vec<(Vec<char>, V)>,
    map: Ghost<Map<Seq<char>, V::V>>,
}

impl<V: View> View for NameMap<V> {
    type V = Map<Seq<char>, V::V>;

    closed spec fn view(&self) -> Map<Seq<char>, V::V> {
        self.map@
    }
}

impl<V: View> NameMap<V> {
    /// The entries name distinct keys and agree with the map.
    pub closed spec fn wf(&self) -> bool {
        &&& forall|i: int, j: int|
            0 <= i < j < self.entries@.len() ==> #[trigger] self.entries@[i].0@
                != #[trigger] self.entries@[j].0@
        &&& forall|i: int|
            0 <= i < self.entries@.len() ==> self.map@.contains_key(#[trigger] self.entries@[i].0@)
                && self.map@[self.entries@[i].0@] == self.entries@[i].1@
        &&& forall|k: Seq<char>|
            #[trigger] self.map@.contains_key(k) ==> exists|i: int|
                0 <= i < self.entries@.len() && #[trigger] self.entries@[i].0@ == k
    }

    /// An empty table.
    pub fn new() -> (t: Self)
        ensures
            t.wf(),
            t@ == Map::<Seq<char>, V::V>::empty(),
    {
        NameMap { entries: Vec::new(), map: Ghost(Map::empty()) }
    }

    fn find(&self, name: &[char]) -> (r: Option<usize>)
        requires
            self.wf(),
        ensures
            r is Some <==> self@.contains_key(name@),
            r matches Some(i) ==> i < self.entries@.len() && self.entries@[i as int].0@ == name@,
    {
        let mut i: usize = 0;
        while i < self.entries.len()
            invariant
                self.wf(),
                i <= self.entries@.len(),
                forall|k: int| 0 <= k < i ==> self.entries@[k].0@ != name@,
            decreases self.entries@.len() - i,
        {
            if same_name(self.entries[i].0.as_slice(), name) {
                return Some(i);
            }
            i = i + 1;
        }
        None
    }

    /// The value stored under `name`, if any.
    pub fn get(&self, name: &[char]) -> (r: Option<&V>)
        requires
            self.wf(),
        ensures
            r is Some <==> self@.contains_key(name@),
            r matches Some(v) ==> v@ == self@[name@],
    {
        match self.find(name) {
            Some(i) => Some(&self.entries[i].1),
            None => None,
        }
    }

    /// Stores `v` under `name`; says whether `name` had a value before.
    pub fn insert(&mut self, name: Vec<char>, v: V) -> (was: bool)
        requires
            old(self).wf(),
        ensures
            final(self).wf(),
            was == old(self)@.contains_key(name@),
            final(self)@ == old(self)@.insert(name@, v@),
    {
        let ghost k = name@;
        let ghost vv = v@;
        match self.find(name.as_slice()) {
            Some(i) => {
                self.entries.set(i, (name, v));
                self.map = Ghost(self.map@.insert(k, vv));
                assert forall|k2: Seq<char>| #[trigger] self.map@.contains_key(k2) implies exists|j: int|
                    0 <= j < self.entries@.len() && #[trigger] self.entries@[j].0@ == k2 by {
                    if k2 != k {
                        let j = choose|j: int|
                            0 <= j < old(self).entries@.len() && #[trigger] old(self).entries@[j].0@
                                == k2;
                        assert(self.entries@[j].0@ == k2);
                    } else {
                        assert(self.entries@[i as int].0@ == k2);
                    }
                }
                true
            },
            None => {
                self.entries.push((name, v));
                self.map = Ghost(self.map@.insert(k, vv));
                let ghost n: int = self.entries@.len() - 1;
                assert forall|k2: Seq<char>| #[trigger] self.map@.contains_key(k2) implies exists|j: int|
                    0 <= j < self.entries@.len() && #[trigger] self.entries@[j].0@ == k2 by {
                    if k2 != k {
                        let j = choose|j: int|
                            0 <= j < old(self).entries@.len() && #[trigger] old(self).entries@[j].0@
                                == k2;
                        assert(self.entries@[j].0@ == k2);
                    } else {
                        assert(self.entries@[n].0@ == k2);
                    }
                }
                assert forall|a: int, b: int|
                    0 <= a < b < self.entries@.len() implies #[trigger] self.entries@[a].0@
                    != #[trigger] self.entries@[b].0@ by {
                    if b == n {
                        assert(old(self).map@.contains_key(old(self).entries@[a].0@));
                    }
                }
                false
            },
        }
    }

    /// Takes the value stored under `name` out of the table, if any.
    pub fn remove(&mut self, name: &[char]) -> (r: Option<V>)
        requires
            old(self).wf(),
        ensures
            final(self).wf(),
            r is Some <==> old(self)@.contains_key(name@),
            r matches Some(v) ==> v@ == old(self)@[name@],
            final(self)@ == old(self)@.remove(name@),
    {
        match self.find(name) {
            Some(i) => {
                let ghost old_entries = self.entries@;
                let (_, v) = self.entries.remove(i);
                self.map = Ghost(self.map@.remove(name@));
                assert forall|a: int, b: int|
                    0 <= a < b < self.entries@.len() implies #[trigger] self.entries@[a].0@
                    != #[trigger] self.entries@[b].0@ by {
                    let a0 = if a < i {
                        a
                    } else {
                        a + 1
                    };
                    let b0 = if b < i {
                        b
                    } else {
                        b + 1
                    };
                    assert(self.entries@[a] == old_entries[a0]);
                    assert(self.entries@[b] == old_entries[b0]);
                }
                assert forall|a: int|
                    0 <= a < self.entries@.len() implies self.map@.contains_key(
                    #[trigger] self.entries@[a].0@,
                ) && self.map@[self.entries@[a].0@] == self.entries@[a].1@ by {
                    let a0 = if a < i {
                        a
                    } else {
                        a + 1
                    };
                    assert(self.entries@[a] == old_entries[a0]);
                    assert(a0 != i);
                }
                assert forall|k2: Seq<char>| #[trigger] self.map@.contains_key(k2) implies exists|j: int|
                    0 <= j < self.entries@.len() && #[trigger] self.entries@[j].0@ == k2 by {
                    let j = choose|j: int|
                        0 <= j < old_entries.len() && #[trigger] old_entries[j].0@ == k2;
                    assert(j != i);
                    if j < i {
                        assert(self.entries@[j] == old_entries[j]);
                    } else {
                        assert(self.entries@[j - 1] == old_entries[j]);
                    }
                }
                Some(v)
            },
            None => None,
        }
    }

    /// The name of some entry, or `None` when the table is empty.
    pub fn any_name(&self) -> (r: Option<Vec<char>>)
        requires
            self.wf(),
        ensures
            r is None <==> self@ == Map::<Seq<char>, V::V>::empty(),
            r matches Some(k) ==> self@.contains_key(k@),
    {
        if self.entries.len() == 0 {
            assert(self.map@ =~= Map::<Seq<char>, V::V>::empty());
            None
        } else {
            assert(self.map@.contains_key(self.entries@[0].0@));
            Some(copy_name(self.entries[0].0.as_slice()))
        }
    }
}

impl NameMap<Vec<u16>> {
    /// Appends `x` to the list stored under `name`, starting an empty list
    /// when there is none (`entry(name).or_default().push(x)`).
    pub fn push_to(&mut self, name: &[char], x: u16)
        requires
            old(self).wf(),
        ensures
            final(self).wf(),
            final(self)@ == old(self)@.insert(
                name@,
                (if old(self)@.contains_key(name@) {
                    old(self)@[name@]
                } else {
                    Seq::<u16>::empty()
                }).push(x),
            ),
    {
        let mut list = match self.remove(name) {
            Some(l) => l,
            None => Vec::new(),
        };
        list.push(x);
        let key = copy_name(name);
        let _ = self.insert(key, list);
        assert(final(self)@ =~= old(self)@.insert(
            name@,
            (if old(self)@.contains_key(name@) {
                old(self)@[name@]
            } else {
                Seq::<u16>::empty()
            }).push(x),
        ));
    }
}

} // verus!
