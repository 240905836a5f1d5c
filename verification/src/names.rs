//! Maps and sets keyed by texts.
//!
//! Entries are kept in a list, and of two entries with one key the later one counts.

use crate::ordered;
use crate::text::same_text;
use vstd::prelude::*;

verus! {

/// The texts of a list of strings.
pub open spec fn texts(s: Seq<String>) -> Seq<Seq<char>> {
    s.map_values(|t: String| t@)
}

/// The texts of the strings that a map gives.
pub open spec fn text_values<K>(m: Map<K, String>) -> Map<K, Seq<char>> {
    m.map_values(|t: String| t@)
}

/// Whether one of the strings is `name`.
pub fn holds_name(v: &Vec<String>, name: &str) -> (r: bool)
    ensures
        r == texts(v@).contains(name@),
{
    let mut i: usize = 0;
    while i < v.len()
        invariant
            i <= v@.len(),
            forall|k: int| 0 <= k < i ==> (#[trigger] v@[k])@ != name@,
        decreases v@.len() - i,
    {
        if same_text(v[i].as_str(), name) {
            assert(texts(v@)[i as int] == name@);
            return true;
        }
        i = i + 1;
    }
    assert forall|k: int| 0 <= k < texts(v@).len() implies texts(v@)[k] != name@ by {
        assert(v@[k]@ != name@);
    }
    false
}

/// A map from names.
#[derive(Debug)]
pub struct NameMap<V> {
    pub entries: Vec<(String, V)>,
}

/// The map that the first `n` entries make.
pub open spec fn name_entries<V>(s: Seq<(String, V)>, n: nat) -> Map<Seq<char>, V>
    decreases n,
{
    if n == 0 {
        Map::empty()
    } else {
        name_entries(s, (n - 1) as nat).insert(s[n - 1].0@, s[n - 1].1)
    }
}

impl<V> View for NameMap<V> {
    type V = Map<Seq<char>, V>;

    open spec fn view(&self) -> Map<Seq<char>, V> {
        name_entries(self.entries@, self.entries@.len())
    }
}

proof fn lemma_name_entries_ext<V>(s: Seq<(String, V)>, t: Seq<(String, V)>, n: nat)
    requires
        n <= s.len(),
        n <= t.len(),
        forall|k: int| 0 <= k < n ==> s[k] == t[k],
    ensures
        name_entries(s, n) == name_entries(t, n),
    decreases n,
{
    if n > 0 {
        lemma_name_entries_ext(s, t, (n - 1) as nat);
    }
}

/// A key that occurs in no entry from `m` on has the value of the first `m` entries.
proof fn lemma_name_entries_tail<V>(s: Seq<(String, V)>, m: nat, n: nat, key: Seq<char>)
    requires
        m <= n <= s.len(),
        forall|k: int| m <= k < n ==> (#[trigger] s[k]).0@ != key,
    ensures
        name_entries(s, n).contains_key(key) == name_entries(s, m).contains_key(key),
        name_entries(s, m).contains_key(key) ==> name_entries(s, n)[key] == name_entries(s, m)[key],
    decreases n,
{
    if n > m {
        assert(s[n - 1].0@ != key);
        lemma_name_entries_tail(s, m, (n - 1) as nat, key);
    }
}

impl<V> NameMap<V> {
    pub fn new() -> (m: Self)
        ensures
            m@ == Map::<Seq<char>, V>::empty(),
    {
        NameMap { entries: Vec::new() }
    }

    pub fn insert(&mut self, name: String, value: V)
        ensures
            final(self)@ == old(self)@.insert(name@, value),
    {
        let ghost before = self.entries@;
        self.entries.push((name, value));
        proof {
            lemma_name_entries_ext(before, self.entries@, before.len());
        }
    }

    pub fn get(&self, name: &str) -> (r: Option<&V>)
        ensures
            match r {
                Some(v) => self@.contains_key(name@) && self@[name@] == *v,
                None => !self@.contains_key(name@),
            },
    {
        let mut i: usize = self.entries.len();
        while i > 0
            invariant
                i <= self.entries@.len(),
                forall|k: int| i <= k < self.entries@.len() ==> (#[trigger] self.entries@[k]).0@ != name@,
            decreases i,
        {
            i = i - 1;
            if same_text(self.entries[i].0.as_str(), name) {
                proof {
                    lemma_name_entries_tail(
                        self.entries@,
                        (i + 1) as nat,
                        self.entries@.len(),
                        name@,
                    );
                }
                return Some(&self.entries[i].1);
            }
        }
        proof {
            lemma_name_entries_tail(self.entries@, 0, self.entries@.len(), name@);
        }
        None
    }

    pub fn contains(&self, name: &str) -> (r: bool)
        ensures
            r == self@.contains_key(name@),
    {
        match self.get(name) {
            Some(_) => true,
            None => false,
        }
    }

    pub fn is_empty(&self) -> (r: bool)
        ensures
            r == (self@ == Map::<Seq<char>, V>::empty()),
    {
        if self.entries.len() == 0 {
            true
        } else {
            proof {
                let n = self.entries@.len();
                let last = self.entries@[n - 1].0@;
                assert(self@.contains_key(last));
                assert(!Map::<Seq<char>, V>::empty().contains_key(last));
            }
            false
        }
    }
}

impl<V: Copy> NameMap<V> {
    /// Take the entry for `name` out.
    pub fn remove(&mut self, name: &str) -> (r: Option<V>)
        ensures
            final(self)@ == old(self)@.remove(name@),
            r == if old(self)@.contains_key(name@) {
                Some(old(self)@[name@])
            } else {
                None
            },
    {
        let found: Option<V> = match self.get(name) {
            Some(v) => Some(*v),
            None => None,
        };
        let ghost before = self.entries@;
        let mut kept: Vec<(String, V)> = Vec::new();
        let mut i: usize = 0;
        while i < self.entries.len()
            invariant
                i <= self.entries@.len(),
                self.entries@ == before,
                name_entries(kept@, kept@.len()) =~= name_entries(before, i as nat).remove(name@),
            decreases self.entries@.len() - i,
        {
            let ghost held = kept@;
            if !same_text(self.entries[i].0.as_str(), name) {
                kept.push((self.entries[i].0.as_str().to_owned(), self.entries[i].1));
                proof {
                    lemma_name_entries_ext(held, kept@, held.len());
                }
            }
            i = i + 1;
        }
        self.entries = kept;
        found
    }
}

/// A set of names.
#[derive(Debug)]
pub struct NameSet {
    pub names: Vec<String>,
}

impl View for NameSet {
    type V = Set<Seq<char>>;

    open spec fn view(&self) -> Set<Seq<char>> {
        texts(self.names@).to_set()
    }
}

impl NameSet {
    pub fn new() -> (s: Self)
        ensures
            s@ == Set::<Seq<char>>::empty(),
    {
        let s = NameSet { names: Vec::new() };
        assert(s@ =~= Set::<Seq<char>>::empty());
        s
    }

    pub fn contains(&self, name: &str) -> (r: bool)
        ensures
            r == self@.contains(name@),
    {
        holds_name(&self.names, name)
    }

    /// Add a name; tells whether it was missing.
    pub fn insert(&mut self, name: String) -> (added: bool)
        ensures
            final(self)@ == old(self)@.insert(name@),
            added == !old(self)@.contains(name@),
    {
        let ghost before = self.names@;
        let present: bool = holds_name(&self.names, name.as_str());
        if present {
            assert(self@ =~= old(self)@.insert(name@));
            false
        } else {
            self.names.push(name);
            proof {
                assert(texts(self.names@) =~= texts(before).push(name@));
                assert forall|t: Seq<char>| texts(self.names@).contains(t) == (texts(
                    before,
                ).contains(t) || t == name@) by {
                    ordered::lemma_push_key(texts(before), name@, t);
                }
                assert(self@ =~= old(self)@.insert(name@));
            }
            true
        }
    }

    /// Take a name out; tells whether it was there.
    pub fn remove(&mut self, name: &str) -> (removed: bool)
        ensures
            final(self)@ == old(self)@.remove(name@),
            removed == old(self)@.contains(name@),
    {
        let present: bool = self.contains(name);
        let ghost before = self.names@;
        let mut kept: Vec<String> = Vec::new();
        let mut i: usize = 0;
        while i < self.names.len()
            invariant
                i <= self.names@.len(),
                self.names@ == before,
                forall|t: Seq<char>| #[trigger]
                    texts(kept@).contains(t) == (texts(before).take(i as int).contains(t) && t
                        != name@),
            decreases self.names@.len() - i,
        {
            let ghost held = texts(kept@);
            let ghost item = self.names@[i as int]@;
            assert(texts(before).take(i + 1) =~= texts(before).take(i as int).push(item));
            if !same_text(self.names[i].as_str(), name) {
                kept.push(self.names[i].as_str().to_owned());
                assert(texts(kept@) =~= held.push(item));
            }
            assert forall|t: Seq<char>| #[trigger] texts(kept@).contains(t) == (texts(before).take(
                i + 1,
            ).contains(t) && t != name@) by {
                ordered::lemma_push_key(texts(before).take(i as int), item, t);
                ordered::lemma_push_key(held, item, t);
                assert(held.contains(t) == (texts(before).take(i as int).contains(t) && t
                    != name@));
            }
            i = i + 1;
        }
        assert(texts(before).take(i as int) =~= texts(before));
        self.names = kept;
        assert(self@ =~= old(self)@.remove(name@));
        present
    }
}

/// A key made of a name and a number: a base variable and an offset from it.
pub type Slot = (Seq<char>, i32);

/// The slots of a list.
pub open spec fn slots(s: Seq<(String, i32)>) -> Seq<Slot> {
    s.map_values(|p: (String, i32)| (p.0@, p.1))
}

/// Whether one of the slots is `(name, offset)`.
pub fn holds_slot(v: &Vec<(String, i32)>, name: &str, offset: i32) -> (r: bool)
    ensures
        r == slots(v@).contains((name@, offset)),
{
    let mut i: usize = 0;
    while i < v.len()
        invariant
            i <= v@.len(),
            forall|k: int| 0 <= k < i ==> slots(v@)[k] != (name@, offset),
        decreases v@.len() - i,
    {
        if v[i].1 == offset && same_text(v[i].0.as_str(), name) {
            assert(slots(v@)[i as int] == (name@, offset));
            return true;
        }
        i = i + 1;
    }
    false
}

/// A map from slots.
#[derive(Debug)]
pub struct SlotMap<V> {
    pub entries: Vec<(String, i32, V)>,
}

/// The map that the first `n` entries make.
pub open spec fn slot_entries<V>(s: Seq<(String, i32, V)>, n: nat) -> Map<Slot, V>
    decreases n,
{
    if n == 0 {
        Map::empty()
    } else {
        slot_entries(s, (n - 1) as nat).insert((s[n - 1].0@, s[n - 1].1), s[n - 1].2)
    }
}

impl<V> View for SlotMap<V> {
    type V = Map<Slot, V>;

    open spec fn view(&self) -> Map<Slot, V> {
        slot_entries(self.entries@, self.entries@.len())
    }
}

proof fn lemma_slot_entries_ext<V>(s: Seq<(String, i32, V)>, t: Seq<(String, i32, V)>, n: nat)
    requires
        n <= s.len(),
        n <= t.len(),
        forall|k: int| 0 <= k < n ==> s[k] == t[k],
    ensures
        slot_entries(s, n) == slot_entries(t, n),
    decreases n,
{
    if n > 0 {
        lemma_slot_entries_ext(s, t, (n - 1) as nat);
    }
}

proof fn lemma_slot_entries_tail<V>(s: Seq<(String, i32, V)>, m: nat, n: nat, key: Slot)
    requires
        m <= n <= s.len(),
        forall|k: int| m <= k < n ==> ((#[trigger] s[k]).0@, s[k].1) != key,
    ensures
        slot_entries(s, n).contains_key(key) == slot_entries(s, m).contains_key(key),
        slot_entries(s, m).contains_key(key) ==> slot_entries(s, n)[key] == slot_entries(s, m)[key],
    decreases n,
{
    if n > m {
        assert((s[n - 1].0@, s[n - 1].1) != key);
        lemma_slot_entries_tail(s, m, (n - 1) as nat, key);
    }
}

impl<V> SlotMap<V> {
    pub fn new() -> (m: Self)
        ensures
            m@ == Map::<Slot, V>::empty(),
    {
        SlotMap { entries: Vec::new() }
    }

    pub fn insert(&mut self, name: String, offset: i32, value: V)
        ensures
            final(self)@ == old(self)@.insert((name@, offset), value),
    {
        let ghost before = self.entries@;
        self.entries.push((name, offset, value));
        proof {
            lemma_slot_entries_ext(before, self.entries@, before.len());
        }
    }

    pub fn get(&self, name: &str, offset: i32) -> (r: Option<&V>)
        ensures
            match r {
                Some(v) => self@.contains_key((name@, offset)) && self@[(name@, offset)] == *v,
                None => !self@.contains_key((name@, offset)),
            },
    {
        let mut i: usize = self.entries.len();
        while i > 0
            invariant
                i <= self.entries@.len(),
                forall|k: int|
                    i <= k < self.entries@.len() ==> ((#[trigger] self.entries@[k]).0@, self.entries@[k].1)
                        != (name@, offset),
            decreases i,
        {
            i = i - 1;
            if self.entries[i].1 == offset && same_text(self.entries[i].0.as_str(), name) {
                proof {
                    lemma_slot_entries_tail(
                        self.entries@,
                        (i + 1) as nat,
                        self.entries@.len(),
                        (name@, offset),
                    );
                }
                return Some(&self.entries[i].2);
            }
        }
        proof {
            lemma_slot_entries_tail(self.entries@, 0, self.entries@.len(), (name@, offset));
        }
        None
    }

    pub fn is_empty(&self) -> (r: bool)
        ensures
            r == (self@ == Map::<Slot, V>::empty()),
    {
        if self.entries.len() == 0 {
            true
        } else {
            proof {
                let n = self.entries@.len();
                let last = (self.entries@[n - 1].0@, self.entries@[n - 1].1);
                assert(self@.contains_key(last));
                assert(!Map::<Slot, V>::empty().contains_key(last));
            }
            false
        }
    }
}

impl NameMap<Vec<u8>> {
    /// A copy.
    pub fn copied(&self) -> (r: Self)
        ensures
            forall|k: Seq<char>| #[trigger] r@.contains_key(k) <==> self@.contains_key(k),
            forall|k: Seq<char>| #[trigger] r@.contains_key(k) ==> r@[k]@ == self@[k]@,
    {
        let mut r: NameMap<Vec<u8>> = NameMap::new();
        let mut i: usize = 0;
        while i < self.entries.len()
            invariant
                i <= self.entries@.len(),
                forall|k: Seq<char>| #[trigger]
                    r@.contains_key(k) <==> name_entries(self.entries@, i as nat).contains_key(k),
                forall|k: Seq<char>| #[trigger]
                    r@.contains_key(k) ==> r@[k]@ == name_entries(self.entries@, i as nat)[k]@,
            decreases self.entries@.len() - i,
        {
            let ghost was = r@;
            let name = self.entries[i].0.as_str().to_owned();
            let value: Vec<u8> = self.entries[i].1.clone();
            assert(value@ =~= self.entries@[i as int].1@);
            r.insert(name, value);
            assert forall|k: Seq<char>| #[trigger] r@.contains_key(k) implies r@[k]@
                == name_entries(self.entries@, (i + 1) as nat)[k]@ by {
                if k != self.entries@[i as int].0@ {
                    assert(was.contains_key(k));
                }
            }
            i = i + 1;
        }
        r
    }
}

} // verus!
