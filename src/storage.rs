use vstd::prelude::*;

verus! {

/// Whether `k` is the key of some entry of `s`.
pub open spec fn has_key(s: Seq<(Seq<char>, Seq<char>)>, k: Seq<char>) -> bool {
    exists|i: int| 0 <= i < s.len() && #[trigger] s[i].0 == k
}

/// No two entries of `s` share a key.
pub open spec fn keys_unique(s: Seq<(Seq<char>, Seq<char>)>) -> bool {
    forall|i: int, j: int|
        0 <= i < s.len() && 0 <= j < s.len() && #[trigger] s[i].0 == #[trigger] s[j].0 ==> i == j
}

/// The mapping that a list of entries with unique keys stands for.
pub open spec fn map_of(s: Seq<(Seq<char>, Seq<char>)>) -> Map<Seq<char>, Seq<char>> {
    Map::new(
        |k: Seq<char>| has_key(s, k),
        |k: Seq<char>| s[choose|i: int| 0 <= i < s.len() && #[trigger] s[i].0 == k].1,
    )
}

/// An in-memory mapping from string keys to string values.
pub struct Storage {
    entries: Vec<(String, String)>,
}

impl View for Storage {
    type V = Map<Seq<char>, Seq<char>>;

    closed spec fn view(&self) -> Map<Seq<char>, Seq<char>> {
        map_of(self.entries_view())
    }
}

impl Storage {
    /// The entries, as plain sequences of characters.
    pub closed spec fn entries_view(&self) -> Seq<(Seq<char>, Seq<char>)> {
        self.entries@.map_values(|e: (String, String)| (e.0@, e.1@))
    }

    /// No two entries share a key.
    pub closed spec fn wf(&self) -> bool {
        keys_unique(self.entries_view())
    }


    proof fn lemma_lookup(&self, i: int)
        requires
            self.wf(),
            0 <= i < self.entries@.len(),
        ensures
            self@.contains_key(self.entries@[i].0@),
            self@[self.entries@[i].0@] == self.entries@[i].1@,
    {
        let s = self.entries_view();
        let k = s[i].0;
        assert(has_key(s, k));
        let j = choose|j: int| 0 <= j < s.len() && #[trigger] s[j].0 == k;
        assert(s[j].0 == s[i].0);
    }

    /// An empty storage.
    pub fn new() -> (r: Storage)
        ensures
            r.wf(),
            r@ == Map::<Seq<char>, Seq<char>>::empty(),
    {
        let r = Storage { entries: Vec::new() };
        assert(r@ =~= Map::<Seq<char>, Seq<char>>::empty());
        r
    }

    /// The value stored under `key`, if any.
    pub fn get(&self, key: &String) -> (r: Option<String>)
        requires
            self.wf(),
        ensures
            match r {
                Some(v) => self@.contains_key(key@) && self@[key@] == v@,
                None => !self@.contains_key(key@),
            },
    {
        let n = self.entries.len();
        let mut i: usize = 0;
        while i < n
            invariant
                n == self.entries@.len(),
                self.wf(),
                0 <= i <= n,
                forall|j: int| 0 <= j < i ==> self.entries@[j].0@ != key@,
            decreases n - i,
        {
            if self.entries[i].0 == *key {
                proof {
                    self.lemma_lookup(i as int);
                }
                return Some(self.entries[i].1.clone());
            }
            i = i + 1;
        }
        proof {
            let s = self.entries_view();
            if has_key(s, key@) {
                let j = choose|j: int| 0 <= j < s.len() && #[trigger] s[j].0 == key@;
                assert(self.entries@[j].0@ == key@);
            }
        }
        None
    }

    /// Stores `value` under `key`, replacing what was there.
    pub fn put(&mut self, key: String, value: String)
        requires
            old(self).wf(),
        ensures
            final(self).wf(),
            final(self)@ == old(self)@.insert(key@, value@),
    {
        let ghost s0 = self.entries_view();
        let ghost k = key@;
        let ghost v = value@;
        let n = self.entries.len();
        let mut i: usize = 0;
        while i < n && self.entries[i].0 != key
            invariant
                n == self.entries@.len(),
                self.entries_view() == s0,
                0 <= i <= n,
                forall|j: int| 0 <= j < i ==> self.entries@[j].0@ != key@,
            decreases n - i,
        {
            i = i + 1;
        }
        if i < n {
            assert(s0[i as int].0 == k);
            self.entries.set(i, (key, value));
            proof {
                let s1 = self.entries_view();
                assert(s1 =~= s0.update(i as int, (k, v)));
                assert forall|a: int, b: int|
                    0 <= a < s1.len() && 0 <= b < s1.len() && #[trigger] s1[a].0
                        == #[trigger] s1[b].0 implies a == b by {
                    assert(s0[a].0 == s1[a].0 && s0[b].0 == s1[b].0);
                }
                Self::lemma_map_update(s0, s1, i as int, k, v);
            }
        } else {
            self.entries.push((key, value));
            proof {
                let s1 = self.entries_view();
                assert(s1 =~= s0.push((k, v)));
                assert(!has_key(s0, k));
                assert forall|a: int, b: int|
                    0 <= a < s1.len() && 0 <= b < s1.len() && #[trigger] s1[a].0
                        == #[trigger] s1[b].0 implies a == b by {
                    if a < s0.len() && b < s0.len() {
                        assert(s0[a].0 == s1[a].0 && s0[b].0 == s1[b].0);
                    } else if a < s0.len() {
                        assert(s0[a].0 == k);
                    } else if b < s0.len() {
                        assert(s0[b].0 == k);
                    }
                }
                Self::lemma_map_update(s0, s1, s0.len() as int, k, v);
            }
        }
    }

    /// Writing the entry `(k, v)` at position `i` (in place, or at the end) of a list
    /// with unique keys inserts `(k, v)` into the mapping.
    proof fn lemma_map_update(
        s0: Seq<(Seq<char>, Seq<char>)>,
        s1: Seq<(Seq<char>, Seq<char>)>,
        i: int,
        k: Seq<char>,
        v: Seq<char>,
    )
        requires
            keys_unique(s0),
            keys_unique(s1),
            0 <= i <= s0.len(),
            i < s0.len() ==> s0[i].0 == k && s1 == s0.update(i, (k, v)),
            i == s0.len() ==> s1 == s0.push((k, v)),
        ensures
            map_of(s1) == map_of(s0).insert(k, v),
    {
        let m0 = map_of(s0);
        let m1 = map_of(s1);
        assert forall|key: Seq<char>| #[trigger] m1.contains_key(key) == m0.insert(k, v).contains_key(key) by {
            if has_key(s1, key) {
                let j = choose|j: int| 0 <= j < s1.len() && #[trigger] s1[j].0 == key;
                if j != i {
                    assert(s0[j].0 == key);
                }
            }
            if has_key(s0, key) {
                let j = choose|j: int| 0 <= j < s0.len() && #[trigger] s0[j].0 == key;
                if j != i {
                    assert(s1[j].0 == key);
                } else {
                    assert(s1[i].0 == key);
                }
            }
            if key == k {
                assert(s1[i].0 == key);
            }
        }
        assert forall|key: Seq<char>| #[trigger] m1.contains_key(key) implies m1[key] == m0.insert(k, v)[key] by {
            let j1 = choose|j: int| 0 <= j < s1.len() && #[trigger] s1[j].0 == key;
            if key == k {
                assert(s1[i].0 == key);
            } else {
                assert(s0[j1].0 == key);
                let j0 = choose|j: int| 0 <= j < s0.len() && #[trigger] s0[j].0 == key;
                assert(s0[j0].0 == s0[j1].0);
            }
        }
        assert(m1 =~= m0.insert(k, v));
    }
}

} // verus!
