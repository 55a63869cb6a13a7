use vstd::prelude::*;

verus! {

/// A value that remembers the instant, in milliseconds, at which it was made.
pub trait Stamped {
    spec fn stamp_spec(&self) -> u64;

    fn stamp(&self) -> (r: u64)
        ensures
            r == self.stamp_spec(),
    ;
}

/// Older than `ttl` at `now`; an instant later than `now` counts as age zero.
pub open spec fn is_expired(stamp: u64, now: u64, ttl: u64) -> bool {
    now as int - stamp as int > ttl as int
}

pub open spec fn keys_unique<V>(s: Seq<(String, V)>) -> bool {
    forall|i: int, j: int|
        0 <= i < s.len() && 0 <= j < s.len() && i != j ==> s[i].0@ != s[j].0@
}

pub open spec fn has_key_at<V>(s: Seq<(String, V)>, k: Seq<char>, i: int) -> bool {
    0 <= i < s.len() && s[i].0@ == k
}

/// The map that a sequence of keyed entries stands for.
pub open spec fn entries_map<V>(s: Seq<(String, V)>) -> Map<Seq<char>, V> {
    Map::new(
        |k: Seq<char>| exists|i: int| has_key_at(s, k, i),
        |k: Seq<char>| s[choose|i: int| has_key_at(s, k, i)].1,
    )
}

proof fn lemma_entry_in_map<V>(s: Seq<(String, V)>, i: int)
    requires
        keys_unique(s),
        0 <= i < s.len(),
    ensures
        entries_map(s).contains_key(s[i].0@),
        entries_map(s)[s[i].0@] == s[i].1,
{
    let k = s[i].0@;
    assert(has_key_at(s, k, i));
    let j = choose|j: int| has_key_at(s, k, j);
    assert(j == i);
}

proof fn lemma_key_absent<V>(s: Seq<(String, V)>, k: Seq<char>)
    requires
        forall|i: int| 0 <= i < s.len() ==> s[i].0@ != k,
    ensures
        !entries_map(s).contains_key(k),
{
    if exists|i: int| has_key_at(s, k, i) {
        let i = choose|i: int| has_key_at(s, k, i);
        assert(s[i].0@ != k);
    }
}

/// Two unique-keyed sequences whose entries, looked up by key, agree with `m`
/// stand for `m`.
proof fn lemma_map_by_lookup<V>(s: Seq<(String, V)>, m: Map<Seq<char>, V>)
    requires
        keys_unique(s),
        forall|i: int| 0 <= i < s.len() ==> m.contains_key(#[trigger] s[i].0@) && m[s[i].0@] == s[i].1,
        forall|k: Seq<char>| m.contains_key(k) ==> exists|i: int| has_key_at(s, k, i),
    ensures
        entries_map(s) == m,
{
    assert forall|k: Seq<char>| entries_map(s).contains_key(k) <==> m.contains_key(k) by {
        if entries_map(s).contains_key(k) {
            let i = choose|i: int| has_key_at(s, k, i);
            assert(s[i].0@ == k);
        }
        if m.contains_key(k) {
            let i = choose|i: int| has_key_at(s, k, i);
            lemma_entry_in_map(s, i);
        }
    }
    assert forall|k: Seq<char>| entries_map(s).contains_key(k) implies entries_map(s)[k] == m[k] by {
        let i = choose|i: int| has_key_at(s, k, i);
        lemma_entry_in_map(s, i);
    }
    assert(entries_map(s) =~= m);
}

proof fn lemma_entries_len<V>(s: Seq<(String, V)>)
    requires
        keys_unique(s),
    ensures
        entries_map(s).dom().finite(),
        entries_map(s).dom().len() == s.len(),
    decreases s.len(),
{
    if s.len() == 0 {
        assert(entries_map(s).dom() =~= Set::<Seq<char>>::empty());
    } else {
        let t = s.drop_last();
        let k = s.last().0@;
        lemma_entries_len(t);
        lemma_key_absent(t, k);
        assert forall|k2: Seq<char>| entries_map(s).dom().contains(k2) <==> entries_map(
            t,
        ).dom().insert(k).contains(k2) by {
            if entries_map(s).dom().contains(k2) && k2 != k {
                let i = choose|i: int| has_key_at(s, k2, i);
                assert(has_key_at(t, k2, i));
            }
            if entries_map(t).dom().contains(k2) {
                let i = choose|i: int| has_key_at(t, k2, i);
                assert(has_key_at(s, k2, i));
            }
            if k2 == k {
                assert(has_key_at(s, k2, s.len() - 1));
            }
        }
        assert(entries_map(s).dom() =~= entries_map(t).dom().insert(k));
    }
}

/// A table keyed by text, each key held at most once.
pub struct KeyedTable<V> {
    entries: Vec<(String, V)>,
}

impl<V> View for KeyedTable<V> {
    type V = Map<Seq<char>, V>;

    closed spec fn view(&self) -> Map<Seq<char>, V> {
        entries_map(self.entries@)
    }
}

impl<V> KeyedTable<V> {
    pub closed spec fn wf(&self) -> bool {
        keys_unique(self.entries@)
    }

    /// Number of entries held.
    pub closed spec fn count(&self) -> nat {
        self.entries@.len()
    }

    /// The key stored at position `i`; positions run over `0..count()`.
    pub closed spec fn key_at(&self, i: int) -> Seq<char> {
        self.entries@[i].0@
    }

    /// The value stored at position `i`.
    pub closed spec fn value_at(&self, i: int) -> V {
        self.entries@[i].1
    }

    /// Each position holds an entry of the map, and each key of the map
    /// stands at exactly one position.
    pub proof fn lemma_positions(&self)
        requires
            self.wf(),
        ensures
            forall|i: int|
                0 <= i < self.count() ==> #[trigger] self@.contains_key(self.key_at(i))
                    && self@[self.key_at(i)] == self.value_at(i),
            forall|k: Seq<char>|
                #[trigger] self@.contains_key(k) ==> exists|i: int|
                    0 <= i < self.count() && self.key_at(i) == k,
            forall|i: int, j: int|
                0 <= i < self.count() && 0 <= j < self.count() && i != j ==> self.key_at(i)
                    != self.key_at(j),
    {
        assert forall|i: int| 0 <= i < self.count() implies #[trigger] self@.contains_key(
            self.key_at(i),
        ) && self@[self.key_at(i)] == self.value_at(i) by {
            lemma_entry_in_map(self.entries@, i);
        }
        assert forall|k: Seq<char>| #[trigger] self@.contains_key(k) implies exists|i: int|
            0 <= i < self.count() && self.key_at(i) == k by {
            let i = choose|i: int| has_key_at(self.entries@, k, i);
            assert(0 <= i < self.count() && self.key_at(i) == k);
        }
    }

    /// The number of entries is the number of keys.
    pub proof fn lemma_count_is_len(&self)
        requires
            self.wf(),
        ensures
            self@.dom().finite(),
            self@.dom().len() == self.count(),
    {
        lemma_entries_len(self.entries@);
    }

    pub fn new() -> (t: Self)
        ensures
            t.wf(),
            t@ == Map::<Seq<char>, V>::empty(),
            t.count() == 0,
    {
        let t = KeyedTable { entries: Vec::new() };
        assert(t@ =~= Map::<Seq<char>, V>::empty());
        t
    }

    pub fn len(&self) -> (r: usize)
        ensures
            r == self.count(),
    {
        self.entries.len()
    }

    pub fn key_at_index(&self, i: usize) -> (r: &String)
        requires
            i < self.count(),
        ensures
            r@ == self.key_at(i as int),
    {
        &self.entries[i].0
    }

    pub fn value_at_index(&self, i: usize) -> (r: &V)
        requires
            i < self.count(),
        ensures
            *r == self.value_at(i as int),
    {
        &self.entries[i].1
    }

    fn index_of(&self, key: &String) -> (r: Option<usize>)
        ensures
            match r {
                Some(i) => i < self.entries.len() && self.entries@[i as int].0@ == key@,
                None => forall|i: int| 0 <= i < self.entries.len() ==> self.entries@[i].0@ != key@,
            },
    {
        let mut i: usize = 0;
        while i < self.entries.len()
            invariant
                i <= self.entries.len(),
                forall|j: int| 0 <= j < i ==> self.entries@[j].0@ != key@,
            decreases self.entries.len() - i,
        {
            if self.entries[i].0 == *key {
                return Some(i);
            }
            i += 1;
        }
        None
    }

    pub fn contains_key(&self, key: &String) -> (r: bool)
        requires
            self.wf(),
        ensures
            r == self@.contains_key(key@),
    {
        match self.index_of(key) {
            Some(i) => {
                proof {
                    lemma_entry_in_map(self.entries@, i as int);
                }
                true
            },
            None => {
                proof {
                    lemma_key_absent(self.entries@, key@);
                }
                false
            },
        }
    }

    pub fn get(&self, key: &String) -> (r: Option<&V>)
        requires
            self.wf(),
        ensures
            match r {
                Some(v) => self@.contains_key(key@) && *v == self@[key@],
                None => !self@.contains_key(key@),
            },
    {
        match self.index_of(key) {
            Some(i) => {
                proof {
                    lemma_entry_in_map(self.entries@, i as int);
                }
                Some(&self.entries[i].1)
            },
            None => {
                proof {
                    lemma_key_absent(self.entries@, key@);
                }
                None
            },
        }
    }

    /// Sets the value of `key`, adding the key when it is absent.
    pub fn insert(&mut self, key: String, value: V)
        requires
            old(self).wf(),
        ensures
            final(self).wf(),
            final(self)@ == old(self)@.insert(key@, value),
            old(self)@.contains_key(key@) ==> final(self).count() == old(self).count(),
            !old(self)@.contains_key(key@) ==> final(self).count() == old(self).count() + 1,
    {
        let ghost s0 = self.entries@;
        let ghost m = entries_map(s0).insert(key@, value);
        let ghost k = key@;
        match self.index_of(&key) {
            Some(i) => {
                proof {
                    lemma_entry_in_map(s0, i as int);
                }
                self.entries.set(i, (key, value));
                proof {
                    let s1 = self.entries@;
                    assert forall|a: int| 0 <= a < s1.len() implies m.contains_key(
                        #[trigger] s1[a].0@,
                    ) && m[s1[a].0@] == s1[a].1 by {
                        if a != i {
                            lemma_entry_in_map(s0, a);
                        }
                    }
                    assert forall|k2: Seq<char>| m.contains_key(k2) implies exists|a: int|
                        has_key_at(s1, k2, a) by {
                        if k2 == k {
                            assert(has_key_at(s1, k2, i as int));
                        } else {
                            let a = choose|a: int| has_key_at(s0, k2, a);
                            assert(has_key_at(s1, k2, a));
                        }
                    }
                    lemma_map_by_lookup(s1, m);
                }
            },
            None => {
                proof {
                    lemma_key_absent(s0, k);
                }
                self.entries.push((key, value));
                proof {
                    let s1 = self.entries@;
                    assert forall|a: int| 0 <= a < s1.len() implies m.contains_key(
                        #[trigger] s1[a].0@,
                    ) && m[s1[a].0@] == s1[a].1 by {
                        if a < s0.len() {
                            lemma_entry_in_map(s0, a);
                        }
                    }
                    assert forall|k2: Seq<char>| m.contains_key(k2) implies exists|a: int|
                        has_key_at(s1, k2, a) by {
                        if k2 == k {
                            assert(has_key_at(s1, k2, s0.len() as int));
                        } else {
                            let a = choose|a: int| has_key_at(s0, k2, a);
                            assert(has_key_at(s1, k2, a));
                        }
                    }
                    lemma_map_by_lookup(s1, m);
                }
            },
        }
    }

    /// Takes out the entry of `key`, if there is one.
    pub fn remove(&mut self, key: &String) -> (r: Option<V>)
        requires
            old(self).wf(),
        ensures
            final(self).wf(),
            final(self)@ == old(self)@.remove(key@),
            match r {
                Some(v) => old(self)@.contains_key(key@) && v == old(self)@[key@]
                    && final(self).count() + 1 == old(self).count(),
                None => !old(self)@.contains_key(key@) && final(self).count() == old(self).count(),
            },
    {
        let ghost s0 = self.entries@;
        let ghost m = entries_map(s0).remove(key@);
        match self.index_of(key) {
            Some(i) => {
                proof {
                    lemma_entry_in_map(s0, i as int);
                }
                let (_, v) = self.entries.remove(i);
                proof {
                    let s1 = self.entries@;
                    assert forall|a: int| 0 <= a < s1.len() implies m.contains_key(
                        #[trigger] s1[a].0@,
                    ) && m[s1[a].0@] == s1[a].1 by {
                        if a < i {
                            lemma_entry_in_map(s0, a);
                        } else {
                            lemma_entry_in_map(s0, a + 1);
                        }
                    }
                    assert forall|k2: Seq<char>| m.contains_key(k2) implies exists|a: int|
                        has_key_at(s1, k2, a) by {
                        let a = choose|a: int| has_key_at(s0, k2, a);
                        if a < i {
                            assert(has_key_at(s1, k2, a));
                        } else {
                            assert(has_key_at(s1, k2, a - 1));
                        }
                    }
                    lemma_map_by_lookup(s1, m);
                }
                Some(v)
            },
            None => {
                proof {
                    lemma_key_absent(s0, key@);
                    assert(m =~= entries_map(s0));
                }
                None
            },
        }
    }
}

impl<V: Stamped> KeyedTable<V> {
    /// Drops every entry older than `ttl` at `now`.
    pub fn retain_fresh(&mut self, now: u64, ttl: u64)
        requires
            old(self).wf(),
        ensures
            final(self).wf(),
            forall|k: Seq<char>|
                #[trigger] final(self)@.contains_key(k) <==> old(self)@.contains_key(k)
                    && !is_expired(old(self)@[k].stamp_spec(), now, ttl),
            forall|k: Seq<char>|
                #[trigger] final(self)@.contains_key(k) ==> final(self)@[k] == old(self)@[k],
    {
        let ghost orig = self.entries@;
        let mut rest: Vec<(String, V)> = Vec::new();
        std::mem::swap(&mut self.entries, &mut rest);
        let ghost kept = |k: Seq<char>|
            entries_map(orig).contains_key(k) && !is_expired(
                entries_map(orig)[k].stamp_spec(),
                now,
                ttl,
            );
        while rest.len() > 0
            invariant
                keys_unique(orig),
                rest@.len() <= orig.len(),
                rest@ == orig.subrange(0, rest@.len() as int),
                keys_unique(self.entries@),
                forall|j: int|
                    0 <= j < self.entries@.len() ==> exists|i: int|
                        rest@.len() <= i < orig.len() && orig[i] == #[trigger] self.entries@[j],
                forall|i: int|
                    rest@.len() <= i < orig.len() && !is_expired(
                        #[trigger] orig[i].1.stamp_spec(),
                        now,
                        ttl,
                    ) ==> exists|j: int|
                        0 <= j < self.entries@.len() && self.entries@[j] == orig[i],
                forall|j: int|
                    0 <= j < self.entries@.len() ==> !is_expired(
                        #[trigger] self.entries@[j].1.stamp_spec(),
                        now,
                        ttl,
                    ),
            decreases rest@.len(),
        {
            let ghost s0 = self.entries@;
            let ghost n = rest@.len();
            let e = rest.pop().unwrap();
            assert(e == orig[n - 1]);
            let st = e.1.stamp();
            if now <= st || now - st <= ttl {
                proof {
                    assert forall|j: int| 0 <= j < s0.len() implies s0[j].0@ != e.0@ by {
                        let i = choose|i: int| n <= i < orig.len() && orig[i] == s0[j];
                        assert(i != n - 1);
                    }
                }
                self.entries.push(e);
                proof {
                    let s1 = self.entries@;
                    assert forall|j: int| 0 <= j < s1.len() implies exists|i: int|
                        n - 1 <= i < orig.len() && orig[i] == #[trigger] s1[j] by {
                        if j < s0.len() {
                            assert(s1[j] == s0[j]);
                            let i = choose|i: int| n <= i < orig.len() && orig[i] == s0[j];
                            assert(n - 1 <= i < orig.len() && orig[i] == s1[j]);
                        } else {
                            assert(orig[n - 1] == s1[j]);
                        }
                    }
                    assert forall|i: int|
                        n - 1 <= i < orig.len() && !is_expired(
                            #[trigger] orig[i].1.stamp_spec(),
                            now,
                            ttl,
                        ) implies exists|j: int| 0 <= j < s1.len() && s1[j] == orig[i] by {
                        if i == n - 1 {
                            assert(s1[s0.len() as int] == orig[i]);
                        } else {
                            let j = choose|j: int| 0 <= j < s0.len() && s0[j] == orig[i];
                            assert(s1[j] == orig[i]);
                        }
                    }
                    assert forall|j: int| 0 <= j < s1.len() implies !is_expired(
                        #[trigger] s1[j].1.stamp_spec(),
                        now,
                        ttl,
                    ) by {
                        if j < s0.len() {
                            assert(s1[j] == s0[j]);
                        }
                    }
                }
            }
        }
        proof {
            let s1 = self.entries@;
            let m = entries_map(orig).restrict(Set::new(kept));
            assert forall|a: int| 0 <= a < s1.len() implies m.contains_key(#[trigger] s1[a].0@)
                && m[s1[a].0@] == s1[a].1 by {
                let i = choose|i: int| 0 <= i < orig.len() && orig[i] == s1[a];
                lemma_entry_in_map(orig, i);
            }
            assert forall|k2: Seq<char>| m.contains_key(k2) implies exists|a: int|
                has_key_at(s1, k2, a) by {
                let i = choose|i: int| has_key_at(orig, k2, i);
                lemma_entry_in_map(orig, i);
                assert(!is_expired(orig[i].1.stamp_spec(), now, ttl));
                let j = choose|j: int| 0 <= j < s1.len() && s1[j] == orig[i];
                assert(has_key_at(s1, k2, j));
            }
            lemma_map_by_lookup(s1, m);
        }
    }
}

} // verus!
