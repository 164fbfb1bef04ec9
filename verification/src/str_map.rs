use vstd::prelude::*;

verus! {

/// A map keyed by text. Each key occurs once; keys keep the order in which
/// they were first inserted, which is the order in which the map is walked.
#[derive(Debug)]
pub struct StrMap<V> {
    entries: Vec<(String, V)>,
}

/// The map that a sequence of insertions, applied in order, builds from the empty map.
pub open spec fn map_of_pairs<V>(pairs: Seq<(String, V)>) -> Map<Seq<char>, V>
    decreases pairs.len(),
{
    if pairs.len() == 0 {
        Map::empty()
    } else {
        map_of_pairs(pairs.drop_last()).insert(pairs.last().0@, pairs.last().1)
    }
}

/// The key order that a sequence of insertions, applied in order, gives.
pub open spec fn keys_of_pairs<V>(pairs: Seq<(String, V)>) -> Seq<Seq<char>>
    decreases pairs.len(),
{
    if pairs.len() == 0 {
        Seq::empty()
    } else {
        let ks = keys_of_pairs(pairs.drop_last());
        if ks.contains(pairs.last().0@) {
            ks
        } else {
            ks.push(pairs.last().0@)
        }
    }
}

spec fn distinct_keys<V>(entries: Seq<(String, V)>) -> bool {
    forall|i: int, j: int| 0 <= i < entries.len() && 0 <= j < entries.len() && i != j
        ==> entries[i].0@ != entries[j].0@
}

spec fn key_seq<V>(entries: Seq<(String, V)>) -> Seq<Seq<char>> {
    entries.map_values(|e: (String, V)| e.0@)
}

spec fn has_key<V>(entries: Seq<(String, V)>, k: Seq<char>) -> bool {
    exists|i: int| 0 <= i < entries.len() && entries[i].0@ == k
}

spec fn lookup<V>(entries: Seq<(String, V)>, k: Seq<char>) -> V {
    entries[choose|i: int| 0 <= i < entries.len() && entries[i].0@ == k].1
}

spec fn map_of_entries<V>(entries: Seq<(String, V)>) -> Map<Seq<char>, V> {
    Map::new(|k: Seq<char>| has_key(entries, k), |k: Seq<char>| lookup(entries, k))
}

proof fn lemma_lookup<V>(entries: Seq<(String, V)>, i: int)
    requires
        distinct_keys(entries),
        0 <= i < entries.len(),
    ensures
        has_key(entries, entries[i].0@),
        lookup(entries, entries[i].0@) == entries[i].1,
        map_of_entries(entries).contains_key(entries[i].0@),
        map_of_entries(entries)[entries[i].0@] == entries[i].1,
{
    let k = entries[i].0@;
    assert(has_key(entries, k));
    let j = choose|j: int| 0 <= j < entries.len() && entries[j].0@ == k;
    assert(j == i);
}

proof fn lemma_has_key_keys<V>(entries: Seq<(String, V)>, k: Seq<char>)
    ensures
        has_key(entries, k) <==> key_seq(entries).contains(k),
{
    if has_key(entries, k) {
        let i = choose|i: int| 0 <= i < entries.len() && entries[i].0@ == k;
        assert(key_seq(entries)[i] == k);
    }
    if key_seq(entries).contains(k) {
        let i = choose|i: int| 0 <= i < key_seq(entries).len() && key_seq(entries)[i] == k;
        assert(entries[i].0@ == k);
    }
}

proof fn lemma_distinct_no_dup<V>(entries: Seq<(String, V)>)
    requires
        distinct_keys(entries),
    ensures
        key_seq(entries).no_duplicates(),
{
    let ks = key_seq(entries);
    assert forall|i: int, j: int| 0 <= i < ks.len() && 0 <= j < ks.len() && i != j implies ks[i]
        != ks[j] by {
        assert(ks[i] == entries[i].0@);
        assert(ks[j] == entries[j].0@);
    }
}

proof fn lemma_push_entry<V>(entries: Seq<(String, V)>, k: String, v: V)
    requires
        distinct_keys(entries),
        !has_key(entries, k@),
    ensures
        distinct_keys(entries.push((k, v))),
        map_of_entries(entries.push((k, v))) == map_of_entries(entries).insert(k@, v),
        key_seq(entries.push((k, v))) == key_seq(entries).push(k@),
{
    let e2 = entries.push((k, v));
    assert(distinct_keys(e2));
    let m1 = map_of_entries(e2);
    let m2 = map_of_entries(entries).insert(k@, v);
    assert forall|key: Seq<char>| m1.contains_key(key) <==> m2.contains_key(key) by {
        if has_key(e2, key) {
            let i = choose|i: int| 0 <= i < e2.len() && e2[i].0@ == key;
            if i < entries.len() {
                assert(entries[i].0@ == key);
            }
        }
        if has_key(entries, key) {
            let i = choose|i: int| 0 <= i < entries.len() && entries[i].0@ == key;
            assert(e2[i].0@ == key);
        }
        if key == k@ {
            assert(e2[entries.len() as int].0@ == key);
        }
    }
    assert forall|key: Seq<char>| m1.contains_key(key) implies m1[key] == m2[key] by {
        let i = choose|i: int| 0 <= i < e2.len() && e2[i].0@ == key;
        lemma_lookup(e2, i);
        if i < entries.len() {
            lemma_lookup(entries, i);
        }
    }
    assert(m1 =~= m2);
    assert(key_seq(e2) =~= key_seq(entries).push(k@));
}

proof fn lemma_update_entry<V>(entries: Seq<(String, V)>, i: int, k: String, v: V)
    requires
        distinct_keys(entries),
        0 <= i < entries.len(),
        entries[i].0@ == k@,
    ensures
        distinct_keys(entries.update(i, (k, v))),
        map_of_entries(entries.update(i, (k, v))) == map_of_entries(entries).insert(k@, v),
        key_seq(entries.update(i, (k, v))) == key_seq(entries),
{
    let e2 = entries.update(i, (k, v));
    assert(distinct_keys(e2));
    let m1 = map_of_entries(e2);
    let m2 = map_of_entries(entries).insert(k@, v);
    assert forall|key: Seq<char>| m1.contains_key(key) <==> m2.contains_key(key) by {
        if has_key(e2, key) {
            let j = choose|j: int| 0 <= j < e2.len() && e2[j].0@ == key;
            if j != i {
                assert(entries[j].0@ == key);
            }
        }
        if has_key(entries, key) {
            let j = choose|j: int| 0 <= j < entries.len() && entries[j].0@ == key;
            assert(e2[j].0@ == key);
        }
        if key == k@ {
            assert(e2[i].0@ == key);
        }
    }
    assert forall|key: Seq<char>| m1.contains_key(key) implies m1[key] == m2[key] by {
        let j = choose|j: int| 0 <= j < e2.len() && e2[j].0@ == key;
        lemma_lookup(e2, j);
        if j != i {
            lemma_lookup(entries, j);
        }
    }
    assert(m1 =~= m2);
    assert(key_seq(e2) =~= key_seq(entries));
}

proof fn lemma_remove_entry<V>(entries: Seq<(String, V)>, i: int)
    requires
        distinct_keys(entries),
        0 <= i < entries.len(),
    ensures
        distinct_keys(entries.remove(i)),
        map_of_entries(entries.remove(i)) == map_of_entries(entries).remove(entries[i].0@),
{
    let e2 = entries.remove(i);
    let k = entries[i].0@;
    assert forall|a: int, b: int| 0 <= a < e2.len() && 0 <= b < e2.len() && a != b implies e2[a].0@
        != e2[b].0@ by {
        let a0 = if a < i { a } else { a + 1 };
        let b0 = if b < i { b } else { b + 1 };
        assert(e2[a] == entries[a0]);
        assert(e2[b] == entries[b0]);
    }
    let m1 = map_of_entries(e2);
    let m2 = map_of_entries(entries).remove(k);
    assert forall|key: Seq<char>| m1.contains_key(key) <==> m2.contains_key(key) by {
        if has_key(e2, key) {
            let j = choose|j: int| 0 <= j < e2.len() && e2[j].0@ == key;
            let j0 = if j < i { j } else { j + 1 };
            assert(e2[j] == entries[j0]);
            assert(entries[j0].0@ == key);
            assert(key != k);
        }
        if has_key(entries, key) && key != k {
            let j = choose|j: int| 0 <= j < entries.len() && entries[j].0@ == key;
            assert(j != i);
            let j2 = if j < i { j } else { j - 1 };
            assert(e2[j2] == entries[j]);
        }
    }
    assert forall|key: Seq<char>| m1.contains_key(key) implies m1[key] == m2[key] by {
        let j = choose|j: int| 0 <= j < e2.len() && e2[j].0@ == key;
        let j0 = if j < i { j } else { j + 1 };
        assert(e2[j] == entries[j0]);
        lemma_lookup(e2, j);
        lemma_lookup(entries, j0);
    }
    assert(m1 =~= m2);
}

fn find_entry<V>(entries: &Vec<(String, V)>, k: &String) -> (r: Option<usize>)
    ensures
        match r {
            Some(i) => i < entries@.len() && entries@[i as int].0@ == k@,
            None => !has_key(entries@, k@),
        },
{
    let n = entries.len();
    let mut i: usize = 0;
    while i < n
        invariant
            n == entries@.len(),
            i <= n,
            forall|j: int| 0 <= j < i ==> entries@[j].0@ != k@,
        decreases n - i,
    {
        if entries[i].0 == *k {
            return Some(i);
        }
        i = i + 1;
    }
    None
}

impl<V> View for StrMap<V> {
    type V = Map<Seq<char>, V>;

    closed spec fn view(&self) -> Map<Seq<char>, V> {
        map_of_entries(self.entries@)
    }
}

impl<V> StrMap<V> {
    #[verifier::type_invariant]
    spec fn keys_are_distinct(self) -> bool {
        distinct_keys(self.entries@)
    }

    /// The keys, in the order in which the map is walked.
    pub closed spec fn keys(self) -> Seq<Seq<char>> {
        key_seq(self.entries@)
    }

    /// An empty map.
    pub fn new() -> (m: Self)
        ensures
            m@ == Map::<Seq<char>, V>::empty(),
            m.keys() == Seq::<Seq<char>>::empty(),
    {
        let m = StrMap { entries: Vec::new() };
        assert(m@ =~= Map::<Seq<char>, V>::empty());
        assert(m.keys() =~= Seq::<Seq<char>>::empty());
        m
    }

    /// The number of keys. Also states how the key order relates to the map.
    pub fn len(&self) -> (n: usize)
        ensures
            n == self.keys().len(),
            self.keys().no_duplicates(),
            forall|k: Seq<char>| #[trigger] self@.contains_key(k) <==> self.keys().contains(k),
    {
        proof {
            use_type_invariant(self);
            lemma_distinct_no_dup(self.entries@);
            assert forall|k: Seq<char>| #[trigger] self@.contains_key(k) <==> self.keys().contains(
                k,
            ) by {
                lemma_has_key_keys(self.entries@, k);
            }
        }
        self.entries.len()
    }

    /// Whether the map is empty.
    pub fn is_empty(&self) -> (b: bool)
        ensures
            b <==> self@ == Map::<Seq<char>, V>::empty(),
    {
        proof {
            use_type_invariant(self);
            if self.entries@.len() > 0 {
                lemma_lookup(self.entries@, 0);
                assert(self@.contains_key(self.entries@[0].0@));
            } else {
                assert(self@ =~= Map::<Seq<char>, V>::empty());
            }
        }
        self.entries.len() == 0
    }

    /// The key at position `i` of the walk order.
    pub fn key_at(&self, i: usize) -> (k: &String)
        requires
            i < self.keys().len(),
        ensures
            k@ == self.keys()[i as int],
    {
        &self.entries[i].0
    }

    /// The value of the key at position `i` of the walk order.
    pub fn value_at(&self, i: usize) -> (v: &V)
        requires
            i < self.keys().len(),
        ensures
            self@.contains_key(self.keys()[i as int]),
            *v == self@[self.keys()[i as int]],
    {
        proof {
            use_type_invariant(self);
            lemma_lookup(self.entries@, i as int);
        }
        &self.entries[i].1
    }

    /// The value stored under `k`, if any.
    pub fn get(&self, k: &str) -> (r: Option<&V>)
        ensures
            r is Some <==> self@.contains_key(k@),
            r matches Some(v) ==> *v == self@[k@],
    {
        proof {
            use_type_invariant(self);
        }
        let key = String::from_str(k);
        match find_entry(&self.entries, &key) {
            Some(i) => {
                proof {
                    lemma_lookup(self.entries@, i as int);
                }
                Some(&self.entries[i].1)
            },
            None => None,
        }
    }

    /// Whether `k` is a key.
    pub fn contains_key(&self, k: &str) -> (b: bool)
        ensures
            b == self@.contains_key(k@),
    {
        self.get(k).is_some()
    }

    /// Stores `v` under `k`, replacing and returning the earlier value. A new key
    /// goes last in the walk order; an existing key keeps its place.
    pub fn insert(&mut self, k: String, v: V) -> (prev: Option<V>)
        ensures
            final(self)@ == old(self)@.insert(k@, v),
            final(self).keys() == (if old(self)@.contains_key(k@) {
                old(self).keys()
            } else {
                old(self).keys().push(k@)
            }),
            prev is Some <==> old(self)@.contains_key(k@),
            prev matches Some(p) ==> p == old(self)@[k@],
    {
        proof {
            use_type_invariant(&*self);
        }
        let mut entries: Vec<(String, V)> = Vec::new();
        std::mem::swap(&mut entries, &mut self.entries);
        let ghost old_entries = entries@;
        let found = find_entry(&entries, &k);
        match found {
            Some(i) => {
                proof {
                    lemma_lookup(old_entries, i as int);
                    lemma_update_entry(old_entries, i as int, k, v);
                }
                let (_old_key, old_value) = entries.remove(i);
                entries.insert(i, (k, v));
                assert(entries@ =~= old_entries.update(i as int, (k, v)));
                self.entries = entries;
                Some(old_value)
            },
            None => {
                proof {
                    lemma_push_entry(old_entries, k, v);
                }
                entries.push((k, v));
                self.entries = entries;
                None
            },
        }
    }

    /// Removes `k` and returns its value, if it was a key. The other keys keep
    /// their order.
    pub fn remove(&mut self, k: &str) -> (prev: Option<V>)
        ensures
            final(self)@ == old(self)@.remove(k@),
            prev is Some <==> old(self)@.contains_key(k@),
            prev matches Some(p) ==> p == old(self)@[k@],
            old(self)@.contains_key(k@) ==> exists|i: int|
                0 <= i < old(self).keys().len() && old(self).keys()[i] == k@ && final(self).keys()
                    == old(self).keys().remove(i),
            !old(self)@.contains_key(k@) ==> final(self).keys() == old(self).keys(),
    {
        proof {
            use_type_invariant(&*self);
        }
        let key = String::from_str(k);
        let mut entries: Vec<(String, V)> = Vec::new();
        std::mem::swap(&mut entries, &mut self.entries);
        let ghost old_entries = entries@;
        match find_entry(&entries, &key) {
            Some(i) => {
                proof {
                    lemma_lookup(old_entries, i as int);
                    lemma_remove_entry(old_entries, i as int);
                }
                let (_old_key, old_value) = entries.remove(i);
                proof {
                    assert(key_seq(entries@) =~= key_seq(old_entries).remove(i as int));
                    assert(key_seq(old_entries)[i as int] == k@);
                }
                self.entries = entries;
                assert(old(self).keys() == key_seq(old_entries));
                assert(self.keys() == old(self).keys().remove(i as int));
                assert(old(self).keys()[i as int] == k@);
                Some(old_value)
            },
            None => {
                proof {
                    assert(map_of_entries(old_entries).remove(k@) =~= map_of_entries(old_entries));
                }
                self.entries = entries;
                None
            },
        }
    }

    /// The map built by inserting `pairs` in order (a later pair replaces an
    /// earlier one with the same key).
    pub fn from_pairs(pairs: Vec<(String, V)>) -> (m: Self)
        ensures
            m@ == map_of_pairs(pairs@),
            m.keys() == keys_of_pairs(pairs@),
    {
        let ghost all = pairs@;
        let total = pairs.len();
        let mut m = StrMap::new();
        let mut rest = pairs;
        let mut n: usize = 0;
        while rest.len() > 0
            invariant
                n + rest@.len() == all.len(),
                all.len() == total,
                rest@ == all.subrange(n as int, all.len() as int),
                m@ == map_of_pairs(all.subrange(0, n as int)),
                m.keys() == keys_of_pairs(all.subrange(0, n as int)),
            decreases rest@.len(),
        {
            let (k, v) = rest.remove(0);
            proof {
                assert((k, v) == all[n as int]);
                assert(all.subrange(0, n + 1).drop_last() =~= all.subrange(0, n as int));
                let ks = keys_of_pairs(all.subrange(0, n as int));
                assert forall|key: Seq<char>| #[trigger] m@.contains_key(key) <==> ks.contains(key) by {
                    lemma_map_keys_of_pairs(all.subrange(0, n as int), key);
                }
            }
            m.insert(k, v);
            n = n + 1;
            assert(rest@ =~= all.subrange(n as int, all.len() as int));
        }
        assert(all.subrange(0, n as int) =~= all);
        m
    }
}

/// Building a map from pairs keeps, for each key, the value of its last
/// pair; a text that no pair has is no key.
pub proof fn lemma_map_of_pairs_last_wins<V>(pairs: Seq<(String, V)>, k: Seq<char>)
    ensures
        (exists|i: int| 0 <= i < pairs.len() && #[trigger] pairs[i].0@ == k) ==> exists|i: int|
            0 <= i < pairs.len() && #[trigger] pairs[i].0@ == k && map_of_pairs(pairs).contains_key(k)
                && map_of_pairs(pairs)[k] == pairs[i].1 && forall|j: int|
                i < j < pairs.len() ==> #[trigger] pairs[j].0@ != k,
        !(exists|i: int| 0 <= i < pairs.len() && #[trigger] pairs[i].0@ == k) ==> !map_of_pairs(
            pairs,
        ).contains_key(k),
    decreases pairs.len(),
{
    if pairs.len() > 0 {
        let pre = pairs.drop_last();
        let m = pairs.len() - 1;
        lemma_map_of_pairs_last_wins(pre, k);
        if pairs.last().0@ == k {
            assert(pairs[m].0@ == k);
        } else {
            if exists|i: int| 0 <= i < pre.len() && #[trigger] pre[i].0@ == k {
                let i = choose|i: int|
                    0 <= i < pre.len() && #[trigger] pre[i].0@ == k && map_of_pairs(pre).contains_key(k)
                        && map_of_pairs(pre)[k] == pre[i].1 && forall|j: int|
                        i < j < pre.len() ==> #[trigger] pre[j].0@ != k;
                assert(pairs[i] == pre[i]);
                assert forall|j: int| i < j < pairs.len() implies #[trigger] pairs[j].0@ != k by {
                    if j < m {
                        assert(pairs[j] == pre[j]);
                    }
                }
            } else {
                assert forall|i: int| 0 <= i < pairs.len() implies #[trigger] pairs[i].0@ != k by {
                    if i < m {
                        assert(pairs[i] == pre[i]);
                    }
                }
            }
        }
        if exists|i: int| 0 <= i < pre.len() && #[trigger] pre[i].0@ == k {
            let i = choose|i: int| 0 <= i < pre.len() && #[trigger] pre[i].0@ == k;
            assert(pairs[i] == pre[i]);
        }
    }
}

/// A text is a key of the map exactly when it occurs in the key order.
pub proof fn lemma_keys_dom<V>(m: StrMap<V>)
    ensures
        forall|k: Seq<char>| #[trigger] m@.contains_key(k) <==> m.keys().contains(k),
{
    assert forall|k: Seq<char>| #[trigger] m@.contains_key(k) <==> m.keys().contains(k) by {
        lemma_has_key_keys(m.entries@, k);
    }
}

impl<V: Clone> Clone for StrMap<V> {
    /// A copy with the same keys in the same order; each value is cloned.
    fn clone(&self) -> (c: Self)
        ensures
            c.keys() == self.keys(),
    {
        proof {
            use_type_invariant(self);
        }
        let mut entries: Vec<(String, V)> = Vec::new();
        let mut i: usize = 0;
        while i < self.entries.len()
            invariant
                i <= self.entries@.len(),
                distinct_keys(self.entries@),
                entries@.len() == i,
                forall|j: int| 0 <= j < i ==> #[trigger] entries@[j].0@ == self.entries@[j].0@,
            decreases self.entries@.len() - i,
        {
            let key = self.entries[i].0.clone();
            let value = self.entries[i].1.clone();
            entries.push((key, value));
            i = i + 1;
        }
        let c = StrMap { entries };
        assert(c.keys() =~= self.keys());
        c
    }
}

proof fn lemma_map_keys_of_pairs<V>(pairs: Seq<(String, V)>, k: Seq<char>)
    ensures
        map_of_pairs(pairs).contains_key(k) <==> keys_of_pairs(pairs).contains(k),
    decreases pairs.len(),
{
    if pairs.len() > 0 {
        lemma_map_keys_of_pairs(pairs.drop_last(), k);
        let ks = keys_of_pairs(pairs.drop_last());
        if !ks.contains(pairs.last().0@) {
            assert(ks.push(pairs.last().0@)[ks.len() as int] == pairs.last().0@);
            if ks.contains(k) {
                let i = choose|i: int| 0 <= i < ks.len() && ks[i] == k;
                assert(ks.push(pairs.last().0@)[i] == k);
            }
            if ks.push(pairs.last().0@).contains(k) && k != pairs.last().0@ {
                let i = choose|i: int|
                    0 <= i < ks.len() + 1 && ks.push(pairs.last().0@)[i] == k;
                assert(ks[i] == k);
            }
        }
    }
}

} // verus!
