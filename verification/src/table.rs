use vstd::prelude::*;

verus! {

// ---------------------------------------------------------------------------
// Keyed sequences: the model of a map from names to values
// ---------------------------------------------------------------------------

/// Position of the first entry with key `k`, or -1 when there is none.
pub open spec fn index_of<V>(t: Seq<(Seq<char>, V)>, k: Seq<char>) -> int
    decreases t.len(),
{
    if t.len() == 0 {
        -1
    } else {
        let i = index_of(t.drop_last(), k);
        if i >= 0 {
            i
        } else if t.last().0 == k {
            t.len() - 1
        } else {
            -1
        }
    }
}

/// Whether some entry has key `k`.
pub open spec fn has_key<V>(t: Seq<(Seq<char>, V)>, k: Seq<char>) -> bool {
    exists|i: int| 0 <= i < t.len() && #[trigger] t[i].0 == k
}

/// The value stored under `k`, if any.
pub open spec fn lookup<V>(t: Seq<(Seq<char>, V)>, k: Seq<char>) -> Option<V> {
    let i = index_of(t, k);
    if i >= 0 {
        Some(t[i].1)
    } else {
        None
    }
}

/// `t` with `v` stored under `k`: the entry of `k` is replaced where it
/// stands, or a new entry is appended.
pub open spec fn table_insert<V>(t: Seq<(Seq<char>, V)>, k: Seq<char>, v: V) -> Seq<(Seq<char>, V)> {
    let i = index_of(t, k);
    if i >= 0 {
        t.update(i, (k, v))
    } else {
        t.push((k, v))
    }
}

/// No two entries share a key.
pub open spec fn keys_distinct<V>(t: Seq<(Seq<char>, V)>) -> bool {
    forall|i: int, j: int| 0 <= i < j < t.len() ==> t[i].0 != t[j].0
}

/// What `index_of` is: the first position with the key.
pub proof fn lemma_index_of<V>(t: Seq<(Seq<char>, V)>, k: Seq<char>)
    ensures
        -1 <= index_of(t, k) < t.len(),
        index_of(t, k) >= 0 ==> t[index_of(t, k)].0 == k,
        index_of(t, k) >= 0 ==> forall|j: int| 0 <= j < index_of(t, k) ==> t[j].0 != k,
        index_of(t, k) == -1 <==> !has_key(t, k),
    decreases t.len(),
{
    if t.len() > 0 {
        let s = t.drop_last();
        lemma_index_of(s, k);
        if index_of(s, k) >= 0 {
            assert(t[index_of(s, k)] == s[index_of(s, k)]);
            assert forall|j: int| 0 <= j < index_of(t, k) implies t[j].0 != k by {
                assert(t[j] == s[j]);
            }
        } else {
            if has_key(t, k) {
                let w = choose|i: int| 0 <= i < t.len() && #[trigger] t[i].0 == k;
                if w < t.len() - 1 {
                    assert(s[w] == t[w]);
                    assert(has_key(s, k));
                }
            }
            assert forall|j: int| 0 <= j < t.len() - 1 implies t[j].0 != k by {
                assert(t[j] == s[j]);
                if t[j].0 == k {
                    assert(has_key(s, k));
                }
            }
        }
    }
}

/// A key that stands at position `i` and nowhere before is found there.
pub proof fn lemma_index_of_at<V>(t: Seq<(Seq<char>, V)>, k: Seq<char>, i: int)
    requires
        0 <= i < t.len(),
        t[i].0 == k,
        forall|j: int| 0 <= j < i ==> t[j].0 != k,
    ensures
        index_of(t, k) == i,
{
    lemma_index_of(t, k);
    assert(has_key(t, k));
}

/// Two tables with the same keys in the same places find keys in the same places.
pub proof fn lemma_index_of_same_keys<V, W>(t: Seq<(Seq<char>, V)>, u: Seq<(Seq<char>, W)>, k: Seq<char>)
    requires
        t.len() == u.len(),
        forall|j: int| 0 <= j < t.len() ==> #[trigger] t[j].0 == u[j].0,
    ensures
        index_of(t, k) == index_of(u, k),
{
    lemma_index_of(t, k);
    lemma_index_of(u, k);
    if index_of(t, k) >= 0 {
        assert forall|j: int| 0 <= j < index_of(t, k) implies u[j].0 != k by {
            assert(t[j].0 == u[j].0);
        }
        lemma_index_of_at(u, k, index_of(t, k));
    } else if index_of(u, k) >= 0 {
        assert forall|j: int| 0 <= j < index_of(u, k) implies t[j].0 != k by {
            assert(t[j].0 == u[j].0);
        }
        lemma_index_of_at(t, k, index_of(u, k));
    }
}

/// A read after a write: the written key gives the written value, other
/// keys keep theirs.
pub proof fn lemma_lookup_insert<V>(t: Seq<(Seq<char>, V)>, k: Seq<char>, v: V, k2: Seq<char>)
    ensures
        lookup(table_insert(t, k, v), k2) == (if k2 == k {
            Some(v)
        } else {
            lookup(t, k2)
        }),
        has_key(table_insert(t, k, v), k2) == (k2 == k || has_key(t, k2)),
{
    let i = index_of(t, k);
    let u = table_insert(t, k, v);
    lemma_index_of(t, k);
    lemma_index_of(t, k2);
    if i >= 0 {
        lemma_index_of_same_keys(t, u, k2);
        lemma_index_of(u, k2);
        if k2 == k {
        } else {
            if index_of(t, k2) >= 0 {
                assert(u[index_of(t, k2)] == t[index_of(t, k2)]);
            }
        }
        assert(has_key(u, k2) == has_key(t, k2)) by {
            if has_key(t, k2) {
                let w = choose|j: int| 0 <= j < t.len() && #[trigger] t[j].0 == k2;
                assert(u[w].0 == k2);
            }
            if has_key(u, k2) {
                let w = choose|j: int| 0 <= j < u.len() && #[trigger] u[j].0 == k2;
                assert(t[w].0 == k2);
            }
        }
    } else {
        assert(u.drop_last() =~= t);
        lemma_index_of(u, k2);
        if index_of(t, k2) >= 0 {
            assert(u[index_of(t, k2)] == t[index_of(t, k2)]);
        }
        assert(has_key(u, k2) == (k2 == k || has_key(t, k2))) by {
            assert(u[t.len() as int].0 == k);
            if has_key(t, k2) {
                let w = choose|j: int| 0 <= j < t.len() && #[trigger] t[j].0 == k2;
                assert(u[w].0 == k2);
            }
            if has_key(u, k2) {
                let w = choose|j: int| 0 <= j < u.len() && #[trigger] u[j].0 == k2;
                if w < t.len() {
                    assert(t[w].0 == k2);
                }
            }
        }
    }
}

/// Writing keeps the keys distinct.
pub proof fn lemma_insert_distinct<V>(t: Seq<(Seq<char>, V)>, k: Seq<char>, v: V)
    requires
        keys_distinct(t),
    ensures
        keys_distinct(table_insert(t, k, v)),
{
    lemma_index_of(t, k);
    let u = table_insert(t, k, v);
    if index_of(t, k) < 0 {
        assert forall|i: int, j: int| 0 <= i < j < u.len() implies u[i].0 != u[j].0 by {
            if j == t.len() {
                assert(u[i] == t[i]);
                assert(has_key(t, k) ==> false);
                if t[i].0 == k {
                    assert(has_key(t, k));
                }
            } else {
                assert(u[i] == t[i] && u[j] == t[j]);
            }
        }
    }
}

/// Appending an entry under a key that `t` lacks: other keys are found as
/// before, and writes to keys of `t` land before the appended entry.
pub proof fn lemma_push_absent<V>(t: Seq<(Seq<char>, V)>, e: (Seq<char>, V), k: Seq<char>, v: V)
    requires
        lookup(t, e.0) is None,
    ensures
        k != e.0 ==> lookup(t.push(e), k) == lookup(t, k),
        lookup(t.push(e), e.0) == Some(e.1),
        lookup(t, k) is Some ==> table_insert(t.push(e), k, v) == table_insert(t, k, v).push(e),
        k == e.0 ==> table_insert(t.push(e), k, v) == t.push((k, v)),
        k == e.0 ==> table_insert(t, k, v) == t.push((k, v)),
{
    let u = t.push(e);
    assert(u.drop_last() =~= t);
    lemma_index_of(t, e.0);
    lemma_index_of(u, e.0);
    assert(index_of(u, e.0) == t.len());
    lemma_index_of(t, k);
    lemma_index_of(u, k);
    let i = index_of(t, k);
    if i >= 0 {
        assert(index_of(u, k) == i);
        assert(u[i] == t[i]);
        assert(u.update(i, (k, v)) =~= t.update(i, (k, v)).push(e));
    } else if k == e.0 {
        assert(index_of(u, k) == t.len());
        assert(u.update(t.len() as int, (k, v)) =~= t.push((k, v)));
    } else {
        assert(index_of(u, k) == -1);
    }
}

// ---------------------------------------------------------------------------
// The executable map
// ---------------------------------------------------------------------------

/// A map from names to values that keeps its entries in the order in which
/// the names were first written.
#[derive(Debug)]
pub struct NameMap<V> {
    entries: Vec<(String, V)>,
}

impl<V> NameMap<V> {
    /// No two entries share a name.
    #[verifier::type_invariant]
    spec fn names_unique(self) -> bool {
        forall|i: int, j: int| 0 <= i < j < self.entries.len() ==> self.entries@[i].0@ != self.entries@[j].0@
    }
}

impl<V: DeepView> View for NameMap<V> {
    type V = Seq<(Seq<char>, V::V)>;

    closed spec fn view(&self) -> Seq<(Seq<char>, V::V)> {
        self.entries@.map_values(|e: (String, V)| (e.0@, e.1.deep_view()))
    }
}

impl<V: DeepView> NameMap<V> {
    /// The names in the view are those of the entries, so they are unique.
    proof fn lemma_view_distinct(&self)
        requires
            self.names_unique(),
        ensures
            keys_distinct(self@),
    {
        assert forall|i: int, j: int| 0 <= i < j < self@.len() implies self@[i].0 != self@[j].0 by {
            assert(self@[i].0 == self.entries@[i].0@);
            assert(self@[j].0 == self.entries@[j].0@);
        }
    }

    /// The map with no entries.
    pub fn new() -> (r: Self)
        ensures
            r@ == Seq::<(Seq<char>, V::V)>::empty(),
            keys_distinct(r@),
    {
        let r = NameMap { entries: Vec::new() };
        assert(r@ =~= Seq::<(Seq<char>, V::V)>::empty());
        r
    }

    /// Number of entries.
    pub fn len(&self) -> (n: usize)
        ensures
            n == self@.len(),
            keys_distinct(self@),
    {
        proof {
            use_type_invariant(self);
            self.lemma_view_distinct();
        }
        self.entries.len()
    }

    /// The key of entry `i`.
    pub fn key_at(&self, i: usize) -> (k: &String)
        requires
            i < self@.len(),
        ensures
            k@ == self@[i as int].0,
    {
        &self.entries[i].0
    }

    /// The value of entry `i`.
    pub fn value_at(&self, i: usize) -> (v: &V)
        requires
            i < self@.len(),
        ensures
            v.deep_view() == self@[i as int].1,
    {
        &self.entries[i].1
    }

    /// The position of `key`, if it has an entry.
    pub fn find(&self, key: &String) -> (r: Option<usize>)
        ensures
            r is Some <==> index_of(self@, key@) >= 0,
            r matches Some(i) ==> i == index_of(self@, key@) && i < self@.len(),
    {
        let mut i: usize = 0;
        while i < self.entries.len()
            invariant
                i <= self@.len(),
                self@.len() == self.entries.len(),
                forall|j: int| 0 <= j < i ==> self@[j].0 != key@,
            decreases self.entries.len() - i,
        {
            if self.entries[i].0 == *key {
                proof {
                    lemma_index_of_at(self@, key@, i as int);
                }
                return Some(i);
            }
            i = i + 1;
        }
        proof {
            lemma_index_of(self@, key@);
            if has_key(self@, key@) {
                let w = choose|j: int| 0 <= j < self@.len() && #[trigger] self@[j].0 == key@;
                assert(self@[w].0 != key@);
            }
        }
        None
    }

    /// The value stored under `key`, if any.
    pub fn get(&self, key: &String) -> (r: Option<&V>)
        ensures
            r is Some <==> lookup(self@, key@) is Some,
            r matches Some(v) ==> lookup(self@, key@) == Some(v.deep_view()),
    {
        match self.find(key) {
            Some(i) => Some(&self.entries[i].1),
            None => None,
        }
    }

    /// Stores `value` under `key`.
    pub fn insert(&mut self, key: String, value: V)
        ensures
            final(self)@ == table_insert(old(self)@, key@, value.deep_view()),
            keys_distinct(final(self)@),
    {
        proof {
            use_type_invariant(&*self);
        }
        let ghost old_view = self@;
        let ghost old_entries = self.entries@;
        let found = self.find(&key);
        let mut entries: Vec<(String, V)> = Vec::new();
        std::mem::swap(&mut entries, &mut self.entries);
        match found {
            Some(i) => {
                proof {
                    lemma_index_of(old_view, key@);
                    assert(old_view[i as int].0 == old_entries[i as int].0@);
                }
                entries.set(i, (key, value));
                proof {
                    assert forall|a: int, b: int| 0 <= a < b < entries.len() implies entries@[a].0@ != entries@[b].0@ by {
                        if a != i && b != i {
                            assert(entries@[a] == old_entries[a] && entries@[b] == old_entries[b]);
                        } else if a == i {
                            assert(entries@[b] == old_entries[b]);
                            assert(old_entries[a].0@ != old_entries[b].0@);
                        } else {
                            assert(entries@[a] == old_entries[a]);
                            assert(old_entries[a].0@ != old_entries[b].0@);
                        }
                    }
                }
            },
            None => {
                proof {
                    lemma_index_of(old_view, key@);
                    assert forall|j: int| 0 <= j < old_entries.len() implies old_entries[j].0@ != key@ by {
                        assert(old_view[j].0 == old_entries[j].0@);
                        if old_entries[j].0@ == key@ {
                            assert(has_key(old_view, key@));
                        }
                    }
                }
                entries.push((key, value));
                proof {
                    assert forall|a: int, b: int| 0 <= a < b < entries.len() implies entries@[a].0@ != entries@[b].0@ by {
                        assert(entries@[a] == old_entries[a]);
                        if b < old_entries.len() {
                            assert(entries@[b] == old_entries[b]);
                        }
                    }
                }
            },
        }
        self.entries = entries;
        proof {
            match found {
                Some(i) => {
                    assert(self@ =~= old_view.update(i as int, (key@, value.deep_view())));
                },
                None => {
                    assert(self@ =~= old_view.push((key@, value.deep_view())));
                },
            }
        }
        proof {
            self.lemma_view_distinct();
        }
    }
}

/// The names stored under `k`; none when `k` has no entry.
pub open spec fn names_of(t: Seq<(Seq<char>, Seq<Seq<char>>)>, k: Seq<char>) -> Seq<Seq<char>> {
    match lookup(t, k) {
        Some(v) => v,
        None => seq![],
    }
}

/// `t` with `name` appended to the list under `k` (a new list when `k` has none).
pub open spec fn append_name(
    t: Seq<(Seq<char>, Seq<Seq<char>>)>,
    k: Seq<char>,
    name: Seq<char>,
) -> Seq<(Seq<char>, Seq<Seq<char>>)> {
    table_insert(t, k, names_of(t, k).push(name))
}

impl NameMap<Vec<String>> {
    /// Appends `name` to the list stored under `key`, starting a list when
    /// `key` has none.
    pub fn push_name(&mut self, key: &String, name: String)
        ensures
            final(self)@ == append_name(old(self)@, key@, name@),
            keys_distinct(final(self)@),
    {
        let ghost old_view = self@;
        match self.find(key) {
            Some(i) => {
                let mut list = crate::cfg::copy_names(&self.entries[i].1);
                list.push(name);
                proof {
                    assert(list.deep_view() =~= old_view[i as int].1.push(name@));
                }
                self.insert(key.clone(), list);
            },
            None => {
                let mut list: Vec<String> = Vec::new();
                list.push(name);
                proof {
                    assert(list.deep_view() =~= seq![name@]);
                    assert(seq![name@] =~= Seq::<Seq<char>>::empty().push(name@));
                }
                self.insert(key.clone(), list);
            },
        }
    }
}

} // verus!
