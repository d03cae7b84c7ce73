use vstd::prelude::*;

use crate::service::{Service, ServiceView};
use crate::table::{
    append_name, has_key, index_of, keys_distinct, lemma_index_of, lemma_lookup_insert, lookup, names_of,
    table_insert, NameMap,
};

verus! {

/// The model of a service table: names with their services, in table order.
pub type TableView = Seq<(Seq<char>, ServiceView)>;

/// The model of a name index: names with lists of names.
pub type IndexView = Seq<(Seq<char>, Seq<Seq<char>>)>;

/// For each service of the table, the services it depends on.
pub open spec fn direct_index(t: TableView) -> IndexView
    decreases t.len(),
{
    if t.len() == 0 {
        seq![]
    } else {
        table_insert(direct_index(t.drop_last()), t.last().0, t.last().1.data.depends)
    }
}

/// `r` with `key` appended to the list of each name in `deps`.
pub open spec fn add_dependents(r: IndexView, key: Seq<char>, deps: Seq<Seq<char>>) -> IndexView
    decreases deps.len(),
{
    if deps.len() == 0 {
        r
    } else {
        append_name(add_dependents(r, key, deps.drop_last()), deps.last(), key)
    }
}

/// For each name that some service depends on, the services that depend on
/// it, in table order.
pub open spec fn reverse_index(t: TableView) -> IndexView
    decreases t.len(),
{
    if t.len() == 0 {
        seq![]
    } else {
        add_dependents(reverse_index(t.drop_last()), t.last().0, t.last().1.data.depends)
    }
}

/// The dependency relation of the services, in both directions.
#[derive(Debug)]
pub struct DepGraph {
    /// Service A depends on: ..
    pub direct: NameMap<Vec<String>>,
    /// Service A is required for: ..
    pub reverse: NameMap<Vec<String>>,
}

impl DepGraph {
    /// The graph with no services.
    pub fn new() -> (g: DepGraph)
        ensures
            g.direct@ == IndexView::empty(),
            g.reverse@ == IndexView::empty(),
    {
        DepGraph { direct: NameMap::new(), reverse: NameMap::new() }
    }

    /// The dependency relation of the services of `services`.
    pub fn from_services(services: &NameMap<Service>) -> (g: DepGraph)
        ensures
            g.direct@ == direct_index(services@),
            g.reverse@ == reverse_index(services@),
    {
        let mut direct: NameMap<Vec<String>> = NameMap::new();
        let mut reverse: NameMap<Vec<String>> = NameMap::new();
        let ghost t = services@;
        let mut i: usize = 0;
        while i < services.len()
            invariant
                t == services@,
                i <= t.len(),
                direct@ == direct_index(t.take(i as int)),
                reverse@ == reverse_index(t.take(i as int)),
            decreases t.len() - i,
        {
            let key = services.key_at(i);
            let srvc = services.value_at(i);
            let deps = &srvc.data.depends;
            let ghost dv = deps.deep_view();
            let ghost start = reverse@;
            let mut record: Vec<String> = Vec::new();
            let mut j: usize = 0;
            while j < deps.len()
                invariant
                    dv == deps.deep_view(),
                    j <= dv.len(),
                    record.deep_view() =~= dv.take(j as int),
                    reverse@ == add_dependents(start, key@, dv.take(j as int)),
                decreases dv.len() - j,
            {
                record.push(deps[j].clone());
                reverse.push_name(&deps[j], key.clone());
                proof {
                    assert(dv.take((j + 1) as int).drop_last() =~= dv.take(j as int));
                    assert(dv[j as int] == deps[j as int]@);
                }
                j = j + 1;
            }
            direct.insert(key.clone(), record);
            proof {
                assert(dv.take(dv.len() as int) =~= dv);
                assert(t.take((i + 1) as int).drop_last() =~= t.take(i as int));
                assert(t[i as int].1.data.depends == dv);
            }
            i = i + 1;
        }
        proof {
            assert(t.take(t.len() as int) =~= t);
        }
        DepGraph { direct, reverse }
    }
}

// ---------------------------------------------------------------------------
// The two directions agree
// ---------------------------------------------------------------------------

proof fn lemma_names_of_append(t: IndexView, k: Seq<char>, name: Seq<char>, b: Seq<char>)
    ensures
        names_of(append_name(t, k, name), b) == (if b == k {
            names_of(t, k).push(name)
        } else {
            names_of(t, b)
        }),
{
    lemma_lookup_insert(t, k, names_of(t, k).push(name), b);
}

proof fn lemma_add_dependents(r: IndexView, key: Seq<char>, deps: Seq<Seq<char>>, b: Seq<char>, x: Seq<char>)
    ensures
        names_of(add_dependents(r, key, deps), b).contains(x) <==> (names_of(r, b).contains(x) || (
        x == key && deps.contains(b))),
    decreases deps.len(),
{
    if deps.len() > 0 {
        let s = add_dependents(r, key, deps.drop_last());
        lemma_add_dependents(r, key, deps.drop_last(), b, x);
        lemma_names_of_append(s, deps.last(), key, b);
        if deps.contains(b) && !deps.drop_last().contains(b) {
            let w = choose|i: int| 0 <= i < deps.len() && deps[i] == b;
            if w < deps.len() - 1 {
                assert(deps.drop_last()[w] == b);
            }
            assert(names_of(s, b).push(key)[names_of(s, b).len() as int] == key);
        }
        if deps.drop_last().contains(b) {
            let w = choose|i: int| 0 <= i < deps.drop_last().len() && deps.drop_last()[i] == b;
            assert(deps[w] == b);
        }
        if deps.last() == b {
            assert(deps[deps.len() - 1] == b);
            assert(names_of(s, b).push(key)[names_of(s, b).len() as int] == key);
            if names_of(s, b).contains(x) {
                let w = choose|i: int| 0 <= i < names_of(s, b).len() && names_of(s, b)[i] == x;
                assert(names_of(s, b).push(key)[w] == x);
            }
            if names_of(s, b).push(key).contains(x) && x != key {
                let w = choose|i: int|
                    0 <= i < names_of(s, b).push(key).len() && names_of(s, b).push(key)[i] == x;
                assert(names_of(s, b)[w] == x);
            }
        } else {
            if deps.contains(b) {
                let w = choose|i: int| 0 <= i < deps.len() && deps[i] == b;
                assert(w < deps.len() - 1);
                assert(deps.drop_last()[w] == b);
            }
        }
    }
}

proof fn lemma_distinct_prefix(t: TableView)
    requires
        t.len() > 0,
        keys_distinct(t),
    ensures
        keys_distinct(t.drop_last()),
        !has_key(t.drop_last(), t.last().0),
{
    let s = t.drop_last();
    assert forall|i: int, j: int| 0 <= i < j < s.len() implies s[i].0 != s[j].0 by {
        assert(s[i] == t[i] && s[j] == t[j]);
    }
    if has_key(s, t.last().0) {
        let w = choose|i: int| 0 <= i < s.len() && #[trigger] s[i].0 == t.last().0;
        assert(t[w].0 == t[t.len() - 1].0);
    }
}

/// Where the direct index finds a service's dependencies.
pub proof fn lemma_direct_keys(t: TableView, k: Seq<char>)
    requires
        keys_distinct(t),
    ensures
        has_key(direct_index(t), k) == has_key(t, k),
        lookup(direct_index(t), k) == (match lookup(t, k) {
            Some(s) => Some(s.data.depends),
            None => None::<Seq<Seq<char>>>,
        }),
    decreases t.len(),
{
    if t.len() > 0 {
        let s = t.drop_last();
        lemma_distinct_prefix(t);
        lemma_direct_keys(s, k);
        lemma_lookup_insert(direct_index(s), t.last().0, t.last().1.data.depends, k);
        lemma_index_of(t, k);
        lemma_index_of(s, k);
        assert(has_key(t, k) == (has_key(s, k) || t.last().0 == k)) by {
            if has_key(t, k) {
                let w = choose|i: int| 0 <= i < t.len() && #[trigger] t[i].0 == k;
                if w < t.len() - 1 {
                    assert(s[w].0 == k);
                }
            }
            if has_key(s, k) {
                let w = choose|i: int| 0 <= i < s.len() && #[trigger] s[i].0 == k;
                assert(t[w].0 == k);
            }
            assert(t[t.len() - 1].0 == t.last().0);
        }
        if index_of(s, k) >= 0 {
            assert(t[index_of(s, k)] == s[index_of(s, k)]);
        }
        if k == t.last().0 {
            assert(t[t.len() - 1].0 == k);
        }
    }
}

/// Service `a` lists `b` among its dependencies exactly when `a` is listed
/// among the services that require `b`.
pub proof fn lemma_dependency_symmetry(t: TableView, a: Seq<char>, b: Seq<char>)
    requires
        keys_distinct(t),
    ensures
        names_of(direct_index(t), a).contains(b) <==> names_of(reverse_index(t), b).contains(a),
    decreases t.len(),
{
    if t.len() > 0 {
        let s = t.drop_last();
        let ka = t.last().0;
        let da = t.last().1.data.depends;
        lemma_distinct_prefix(t);
        lemma_dependency_symmetry(s, a, b);
        lemma_add_dependents(reverse_index(s), ka, da, b, a);
        lemma_lookup_insert(direct_index(s), ka, da, a);
        if a == ka {
            lemma_direct_keys(s, ka);
            lemma_index_of(direct_index(s), ka);
            assert(names_of(direct_index(s), ka) =~= seq![]);
            lemma_dependency_symmetry(s, ka, b);
        }
    }
}

} // verus!
