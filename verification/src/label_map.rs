//! A map from names to values that remembers the order in which names were
//! first inserted.

use itertools::Itertools;
use vstd::prelude::*;

verus! {

/// Whether no name occurs twice in `es`.
pub open spec fn names_distinct<V>(es: Seq<(Seq<char>, V)>) -> bool {
    forall|i: int, j: int| 0 <= i < j < es.len() ==> #[trigger] es[i].0 != #[trigger] es[j].0
}

/// Whether `k` names an entry of `es`.
pub open spec fn has_name<V>(es: Seq<(Seq<char>, V)>, k: Seq<char>) -> bool {
    exists|i: int| 0 <= i < es.len() && #[trigger] es[i].0 == k
}

/// The entries after setting `k` to `v`: the entry named `k` is replaced in
/// place, or a new entry is added at the end.
pub open spec fn entries_insert<V>(es: Seq<(Seq<char>, V)>, k: Seq<char>, v: V) -> Seq<(Seq<char>, V)> {
    if has_name(es, k) {
        let i = choose|i: int| 0 <= i < es.len() && #[trigger] es[i].0 == k;
        es.update(i, (k, v))
    } else {
        es.push((k, v))
    }
}

/// The value stored under `k`, if any.
pub open spec fn lookup<V>(es: Seq<(Seq<char>, V)>, k: Seq<char>) -> Option<V> {
    if has_name(es, k) {
        Some(es[choose|i: int| 0 <= i < es.len() && #[trigger] es[i].0 == k].1)
    } else {
        None
    }
}

/// The entries with `f` applied to every value.
pub open spec fn entries_map<V, W>(es: Seq<(Seq<char>, V)>, f: spec_fn(V) -> W) -> Seq<(Seq<char>, W)> {
    es.map_values(|e: (Seq<char>, V)| (e.0, f(e.1)))
}

/// Mapping the values keeps the names, and so their distinctness.
pub proof fn lemma_entries_map_names<V, W>(es: Seq<(Seq<char>, V)>, f: spec_fn(V) -> W)
    ensures
        entries_map(es, f).len() == es.len(),
        forall|i: int| 0 <= i < es.len() ==> #[trigger] entries_map(es, f)[i] == (es[i].0, f(es[i].1)),
        forall|k: Seq<char>| has_name(entries_map(es, f), k) <==> #[trigger] has_name(es, k),
        names_distinct(es) ==> names_distinct(entries_map(es, f)),
{
    let m = entries_map(es, f);
    assert forall|k: Seq<char>| has_name(m, k) <==> #[trigger] has_name(es, k) by {
        if has_name(m, k) {
            let i = choose|i: int| 0 <= i < m.len() && #[trigger] m[i].0 == k;
            assert(es[i].0 == k);
        }
        if has_name(es, k) {
            let i = choose|i: int| 0 <= i < es.len() && #[trigger] es[i].0 == k;
            assert(m[i].0 == k);
        }
    }
    if names_distinct(es) {
        assert forall|i: int, j: int| 0 <= i < j < m.len() implies #[trigger] m[i].0 != #[trigger] m[j].0 by {
            assert(es[i].0 != es[j].0);
        }
    }
}

/// Setting an entry commutes with mapping the values.
pub proof fn lemma_entries_map_insert<V, W>(es: Seq<(Seq<char>, V)>, k: Seq<char>, v: V, f: spec_fn(V) -> W)
    requires
        names_distinct(es),
    ensures
        entries_map(entries_insert(es, k, v), f) == entries_insert(entries_map(es, f), k, f(v)),
{
    lemma_entries_map_names(es, f);
    let m = entries_map(es, f);
    if has_name(es, k) {
        let i = choose|i: int| 0 <= i < es.len() && #[trigger] es[i].0 == k;
        let j = choose|j: int| 0 <= j < m.len() && #[trigger] m[j].0 == k;
        assert(es[j].0 == k);
        assert(i == j);
        assert(entries_map(entries_insert(es, k, v), f) =~= entries_insert(m, k, f(v)));
    } else {
        assert(entries_map(entries_insert(es, k, v), f) =~= entries_insert(m, k, f(v)));
    }
}

/// Looking up commutes with mapping the values.
pub proof fn lemma_entries_map_lookup<V, W>(es: Seq<(Seq<char>, V)>, k: Seq<char>, f: spec_fn(V) -> W)
    requires
        names_distinct(es),
    ensures
        lookup(entries_map(es, f), k) == (match lookup(es, k) {
            Some(v) => Some(f(v)),
            None => None,
        }),
{
    lemma_entries_map_names(es, f);
    let m = entries_map(es, f);
    if has_name(es, k) {
        let i = choose|i: int| 0 <= i < es.len() && #[trigger] es[i].0 == k;
        let j = choose|j: int| 0 <= j < m.len() && #[trigger] m[j].0 == k;
        assert(es[j].0 == k);
        assert(i == j);
    }
}

/// After setting `k`, an entry is named `k`, the old entries keep their
/// names and places, and at most one entry is added.
pub proof fn lemma_insert_shape<V>(es: Seq<(Seq<char>, V)>, k: Seq<char>, v: V)
    ensures
        has_name(entries_insert(es, k, v), k),
        lookup(entries_insert(es, k, v), k) == (if names_distinct(es) { Some(v) } else { lookup(entries_insert(es, k, v), k) }),
        es.len() <= entries_insert(es, k, v).len() <= es.len() + 1,
        forall|i: int| 0 <= i < es.len() ==> #[trigger] entries_insert(es, k, v)[i].0 == es[i].0,
{
    let r = entries_insert(es, k, v);
    if has_name(es, k) {
        let i = choose|i: int| 0 <= i < es.len() && #[trigger] es[i].0 == k;
        assert(r[i].0 == k);
        if names_distinct(es) {
            let j = choose|j: int| 0 <= j < r.len() && #[trigger] r[j].0 == k;
            if j != i {
                assert(es[j].0 == k);
            }
        }
    } else {
        assert(r[es.len() as int].0 == k);
        if names_distinct(es) {
            let j = choose|j: int| 0 <= j < r.len() && #[trigger] r[j].0 == k;
            if j < es.len() {
                assert(es[j].0 == k);
            }
        }
    }
}

/// Setting `k` leaves what other names give.
pub proof fn lemma_lookup_insert_other<V>(es: Seq<(Seq<char>, V)>, k: Seq<char>, v: V, q: Seq<char>)
    requires
        names_distinct(es),
        q != k,
    ensures
        lookup(entries_insert(es, k, v), q) == lookup(es, q),
{
    let r = entries_insert(es, k, v);
    lemma_insert_shape(es, k, v);
    if has_name(es, q) {
        let i = choose|i: int| 0 <= i < es.len() && #[trigger] es[i].0 == q;
        assert(r[i].0 == q);
        let j = choose|j: int| 0 <= j < r.len() && #[trigger] r[j].0 == q;
        if j < es.len() {
            assert(es[j].0 == q);
            if has_name(es, k) {
                let m = choose|m: int| 0 <= m < es.len() && #[trigger] es[m].0 == k;
                assert(m != j);
                assert(r[j] == es[j]);
            } else {
                assert(r[j] == es[j]);
            }
        } else {
            assert(!has_name(es, k) && r[j].0 == k);
        }
    } else {
        if has_name(r, q) {
            let j = choose|j: int| 0 <= j < r.len() && #[trigger] r[j].0 == q;
            if j < es.len() {
                assert(es[j].0 == q);
            } else {
                assert(r[j].0 == k);
            }
        }
    }
}

/// A map from names to values, kept in insertion order.
pub struct LabelMap<V> {
    entries: Vec<(String, V)>,
}

impl<V> LabelMap<V> {
    /// The entries, names as character sequences, in insertion order.
    pub closed spec fn entries(self) -> Seq<(Seq<char>, V)> {
        self.entries@.map_values(|e: (String, V)| (e.0@, e.1))
    }

    /// The names are distinct.
    pub open spec fn wf(self) -> bool {
        names_distinct(self.entries())
    }

    /// An empty map.
    pub fn new() -> (r: LabelMap<V>)
        ensures
            r.entries() == Seq::<(Seq<char>, V)>::empty(),
            r.wf(),
    {
        let r = LabelMap { entries: Vec::new() };
        assert(r.entries() =~= Seq::<(Seq<char>, V)>::empty());
        r
    }

    /// Whether the names are distinct.
    pub fn names_unique(&self) -> (r: bool)
        ensures
            r == self.wf(),
    {
        let ghost es = self.entries();
        let mut i: usize = 0;
        while i < self.entries.len()
            invariant
                es == self.entries(),
                i <= es.len(),
                forall|a: int, b: int| 0 <= a < b < es.len() && a < i ==> #[trigger] es[a].0 != #[trigger] es[b].0,
            decreases es.len() - i,
        {
            let mut j: usize = i + 1;
            while j < self.entries.len()
                invariant
                    es == self.entries(),
                    i < es.len(),
                    i + 1 <= j <= es.len(),
                    forall|a: int, b: int| 0 <= a < b < es.len() && a < i ==> #[trigger] es[a].0 != #[trigger] es[b].0,
                    forall|b: int| i < b < j ==> es[i as int].0 != #[trigger] es[b].0,
                decreases es.len() - j,
            {
                if text_eq(self.entries[i].0.as_str(), self.entries[j].0.as_str()) {
                    assert(es[i as int].0 == es[j as int].0);
                    return false;
                }
                j = j + 1;
            }
            i = i + 1;
        }
        true
    }

    /// Number of entries.
    pub fn len(&self) -> (r: usize)
        ensures
            r == self.entries().len(),
    {
        self.entries.len()
    }

    /// Position of the entry named `k`, if any.
    pub fn position(&self, k: &str) -> (r: Option<usize>)
        ensures
            r matches Some(i) ==> i < self.entries().len() && self.entries()[i as int].0 == k@,
            r is None <==> !has_name(self.entries(), k@),
    {
        let mut i: usize = 0;
        while i < self.entries.len()
            invariant
                i <= self.entries@.len(),
                forall|j: int| 0 <= j < i ==> self.entries()[j].0 != k@,
            decreases self.entries@.len() - i,
        {
            if text_eq(self.entries[i].0.as_str(), k) {
                assert(self.entries()[i as int].0 == k@);
                return Some(i);
            }
            i = i + 1;
        }
        None
    }

    /// Whether an entry is named `k`.
    pub fn contains_key(&self, k: &str) -> (r: bool)
        ensures
            r == has_name(self.entries(), k@),
    {
        self.position(k).is_some()
    }

    /// Name of the entry at position `i`.
    pub fn name_at(&self, i: usize) -> (r: &String)
        requires
            i < self.entries().len(),
        ensures
            r@ == self.entries()[i as int].0,
    {
        &self.entries[i].0
    }

    /// Value of the entry at position `i`.
    pub fn value_at(&self, i: usize) -> (r: &V)
        requires
            i < self.entries().len(),
        ensures
            *r == self.entries()[i as int].1,
    {
        &self.entries[i].1
    }

    /// Value of the entry named `k`, if any.
    pub fn get(&self, k: &str) -> (r: Option<&V>)
        ensures
            r is Some <==> has_name(self.entries(), k@),
            r matches Some(v) ==> exists|i: int|
                0 <= i < self.entries().len() && self.entries()[i].0 == k@ && self.entries()[i].1 == *v,
            self.wf() ==> match r {
                Some(v) => lookup(self.entries(), k@) == Some(*v),
                None => lookup(self.entries(), k@) is None,
            },
    {
        match self.position(k) {
            Some(i) => {
                proof {
                    if self.wf() {
                        let es = self.entries();
                        let j = choose|j: int| 0 <= j < es.len() && #[trigger] es[j].0 == k@;
                        assert(j == i);
                    }
                }
                Some(&self.entries[i].1)
            },
            None => None,
        }
    }

    /// Sets the value of `k` to `v`, in place if `k` is present, as a new
    /// last entry otherwise.
    pub fn insert(&mut self, k: String, v: V)
        requires
            old(self).wf(),
        ensures
            final(self).entries() == entries_insert(old(self).entries(), k@, v),
            final(self).wf(),
    {
        let ghost es = self.entries();
        match self.position(k.as_str()) {
            Some(i) => {
                proof {
                    let j = choose|j: int| 0 <= j < es.len() && #[trigger] es[j].0 == k@;
                    assert(j == i);
                }
                let ghost old_entries = self.entries@;
                self.entries.set(i, (k, v));
                assert(self.entries() =~= es.update(i as int, (k@, v)));
            },
            None => {
                self.entries.push((k, v));
                assert(self.entries() =~= es.push((k@, v)));
            },
        }
    }

    /// Replaces the value of the entry at position `i`.
    pub fn set_value_at(&mut self, i: usize, v: V)
        requires
            i < old(self).entries().len(),
            old(self).wf(),
        ensures
            final(self).wf(),
            final(self).entries() == old(self).entries().update(
                i as int,
                (old(self).entries()[i as int].0, v),
            ),
    {
        let ghost es = self.entries();
        let k = self.entries[i].0.clone();
        self.entries.set(i, (k, v));
        assert(self.entries() =~= es.update(i as int, (es[i as int].0, v)));
    }
}

impl<T> LabelMap<Vec<T>> {
    /// Appends `x` to the list of the entry at position `i`.
    pub fn push_item(&mut self, i: usize, x: T)
        requires
            old(self).wf(),
            i < old(self).entries().len(),
        ensures
            final(self).wf(),
            final(self).entries().len() == old(self).entries().len(),
            forall|k: int|
                0 <= k < final(self).entries().len() ==> #[trigger] final(self).entries()[k].0
                    == old(self).entries()[k].0,
            forall|k: int|
                0 <= k < final(self).entries().len() && k != i ==> #[trigger] final(self).entries()[k].1
                    == old(self).entries()[k].1,
            final(self).entries()[i as int].1@ == old(self).entries()[i as int].1@.push(x),
    {
        let ghost es = self.entries();
        let (k, mut v) = self.entries.remove(i);
        v.push(x);
        self.entries.insert(i, (k, v));
        assert forall|a: int, b: int|
            0 <= a < b < self.entries().len() implies #[trigger] self.entries()[a].0
                != #[trigger] self.entries()[b].0 by {
            assert(self.entries()[a].0 == es[a].0);
            assert(self.entries()[b].0 == es[b].0);
        }
    }
}

impl LabelMap<usize> {
    /// The entries as name/number pairs, in insertion order.
    pub fn pairs(&self) -> (r: Vec<(String, usize)>)
        ensures
            pairs_view(r@) == self.entries(),
    {
        let mut r: Vec<(String, usize)> = Vec::new();
        let mut i: usize = 0;
        while i < self.entries.len()
            invariant
                i <= self.entries@.len(),
                pairs_view(r@) == self.entries().take(i as int),
            decreases self.entries@.len() - i,
        {
            let ghost r0 = r@;
            let name = self.entries[i].0.clone();
            r.push((name, self.entries[i].1));
            proof {
                assert(r@ == r0.push((name, self.entries@[i as int].1)));
                assert(pairs_view(r@) =~= pairs_view(r0).push((name@, self.entries@[i as int].1)));
                assert(pairs_view(r@) =~= self.entries().take(i + 1));
            }
            i = i + 1;
        }
        assert(self.entries().take(i as int) =~= self.entries());
        r
    }
}

/// Name/number pairs with names as character sequences.
pub open spec fn pairs_view(v: Seq<(String, usize)>) -> Seq<(Seq<char>, usize)> {
    v.map_values(|e: (String, usize)| (e.0@, e.1))
}

/// `s` (sorted by number) with `e` inserted after every entry whose number
/// is not greater than its own.
pub open spec fn insert_by_number(s: Seq<(Seq<char>, usize)>, e: (Seq<char>, usize)) -> Seq<(Seq<char>, usize)>
    decreases s.len(),
{
    if s.len() == 0 {
        seq![e]
    } else if s.last().1 <= e.1 {
        s.push(e)
    } else {
        insert_by_number(s.drop_last(), e).push(s.last())
    }
}

/// The entries sorted by number; entries with equal numbers keep their
/// order (a stable sort).
pub open spec fn sort_by_number(s: Seq<(Seq<char>, usize)>) -> Seq<(Seq<char>, usize)>
    decreases s.len(),
{
    if s.len() == 0 {
        s
    } else {
        insert_by_number(sort_by_number(s.drop_last()), s.last())
    }
}

/// The pairs sorted by number, stably, by `Itertools::sorted_by_key`.
#[verifier::external_body]
pub(crate) fn sorted_by_number(v: Vec<(String, usize)>) -> (r: Vec<(String, usize)>)
    ensures
        pairs_view(r@) == sort_by_number(pairs_view(v@)),
{
    v.into_iter().sorted_by_key(|e| e.1).collect()
}

/// Text comparison, computed by `str`'s `==`.
#[verifier::external_body]
pub(crate) fn text_eq(a: &str, b: &str) -> (r: bool)
    ensures
        r == (a@ == b@),
{
    a == b
}

/// Sorting keeps the set of names.
pub proof fn lemma_sort_keeps_names(s: Seq<(Seq<char>, usize)>)
    ensures
        forall|k: int|
            0 <= k < sort_by_number(s).len() ==> has_name(s, #[trigger] sort_by_number(s)[k].0),
        sort_by_number(s).len() == s.len(),
    decreases s.len(),
{
    if s.len() > 0 {
        lemma_sort_keeps_names(s.drop_last());
        lemma_insert_keeps_names(sort_by_number(s.drop_last()), s.last());
        assert forall|k: int|
            0 <= k < sort_by_number(s).len() implies has_name(s, #[trigger] sort_by_number(s)[k].0) by {
            let t = sort_by_number(s);
            if t[k] == s.last() {
                assert(s[s.len() - 1].0 == t[k].0);
            } else {
                let sd = s.drop_last();
                let m = choose|m: int| 0 <= m < sort_by_number(sd).len() && sort_by_number(sd)[m] == t[k];
                assert(has_name(sd, sort_by_number(sd)[m].0));
                let w = choose|w: int| 0 <= w < sd.len() && #[trigger] sd[w].0 == sort_by_number(sd)[m].0;
                assert(s[w].0 == t[k].0);
            }
        }
    }
}

/// Inserting keeps every element and adds one.
pub proof fn lemma_insert_keeps_names(s: Seq<(Seq<char>, usize)>, e: (Seq<char>, usize))
    ensures
        insert_by_number(s, e).len() == s.len() + 1,
        forall|k: int|
            0 <= k < insert_by_number(s, e).len() ==> (#[trigger] insert_by_number(s, e)[k] == e
                || exists|m: int| 0 <= m < s.len() && s[m] == insert_by_number(s, e)[k]),
    decreases s.len(),
{
    if s.len() > 0 && s.last().1 > e.1 {
        lemma_insert_keeps_names(s.drop_last(), e);
        let t = insert_by_number(s, e);
        assert forall|k: int| 0 <= k < t.len() implies (#[trigger] t[k] == e || exists|m: int|
            0 <= m < s.len() && s[m] == t[k]) by {
            if k == t.len() - 1 {
                assert(s[s.len() - 1] == t[k]);
            } else {
                let t2 = insert_by_number(s.drop_last(), e);
                assert(t[k] == t2[k]);
                if t2[k] != e {
                    let m = choose|m: int| 0 <= m < s.drop_last().len() && s.drop_last()[m] == t2[k];
                    assert(s[m] == t[k]);
                }
            }
        }
    } else if s.len() > 0 {
        let t = insert_by_number(s, e);
        assert forall|k: int| 0 <= k < t.len() implies (#[trigger] t[k] == e || exists|m: int|
            0 <= m < s.len() && s[m] == t[k]) by {
            if k < s.len() {
                assert(s[k] == t[k]);
            }
        }
    }
}

/// Inserting an entry with a new name keeps the names distinct.
pub proof fn lemma_insert_distinct(s: Seq<(Seq<char>, usize)>, e: (Seq<char>, usize))
    requires
        names_distinct(s),
        !has_name(s, e.0),
    ensures
        names_distinct(insert_by_number(s, e)),
    decreases s.len(),
{
    if s.len() > 0 && s.last().1 > e.1 {
        let s2 = s.drop_last();
        assert(!has_name(s2, e.0)) by {
            if has_name(s2, e.0) {
                let j = choose|j: int| 0 <= j < s2.len() && #[trigger] s2[j].0 == e.0;
                assert(s[j].0 == e.0);
            }
        }
        lemma_insert_distinct(s2, e);
        lemma_insert_keeps_names(s2, e);
        let t2 = insert_by_number(s2, e);
        let x = s.last();
        assert forall|k: int| 0 <= k < t2.len() implies #[trigger] t2[k].0 != x.0 by {
            if t2[k] == e {
                assert(s[s.len() - 1].0 == x.0);
            } else {
                let m = choose|m: int| 0 <= m < s2.len() && s2[m] == t2[k];
                assert(s[m] == s2[m]);
                assert(s[s.len() - 1].0 == x.0);
            }
        }
        let t = insert_by_number(s, e);
        assert(t == t2.push(x));
        assert forall|i: int, j: int| 0 <= i < j < t.len() implies #[trigger] t[i].0 != #[trigger] t[j].0 by {
            if j == t.len() - 1 {
                assert(t[i] == t2[i]);
            } else {
                assert(t[i] == t2[i] && t[j] == t2[j]);
            }
        }
    } else if s.len() > 0 {
        let t = insert_by_number(s, e);
        assert forall|i: int, j: int| 0 <= i < j < t.len() implies #[trigger] t[i].0 != #[trigger] t[j].0 by {
            if j == t.len() - 1 {
                assert(t[i] == s[i]);
            } else {
                assert(t[i] == s[i] && t[j] == s[j]);
            }
        }
    }
}

/// Sorting by number keeps distinct names distinct.
pub proof fn lemma_sort_distinct(s: Seq<(Seq<char>, usize)>)
    requires
        names_distinct(s),
    ensures
        names_distinct(sort_by_number(s)),
    decreases s.len(),
{
    if s.len() > 0 {
        let s2 = s.drop_last();
        assert(names_distinct(s2)) by {
            assert forall|i: int, j: int| 0 <= i < j < s2.len() implies #[trigger] s2[i].0 != #[trigger] s2[j].0 by {
                assert(s2[i] == s[i] && s2[j] == s[j]);
            }
        }
        lemma_sort_distinct(s2);
        lemma_sort_keeps_names(s2);
        let t = sort_by_number(s2);
        assert(!has_name(t, s.last().0)) by {
            if has_name(t, s.last().0) {
                let k = choose|k: int| 0 <= k < t.len() && #[trigger] t[k].0 == s.last().0;
                assert(has_name(s2, t[k].0));
                let j = choose|j: int| 0 <= j < s2.len() && #[trigger] s2[j].0 == t[k].0;
                assert(s[j].0 == s[s.len() - 1].0);
            }
        }
        lemma_insert_distinct(t, s.last());
    }
}

} // verus!
