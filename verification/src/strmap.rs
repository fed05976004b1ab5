//! String-keyed maps and sets kept sorted by key, so that walking one gives
//! its keys in ascending order and two with the same contents are equal.
use vstd::prelude::*;
use crate::text::{lemma_before_asymmetric, lemma_before_irreflexive, lemma_before_total, lemma_before_transitive, owned, seq_before, str_before, str_same, views};

verus! {

/// The keys of a list of pairs.
pub open spec fn keys_of<V>(es: Seq<(String, V)>) -> Seq<Seq<char>> {
    es.map_values(|e: (String, V)| e.0@)
}

/// Keys strictly ascending: no key occurs twice.
pub open spec fn sorted_keys(ks: Seq<Seq<char>>) -> bool {
    forall|i: int, j: int| 0 <= i < j < ks.len() ==> seq_before(#[trigger] ks[i], #[trigger] ks[j])
}

/// The value paired with the first occurrence of `k`.
pub open spec fn lookup<V>(es: Seq<(String, V)>, k: Seq<char>) -> Option<V>
    decreases es.len(),
{
    if es.len() == 0 {
        None
    } else if es[0].0@ == k {
        Some(es[0].1)
    } else {
        lookup(es.drop_first(), k)
    }
}

/// `lookup` finds `k` at the index where it stands, and nothing where it
/// does not occur.
pub proof fn lemma_lookup_at<V>(es: Seq<(String, V)>, k: Seq<char>)
    requires
        sorted_keys(keys_of(es)),
    ensures
        forall|j: int| 0 <= j < es.len() && es[j].0@ == k ==> lookup(es, k) == Some(es[j].1),
        (forall|j: int| 0 <= j < es.len() ==> es[j].0@ != k) ==> lookup(es, k) is None,
    decreases es.len(),
{
    if es.len() > 0 {
        let rest = es.drop_first();
        assert(sorted_keys(keys_of(rest))) by {
            assert forall|i: int, j: int| 0 <= i < j < keys_of(rest).len() implies seq_before(
                #[trigger] keys_of(rest)[i],
                #[trigger] keys_of(rest)[j],
            ) by {
                assert(keys_of(rest)[i] == keys_of(es)[i + 1]);
                assert(keys_of(rest)[j] == keys_of(es)[j + 1]);
            }
        }
        lemma_lookup_at(rest, k);
        assert forall|j: int| 0 <= j < es.len() && es[j].0@ == k implies lookup(es, k) == Some(
            es[j].1,
        ) by {
            if j > 0 {
                if es[0].0@ == k {
                    assert(keys_of(es)[0] == k && keys_of(es)[j] == k);
                    lemma_before_irreflexive(k);
                }
                assert(rest[j - 1] == es[j]);
            }
        }
        if forall|j: int| 0 <= j < es.len() ==> es[j].0@ != k {
            assert(es[0].0@ != k);
            assert forall|j: int| 0 <= j < rest.len() implies rest[j].0@ != k by {
                assert(rest[j] == es[j + 1]);
            }
        }
    }
}


/// Two lists with the same keys find a key at the same index.
pub proof fn lemma_lookup_pairwise<V>(a: Seq<(String, V)>, b: Seq<(String, V)>, k: Seq<char>)
    requires
        keys_of(a) == keys_of(b),
    ensures
        lookup(a, k) is Some == lookup(b, k) is Some,
        lookup(a, k) is Some ==> exists|i: int| 0 <= i < a.len() && #[trigger] a[i].0@ == k && lookup(a, k) == Some(a[i].1) && lookup(b, k) == Some(b[i].1),
    decreases a.len(),
{
    assert(a.len() == keys_of(a).len());
    assert(b.len() == keys_of(b).len());
    if a.len() > 0 {
        assert(a[0].0@ == keys_of(a)[0]);
        assert(b[0].0@ == keys_of(b)[0]);
        assert(keys_of(a.drop_first()) =~= keys_of(a).drop_first());
        assert(keys_of(b.drop_first()) =~= keys_of(b).drop_first());
        lemma_lookup_pairwise(a.drop_first(), b.drop_first(), k);
        if a[0].0@ != k && lookup(a, k) is Some {
            let i = choose|i: int| 0 <= i < a.drop_first().len() && #[trigger] a.drop_first()[i].0@ == k && lookup(a.drop_first(), k) == Some(a.drop_first()[i].1) && lookup(b.drop_first(), k) == Some(b.drop_first()[i].1);
            assert(a[i + 1].0@ == k);
        }
    }
}

/// Strict order of the members: no member twice.
pub open spec fn ascending(ms: Seq<Seq<char>>) -> bool {
    sorted_keys(ms)
}

/// The members of `xs`, each once, in ascending order.
pub open spec fn sorted_set(xs: Seq<Seq<char>>) -> Seq<Seq<char>> {
    choose|ms: Seq<Seq<char>>| ascending(ms) && forall|q: Seq<char>| #[trigger] ms.contains(q) == xs.contains(q)
}

/// Two ascending lists with the same members are equal.
pub proof fn lemma_ascending_unique(a: Seq<Seq<char>>, b: Seq<Seq<char>>)
    requires
        ascending(a),
        ascending(b),
        forall|q: Seq<char>| #[trigger] a.contains(q) == b.contains(q),
    ensures
        a == b,
    decreases a.len(),
{
    if a.len() == 0 {
        if b.len() > 0 {
            assert(b.contains(b[0]));
            assert(a.contains(b[0]));
        }
        assert(a =~= b);
    } else if b.len() == 0 {
        assert(a.contains(a[0]));
        assert(b.contains(a[0]));
    } else {
        // the heads are the least members, so they agree
        assert(a.contains(a[0]));
        assert(b.contains(b[0]));
        assert(a.contains(b[0]));
        assert(b.contains(a[0]));
        let ia = choose|i: int| 0 <= i < a.len() && a[i] == b[0];
        let ib = choose|i: int| 0 <= i < b.len() && b[i] == a[0];
        if a[0] != b[0] {
            assert(ia != 0 && ib != 0);
            assert(seq_before(a[0], a[ia]));
            assert(seq_before(b[0], b[ib]));
            lemma_before_asymmetric(a[0], b[0]);
        }
        let ra = a.drop_first();
        let rb = b.drop_first();
        assert(ascending(ra)) by {
            assert forall|i: int, j: int| 0 <= i < j < ra.len() implies seq_before(#[trigger] ra[i], #[trigger] ra[j]) by {
                assert(seq_before(a[i + 1], a[j + 1]));
            }
        }
        assert(ascending(rb)) by {
            assert forall|i: int, j: int| 0 <= i < j < rb.len() implies seq_before(#[trigger] rb[i], #[trigger] rb[j]) by {
                assert(seq_before(b[i + 1], b[j + 1]));
            }
        }
        assert forall|q: Seq<char>| #[trigger] ra.contains(q) == rb.contains(q) by {
            if ra.contains(q) {
                let i = choose|i: int| 0 <= i < ra.len() && ra[i] == q;
                assert(a[i + 1] == q);
                assert(seq_before(a[0], q));
                lemma_before_irreflexive(q);
                assert(a.contains(q));
                assert(b.contains(q));
                let j = choose|j: int| 0 <= j < b.len() && b[j] == q;
                assert(j != 0);
                assert(rb[j - 1] == q);
            }
            if rb.contains(q) {
                let i = choose|i: int| 0 <= i < rb.len() && rb[i] == q;
                assert(b[i + 1] == q);
                assert(seq_before(b[0], q));
                lemma_before_irreflexive(q);
                assert(b.contains(q));
                assert(a.contains(q));
                let j = choose|j: int| 0 <= j < a.len() && a[j] == q;
                assert(j != 0);
                assert(ra[j - 1] == q);
            }
        }
        lemma_ascending_unique(ra, rb);
        assert(a =~= seq![a[0]] + ra);
        assert(b =~= seq![b[0]] + rb);
    }
}

/// An ascending list with the members of `xs` is `sorted_set(xs)`.
pub proof fn lemma_sorted_set(ms: Seq<Seq<char>>, xs: Seq<Seq<char>>)
    requires
        ascending(ms),
        forall|q: Seq<char>| #[trigger] ms.contains(q) == xs.contains(q),
    ensures
        sorted_set(xs) == ms,
{
    let s = sorted_set(xs);
    assert(ascending(s) && forall|q: Seq<char>| #[trigger] s.contains(q) == xs.contains(q));
    lemma_ascending_unique(s, ms);
}


/// `ms` with `x` put in its place (once).
pub open spec fn ins_sorted(ms: Seq<Seq<char>>, x: Seq<char>) -> Seq<Seq<char>>
    decreases ms.len(),
{
    if ms.len() == 0 {
        seq![x]
    } else if ms[0] == x {
        ms
    } else if seq_before(x, ms[0]) {
        seq![x] + ms
    } else {
        seq![ms[0]] + ins_sorted(ms.drop_first(), x)
    }
}

proof fn lemma_ascending_cons(a: Seq<char>, rest: Seq<Seq<char>>)
    requires
        ascending(rest),
        forall|q: Seq<char>| #[trigger] rest.contains(q) ==> seq_before(a, q),
    ensures
        ascending(seq![a] + rest),
{
    let s = seq![a] + rest;
    assert forall|i: int, j: int| 0 <= i < j < s.len() implies seq_before(#[trigger] s[i], #[trigger] s[j]) by {
        assert(s[j] == rest[j - 1]);
        if i == 0 {
            assert(rest.contains(rest[j - 1]));
        } else {
            assert(s[i] == rest[i - 1]);
        }
    }
}

proof fn lemma_ins_sorted(ms: Seq<Seq<char>>, x: Seq<char>)
    requires
        ascending(ms),
    ensures
        ascending(ins_sorted(ms, x)),
        forall|q: Seq<char>| #[trigger] ins_sorted(ms, x).contains(q) == (ms.contains(q) || q == x),
    decreases ms.len(),
{
    let r = ins_sorted(ms, x);
    if ms.len() == 0 {
        assert(r.contains(x) ==> r[0] == x);
        assert forall|q: Seq<char>| #[trigger] r.contains(q) == (ms.contains(q) || q == x) by {
            if q == x {
                assert(r[0] == x);
            }
        }
    } else if ms[0] == x {
        assert forall|q: Seq<char>| #[trigger] r.contains(q) == (ms.contains(q) || q == x) by {
            if q == x {
                assert(ms[0] == x);
            }
        }
    } else {
        let rest = ms.drop_first();
        assert(ascending(rest)) by {
            assert forall|i: int, j: int| 0 <= i < j < rest.len() implies seq_before(#[trigger] rest[i], #[trigger] rest[j]) by {
                assert(seq_before(ms[i + 1], ms[j + 1]));
            }
        }
        assert forall|q: Seq<char>| #[trigger] rest.contains(q) implies seq_before(ms[0], q) by {
            let k = choose|k: int| 0 <= k < rest.len() && rest[k] == q;
            assert(seq_before(ms[0], ms[k + 1]));
        }
        assert forall|q: Seq<char>| #[trigger] ms.contains(q) == (q == ms[0] || rest.contains(q)) by {
            if ms.contains(q) && q != ms[0] {
                let k = choose|k: int| 0 <= k < ms.len() && ms[k] == q;
                assert(rest[k - 1] == q);
            }
            if rest.contains(q) {
                let k = choose|k: int| 0 <= k < rest.len() && rest[k] == q;
                assert(ms[k + 1] == q);
            }
            if q == ms[0] {
                assert(ms.contains(ms[0]));
            }
        }
        if seq_before(x, ms[0]) {
            assert forall|q: Seq<char>| #[trigger] ms.contains(q) implies seq_before(x, q) by {
                if q != ms[0] {
                    lemma_before_transitive(x, ms[0], q);
                }
            }
            lemma_ascending_cons(x, ms);
            assert forall|q: Seq<char>| #[trigger] r.contains(q) == (ms.contains(q) || q == x) by {
                if r.contains(q) {
                    let k = choose|k: int| 0 <= k < r.len() && r[k] == q;
                    if k > 0 {
                        assert(ms[k - 1] == q);
                    }
                }
                if ms.contains(q) {
                    let k = choose|k: int| 0 <= k < ms.len() && ms[k] == q;
                    assert(r[k + 1] == q);
                }
                if q == x {
                    assert(r[0] == x);
                }
            }
        } else {
            lemma_before_total(x, ms[0]);
            lemma_ins_sorted(rest, x);
            let t = ins_sorted(rest, x);
            assert forall|q: Seq<char>| #[trigger] t.contains(q) implies seq_before(ms[0], q) by {
                if q != x {
                    assert(rest.contains(q));
                }
            }
            lemma_ascending_cons(ms[0], t);
            assert forall|q: Seq<char>| #[trigger] r.contains(q) == (ms.contains(q) || q == x) by {
                if r.contains(q) {
                    let k = choose|k: int| 0 <= k < r.len() && r[k] == q;
                    if k > 0 {
                        assert(t[k - 1] == q);
                        assert(t.contains(q));
                    }
                }
                if t.contains(q) {
                    let k = choose|k: int| 0 <= k < t.len() && t[k] == q;
                    assert(r[k + 1] == q);
                }
                if q == ms[0] {
                    assert(r[0] == q);
                }
            }
        }
    }
}

/// The members of `xs`, ascending, built by insertion.
pub open spec fn sort_seq(xs: Seq<Seq<char>>) -> Seq<Seq<char>>
    decreases xs.len(),
{
    if xs.len() == 0 {
        Seq::empty()
    } else {
        ins_sorted(sort_seq(xs.drop_last()), xs.last())
    }
}

/// `sorted_set(xs)` is ascending and has exactly the members of `xs`.
pub proof fn lemma_sorted_set_members(xs: Seq<Seq<char>>)
    ensures
        ascending(sorted_set(xs)),
        forall|q: Seq<char>| #[trigger] sorted_set(xs).contains(q) == xs.contains(q),
    decreases xs.len(),
{
    lemma_sort_seq(xs);
    lemma_sorted_set(sort_seq(xs), xs);
}

proof fn lemma_sort_seq(xs: Seq<Seq<char>>)
    ensures
        ascending(sort_seq(xs)),
        forall|q: Seq<char>| #[trigger] sort_seq(xs).contains(q) == xs.contains(q),
    decreases xs.len(),
{
    if xs.len() > 0 {
        let init = xs.drop_last();
        lemma_sort_seq(init);
        lemma_ins_sorted(sort_seq(init), xs.last());
        assert forall|q: Seq<char>| #[trigger] sort_seq(xs).contains(q) == xs.contains(q) by {
            assert(sort_seq(xs).contains(q) == (sort_seq(init).contains(q) || q == xs.last()));
            if xs.contains(q) && q != xs.last() {
                let k = choose|k: int| 0 <= k < xs.len() && xs[k] == q;
                assert(init[k] == q);
            }
            if init.contains(q) {
                let k = choose|k: int| 0 <= k < init.len() && init[k] == q;
                assert(xs[k] == q);
            }
            if q == xs.last() {
                assert(xs[xs.len() - 1] == q);
            }
        }
    } else {
        assert(ascending(sort_seq(xs)));
    }
}

/// A map from strings to `V`, its entries sorted by key.
#[derive(Debug, PartialEq, Eq)]
pub struct StrMap<V> {
    pub(crate) entries: Vec<(String, V)>,
}

impl<V> StrMap<V> {
    #[verifier::type_invariant]
    pub closed spec fn well_formed(self) -> bool {
        sorted_keys(keys_of(self.entries@))
    }

    /// The entries, ascending by key.
    pub closed spec fn pairs(self) -> Seq<(String, V)> {
        self.entries@
    }

    pub open spec fn get_spec(self, k: Seq<char>) -> Option<V> {
        lookup(self.pairs(), k)
    }

    /// The keys in ascending order.
    pub open spec fn key_seq(self) -> Seq<Seq<char>> {
        keys_of(self.pairs())
    }

    /// The map as a mathematical map.
    pub open spec fn as_map(self) -> Map<Seq<char>, V> {
        Map::new(|k: Seq<char>| self.get_spec(k) is Some, |k: Seq<char>| self.get_spec(k).unwrap())
    }

    /// A map is larger than each of its entries (for recursive definitions).
    pub broadcast proof fn lemma_pairs_decrease(self)
        ensures
            #[trigger] decreases_to!(self => self.pairs()),
    {
        assert(decreases_to!(self => self.entries));
    }

    /// The map with exactly the given entries, which must be sorted by key.
    pub fn from_sorted(es: Vec<(String, V)>) -> (m: Self)
        requires
            sorted_keys(keys_of(es@)),
        ensures
            m.pairs() == es@,
    {
        StrMap { entries: es }
    }

    /// The empty map.
    pub fn new() -> (m: Self)
        ensures
            m.pairs().len() == 0,
            forall|k: Seq<char>| #[trigger] m.get_spec(k) is None,
    {
        StrMap { entries: Vec::new() }
    }

    pub fn len(&self) -> (n: usize)
        ensures
            n == self.pairs().len(),
    {
        self.entries.len()
    }

    /// The entries, ascending by key.
    pub fn entries(&self) -> (r: &Vec<(String, V)>)
        ensures
            r@ == self.pairs(),
            sorted_keys(keys_of(r@)),
    {
        proof {
            use_type_invariant(self);
        }
        &self.entries
    }

    /// Index of the first entry whose key does not sort before `k`.
    fn position(&self, k: &str) -> (i: usize)
        ensures
            i <= self.pairs().len(),
            forall|j: int| 0 <= j < i ==> seq_before(#[trigger] self.pairs()[j].0@, k@),
            i < self.pairs().len() ==> !seq_before(self.pairs()[i as int].0@, k@),
    {
        let mut i: usize = 0;
        while i < self.entries.len()
            invariant
                i <= self.entries@.len(),
                forall|j: int| 0 <= j < i ==> seq_before(#[trigger] self.entries@[j].0@, k@),
            decreases self.entries.len() - i,
        {
            if !str_before(self.entries[i].0.as_str(), k) {
                return i;
            }
            i = i + 1;
        }
        i
    }

    /// The value stored under `k`.
    pub fn get(&self, k: &str) -> (r: Option<&V>)
        ensures
            r is None <==> self.get_spec(k@) is None,
            r matches Some(v) ==> self.get_spec(k@) == Some(*v),
    {
        proof {
            use_type_invariant(self);
            lemma_lookup_at(self.entries@, k@);
        }
        let i = self.position(k);
        if i < self.entries.len() && str_same(self.entries[i].0.as_str(), k) {
            Some(&self.entries[i].1)
        } else {
            proof {
                assert forall|j: int| 0 <= j < self.entries@.len() implies self.entries@[j].0@
                    != k@ by {
                    if self.entries@[j].0@ == k@ {
                        if j < i {
                            lemma_before_irreflexive(k@);
                        } else if j > i {
                            assert(seq_before(keys_of(self.entries@)[i as int], keys_of(self.entries@)[j]));
                            lemma_before_asymmetric(self.entries@[i as int].0@, k@);
                            lemma_before_total(self.entries@[i as int].0@, k@);
                        }
                    }
                }
            }
            None
        }
    }

    /// Whether `k` has a value.
    pub fn contains_key(&self, k: &str) -> (r: bool)
        ensures
            r == self.get_spec(k@) is Some,
    {
        self.get(k).is_some()
    }

    /// Stores `v` under `k`, replacing what was there.
    pub fn insert(&mut self, k: String, v: V)
        ensures
            final(self).get_spec(k@) == Some(v),
            forall|q: Seq<char>| q != k@ ==> #[trigger] final(self).get_spec(q) == old(self).get_spec(q),
    {
        proof {
            use_type_invariant(&*self);
        }
        let i = self.position(k.as_str());
        let ghost old_es = self.entries@;
        if i < self.entries.len() && str_same(self.entries[i].0.as_str(), k.as_str()) {
            let ghost kv = k@;
            let mut es_x: Vec<(String, V)> = Vec::new();
            std::mem::swap(&mut es_x, &mut self.entries);
            es_x.set(i, (k, v));
            proof {
                let es = es_x@;
                assert(es[i as int].0@ == kv && es[i as int].1 == v);
                assert(keys_of(es) =~= keys_of(old_es).update(i as int, kv));
                assert(keys_of(es) =~= keys_of(old_es));
                lemma_lookup_at(es, kv);
                lemma_lookup_at(old_es, kv);
                assert forall|q: Seq<char>| q != kv implies #[trigger] lookup(es, q) == lookup(old_es, q) by {
                    lemma_lookup_at(es, q);
                    lemma_lookup_at(old_es, q);
                    if exists|j: int| 0 <= j < es.len() && es[j].0@ == q {
                        let j = choose|j: int| 0 <= j < es.len() && es[j].0@ == q;
                        assert(j != i);
                        assert(es[j] == old_es[j]);
                    } else {
                        assert forall|j: int| 0 <= j < old_es.len() implies old_es[j].0@ != q by {
                            if old_es[j].0@ == q {
                                assert(j != i);
                                assert(es[j] == old_es[j]);
                            }
                        }
                    }
                }
            }
            self.entries = es_x;
        } else {
            let ghost kv = k@;
            let mut es_x: Vec<(String, V)> = Vec::new();
            std::mem::swap(&mut es_x, &mut self.entries);
            es_x.insert(i, (k, v));
            proof {
                let es = es_x@;
                assert(es[i as int].0@ == kv && es[i as int].1 == v);
                assert(es.len() == old_es.len() + 1);
                assert forall|j: int| 0 <= j < i implies es[j] == old_es[j] by {}
                assert forall|j: int| i < j < es.len() implies es[j] == old_es[j - 1] by {}
                assert(es[i as int].0@ == kv);
                if i < old_es.len() {
                    lemma_before_total(old_es[i as int].0@, kv);
                    assert(seq_before(kv, old_es[i as int].0@));
                }
                assert(sorted_keys(keys_of(es))) by {
                    assert forall|a: int, b: int| 0 <= a < b < keys_of(es).len() implies seq_before(
                        #[trigger] keys_of(es)[a],
                        #[trigger] keys_of(es)[b],
                    ) by {
                        if b < i {
                            assert(keys_of(old_es)[a] == keys_of(es)[a]);
                            assert(keys_of(old_es)[b] == keys_of(es)[b]);
                        } else if b == i {
                            assert(seq_before(old_es[a].0@, kv));
                        } else if a == i {
                            if b - 1 > i {
                                assert(seq_before(keys_of(old_es)[i as int], keys_of(old_es)[b - 1]));
                                lemma_before_transitive(kv, old_es[i as int].0@, old_es[b - 1].0@);
                            }
                        } else if a < i {
                            assert(seq_before(keys_of(old_es)[a], keys_of(old_es)[b - 1]));
                        } else {
                            assert(seq_before(keys_of(old_es)[a - 1], keys_of(old_es)[b - 1]));
                        }
                    }
                }
                lemma_lookup_at(es, kv);
                assert forall|q: Seq<char>| q != kv implies #[trigger] lookup(es, q) == lookup(old_es, q) by {
                    lemma_lookup_at(es, q);
                    lemma_lookup_at(old_es, q);
                    if exists|j: int| 0 <= j < es.len() && es[j].0@ == q {
                        let j = choose|j: int| 0 <= j < es.len() && es[j].0@ == q;
                        if j < i {
                            assert(old_es[j] == es[j]);
                        } else {
                            assert(old_es[j - 1] == es[j]);
                        }
                    } else {
                        assert forall|j: int| 0 <= j < old_es.len() implies old_es[j].0@ != q by {
                            if j < i {
                                assert(old_es[j] == es[j]);
                            } else {
                                assert(old_es[j] == es[j + 1]);
                            }
                        }
                    }
                }
            }
            self.entries = es_x;
        }
    }

    /// Takes out the value under `k`, if any.
    pub fn remove(&mut self, k: &str) -> (r: Option<V>)
        ensures
            r == old(self).get_spec(k@),
            final(self).get_spec(k@) is None,
            forall|q: Seq<char>| q != k@ ==> #[trigger] final(self).get_spec(q) == old(self).get_spec(q),
    {
        proof {
            use_type_invariant(&*self);
        }
        let i = self.position(k);
        let ghost old_es = self.entries@;
        proof {
            lemma_lookup_at(old_es, k@);
        }
        if i < self.entries.len() && str_same(self.entries[i].0.as_str(), k) {
            let mut es_x: Vec<(String, V)> = Vec::new();
            std::mem::swap(&mut es_x, &mut self.entries);
            let x = es_x.remove(i);
            proof {
                assert(x == old_es[i as int]);
                let es = es_x@;
                assert forall|j: int| 0 <= j < i implies es[j] == old_es[j] by {}
                assert forall|j: int| i <= j < es.len() implies es[j] == old_es[j + 1] by {}
                assert(sorted_keys(keys_of(es))) by {
                    assert forall|a: int, b: int| 0 <= a < b < keys_of(es).len() implies seq_before(
                        #[trigger] keys_of(es)[a],
                        #[trigger] keys_of(es)[b],
                    ) by {
                        if b < i {
                            assert(seq_before(keys_of(old_es)[a], keys_of(old_es)[b]));
                        } else if a < i {
                            assert(seq_before(keys_of(old_es)[a], keys_of(old_es)[b + 1]));
                        } else {
                            assert(seq_before(keys_of(old_es)[a + 1], keys_of(old_es)[b + 1]));
                        }
                    }
                }
                lemma_lookup_at(es, k@);
                assert forall|j: int| 0 <= j < es.len() implies es[j].0@ != k@ by {
                    if j < i {
                        assert(es[j] == old_es[j]);
                    } else {
                        assert(es[j] == old_es[j + 1]);
                        assert(seq_before(keys_of(old_es)[i as int], keys_of(old_es)[j + 1]));
                        lemma_before_irreflexive(k@);
                    }
                }
                assert forall|q: Seq<char>| q != k@ implies #[trigger] lookup(es, q) == lookup(old_es, q) by {
                    lemma_lookup_at(es, q);
                    lemma_lookup_at(old_es, q);
                    if exists|j: int| 0 <= j < old_es.len() && old_es[j].0@ == q {
                        let j = choose|j: int| 0 <= j < old_es.len() && old_es[j].0@ == q;
                        if j < i {
                            assert(old_es[j] == es[j]);
                        } else {
                            assert(j != i);
                            assert(old_es[j] == es[j - 1]);
                        }
                    } else {
                        assert forall|j: int| 0 <= j < es.len() implies es[j].0@ != q by {
                            if j < i {
                                assert(old_es[j] == es[j]);
                            } else {
                                assert(old_es[j + 1] == es[j]);
                            }
                        }
                    }
                }
            }
            self.entries = es_x;
            Some(x.1)
        } else {
            proof {
                assert forall|j: int| 0 <= j < old_es.len() implies old_es[j].0@ != k@ by {
                    if old_es[j].0@ == k@ {
                        if j < i {
                            lemma_before_irreflexive(k@);
                        } else if j > i {
                            assert(seq_before(keys_of(old_es)[i as int], keys_of(old_es)[j]));
                            lemma_before_asymmetric(old_es[i as int].0@, k@);
                            lemma_before_total(old_es[i as int].0@, k@);
                        }
                    }
                }
            }
            None
        }
    }
}

impl<V: Copy> StrMap<V> {
    /// A copy of the map.
    pub fn copied(&self) -> (r: Self)
        ensures
            r.pairs() == self.pairs(),
    {
        proof {
            use_type_invariant(self);
        }
        let mut out: Vec<(String, V)> = Vec::new();
        let mut i: usize = 0;
        while i < self.entries.len()
            invariant
                i <= self.entries@.len(),
                out@ =~= self.entries@.take(i as int),
            decreases self.entries.len() - i,
        {
            let k = self.entries[i].0.clone();
            let v = self.entries[i].1;
            out.push((k, v));
            i = i + 1;
        }
        assert(self.entries@.take(self.entries@.len() as int) =~= self.entries@);
        StrMap { entries: out }
    }
}

impl StrMap<StrSet> {
    /// A copy of the map and of each set in it.
    pub fn copied_sets(&self) -> (r: Self)
        ensures
            keys_of(r.pairs()) == keys_of(self.pairs()),
            forall|i: int| 0 <= i < self.pairs().len() ==> #[trigger] r.pairs()[i].1.members() == self.pairs()[i].1.members(),
    {
        proof {
            use_type_invariant(self);
        }
        let mut out: Vec<(String, StrSet)> = Vec::new();
        let mut i: usize = 0;
        while i < self.entries.len()
            invariant
                i <= self.entries@.len(),
                out@.len() == i,
                forall|j: int| 0 <= j < i ==> #[trigger] out@[j].0 == self.entries@[j].0,
                forall|j: int| 0 <= j < i ==> #[trigger] out@[j].1.members() == self.entries@[j].1.members(),
            decreases self.entries.len() - i,
        {
            let k = self.entries[i].0.clone();
            let v = self.entries[i].1.clone();
            out.push((k, v));
            i = i + 1;
        }
        assert(keys_of(out@) =~= keys_of(self.entries@));
        StrMap { entries: out }
    }
}

impl StrMap<String> {
    /// A copy of a map of strings.
    pub fn copied_strings(&self) -> (r: Self)
        ensures
            forall|k: Seq<char>| #[trigger] r.get_spec(k) is Some == self.get_spec(k) is Some,
            forall|k: Seq<char>| self.get_spec(k) is Some ==> #[trigger] r.get_spec(k).unwrap()@ == self.get_spec(k).unwrap()@,
    {
        proof {
            use_type_invariant(self);
        }
        let mut out: Vec<(String, String)> = Vec::new();
        let mut i: usize = 0;
        while i < self.entries.len()
            invariant
                i <= self.entries@.len(),
                out@.len() == i,
                forall|j: int| 0 <= j < i ==> #[trigger] out@[j].0 == self.entries@[j].0,
                forall|j: int| 0 <= j < i ==> #[trigger] out@[j].1@ == self.entries@[j].1@,
            decreases self.entries.len() - i,
        {
            let k = self.entries[i].0.clone();
            let v = self.entries[i].1.clone();
            out.push((k, v));
            i = i + 1;
        }
        assert(keys_of(out@) =~= keys_of(self.entries@));
        let r = StrMap { entries: out };
        proof {
            assert forall|k: Seq<char>| #[trigger] r.get_spec(k) is Some == self.get_spec(k) is Some by {
                lemma_lookup_pairwise(out@, self.entries@, k);
            }
            assert forall|k: Seq<char>| self.get_spec(k) is Some implies #[trigger] r.get_spec(k).unwrap()@ == self.get_spec(k).unwrap()@ by {
                lemma_lookup_pairwise(out@, self.entries@, k);
            }
        }
        r
    }
}

impl Clone for StrSet {
    fn clone(&self) -> (r: Self)
        ensures
            r.members() == self.members(),
    {
        StrSet { map: self.map.copied() }
    }
}

/// A set of strings, kept in ascending order.
#[derive(Debug, PartialEq, Eq)]
pub struct StrSet {
    pub(crate) map: StrMap<()>,
}

impl StrSet {
    /// The members in ascending order.
    pub closed spec fn members(self) -> Seq<Seq<char>> {
        self.map.key_seq()
    }

    pub open spec fn has(self, s: Seq<char>) -> bool {
        self.members().contains(s)
    }

    proof fn lemma_has(self, s: Seq<char>)
        requires
            sorted_keys(self.map.key_seq()),
        ensures
            self.has(s) <==> self.map.get_spec(s) is Some,
            sorted_keys(self.members()),
    {
        lemma_lookup_at(self.map.pairs(), s);
        if self.has(s) {
            let j = choose|j: int| 0 <= j < self.members().len() && self.members()[j] == s;
            assert(self.map.pairs()[j].0@ == s);
        }
        if self.map.get_spec(s) is Some {
            if !self.has(s) {
                assert forall|j: int| 0 <= j < self.map.pairs().len() implies self.map.pairs()[j].0@ != s by {
                    assert(self.members()[j] == self.map.pairs()[j].0@);
                }
            }
        }
    }

    pub fn new() -> (s: Self)
        ensures
            s.members().len() == 0,
    {
        StrSet { map: StrMap::new() }
    }

    /// Whether `s` is a member.
    pub fn contains(&self, s: &str) -> (r: bool)
        ensures
            r == self.has(s@),
    {
        proof {
            use_type_invariant(&self.map);
            self.lemma_has(s@);
        }
        self.map.contains_key(s)
    }

    /// Adds `s`; true when it was not there yet.
    pub fn insert(&mut self, s: String) -> (fresh: bool)
        ensures
            fresh == !old(self).has(s@),
            forall|q: Seq<char>| #[trigger] final(self).has(q) == (old(self).has(q) || q == s@),
            ascending(final(self).members()),
    {
        proof {
            use_type_invariant(&self.map);
            self.lemma_has(s@);
        }
        let fresh = !self.map.contains_key(s.as_str());
        let ghost sv = s@;
        let ghost before = *self;
        self.map.insert(s, ());
        proof {
            use_type_invariant(&self.map);
            assert forall|q: Seq<char>| #[trigger] self.has(q) == (before.has(q) || q == sv) by {
                self.lemma_has(q);
                before.lemma_has(q);
            }
            self.lemma_has(sv);
        }
        fresh
    }

    /// The members, ascending.
    pub fn members_vec(&self) -> (r: Vec<String>)
        ensures
            views(r@) == self.members(),
            ascending(self.members()),
    {
        proof {
            use_type_invariant(&self.map);
        }
        let es = self.map.entries();
        let mut out: Vec<String> = Vec::new();
        let mut i: usize = 0;
        while i < es.len()
            invariant
                i <= es@.len(),
                es@ == self.map.pairs(),
                views(out@) =~= keys_of(es@).take(i as int),
            decreases es.len() - i,
        {
            let ghost before = out@;
            out.push(es[i].0.clone());
            proof {
                assert(views(out@) =~= views(before).push(es@[i as int].0@));
                assert(keys_of(es@).take(i + 1) =~= keys_of(es@).take(i as int).push(es@[i as int].0@));
            }
            i = i + 1;
        }
        assert(keys_of(es@).take(es@.len() as int) =~= keys_of(es@));
        out
    }

    /// The set of the given strings.
    pub fn from_strs(xs: &[&str]) -> (s: Self)
        ensures
            forall|q: Seq<char>| #[trigger] s.has(q) <==> exists|i: int| 0 <= i < xs@.len() && xs@[i]@ == q,
            s.members() == sorted_set(xs@.map_values(|x: &str| x@)),
    {
        let mut s = StrSet::new();
        let mut i: usize = 0;
        while i < xs.len()
            invariant
                i <= xs@.len(),
                forall|q: Seq<char>| #[trigger] s.has(q) <==> exists|j: int| 0 <= j < i && xs@[j]@ == q,
            decreases xs.len() - i,
        {
            let _ = s.insert(owned(xs[i]));
            proof {
                assert forall|q: Seq<char>| #[trigger] s.has(q) <==> exists|j: int| 0 <= j < i + 1 && xs@[j]@ == q by {
                    if q == xs@[i as int]@ {
                    }
                }
            }
            i = i + 1;
        }
        proof {
            use_type_invariant(&s.map);
            let ys = xs@.map_values(|x: &str| x@);
            assert forall|q: Seq<char>| #[trigger] s.members().contains(q) == ys.contains(q) by {
                if ys.contains(q) {
                    let j = choose|j: int| 0 <= j < ys.len() && ys[j] == q;
                    assert(xs@[j]@ == q);
                }
                if s.has(q) {
                    let j = choose|j: int| 0 <= j < xs@.len() && xs@[j]@ == q;
                    assert(ys[j] == q);
                }
            }
            lemma_sorted_set(s.members(), ys);
        }
        s
    }

    /// The set of the given strings.
    pub fn from_strings(xs: &Vec<String>) -> (s: Self)
        ensures
            forall|q: Seq<char>| #[trigger] s.has(q) <==> views(xs@).contains(q),
            s.members() == sorted_set(views(xs@)),
    {
        let mut s = StrSet::new();
        let mut i: usize = 0;
        while i < xs.len()
            invariant
                i <= xs@.len(),
                forall|q: Seq<char>| #[trigger] s.has(q) <==> views(xs@).take(i as int).contains(q),
            decreases xs.len() - i,
        {
            let ghost before = views(xs@).take(i as int);
            let _ = s.insert(xs[i].clone());
            proof {
                let now = views(xs@).take(i + 1);
                assert(now =~= before.push(xs@[i as int]@));
                assert forall|q: Seq<char>| #[trigger] s.has(q) <==> now.contains(q) by {
                    if now.contains(q) && q != xs@[i as int]@ {
                        let j = choose|j: int| 0 <= j < now.len() && now[j] == q;
                        assert(before[j] == q);
                    }
                    if before.contains(q) {
                        let j = choose|j: int| 0 <= j < before.len() && before[j] == q;
                        assert(now[j] == q);
                    }
                    if q == xs@[i as int]@ {
                        assert(now[i as int] == q);
                    }
                }
            }
            i = i + 1;
        }
        assert(views(xs@).take(xs@.len() as int) =~= views(xs@));
        proof {
            use_type_invariant(&s.map);
            assert forall|q: Seq<char>| #[trigger] s.members().contains(q) == views(xs@).contains(q) by {
                assert(s.has(q) == views(xs@).take(xs@.len() as int).contains(q));
            }
            lemma_sorted_set(s.members(), views(xs@));
        }
        s
    }
}

} // verus!
