//! String-keyed ordered collections: a map and a set whose entries are
//! kept in increasing code-point order of their keys, so enumeration is
//! sorted and stable (the order a `BTreeMap<String, _>` /
//! `BTreeSet<String>` yields).
use vstd::prelude::*;
use crate::text::{
    lex_lt, lemma_lex_order, lemma_lex_trans, strictly_sorted, compare_str, Cmp, owned, views, lists_sorted,
};

verus! {

/// A map from strings to `V`, held as key/value pairs in strictly
/// increasing key order.
#[derive(Debug, PartialEq)]
pub struct StrMap<V> {
    pub(crate) entries: Vec<(String, V)>,
}

/// A position of key `k` among the pairs `ps`.
pub open spec fn pairs_index<V>(ps: Seq<(Seq<char>, V)>, k: Seq<char>) -> int {
    choose|i: int| 0 <= i < ps.len() && (#[trigger] ps[i]).0 == k
}

/// The map a sequence of pairs with distinct keys denotes.
pub open spec fn pairs_map<V>(ps: Seq<(Seq<char>, V)>) -> Map<Seq<char>, V> {
    Map::new(
        |k: Seq<char>| exists|i: int| 0 <= i < ps.len() && (#[trigger] ps[i]).0 == k,
        |k: Seq<char>| ps[pairs_index(ps, k)].1,
    )
}

/// In a key-sorted pair sequence, the `i`-th pair is what the denoted map
/// holds for its key.
pub proof fn lemma_pairs_map_at<V>(ps: Seq<(Seq<char>, V)>, i: int)
    requires
        strictly_sorted(pair_keys(ps)),
        0 <= i < ps.len(),
    ensures
        pairs_map(ps).contains_key(ps[i].0),
        pairs_map(ps)[ps[i].0] == ps[i].1,
        pairs_index(ps, ps[i].0) == i,
{
    let k = ps[i].0;
    let ks = pair_keys(ps);
    assert(ks[i] == k);
    let j = pairs_index(ps, k);
    assert(ks[j] == k);
    if j != i {
        lemma_lex_order(k, k);
        if j < i {
            assert(lex_lt(ks[j], ks[i]));
        } else {
            assert(lex_lt(ks[i], ks[j]));
        }
    }
}

/// Inserting or replacing one pair of a key-sorted pair sequence inserts
/// into the denoted map.
pub proof fn lemma_pairs_map_insert<V>(
    op: Seq<(Seq<char>, V)>,
    np: Seq<(Seq<char>, V)>,
    i: int,
    kk: Seq<char>,
    v: V,
    found: bool,
)
    requires
        strictly_sorted(pair_keys(op)),
        strictly_sorted(pair_keys(np)),
        found ==> 0 <= i < op.len() && op[i].0 == kk && np == op.update(i, (kk, v)),
        !found ==> 0 <= i <= op.len() && np == op.insert(i, (kk, v)),
    ensures
        pairs_map(np) == pairs_map(op).insert(kk, v),
{
    lemma_pairs_map_insert_facts(op, np, i, kk, v, found);
}

proof fn lemma_pairs_map_insert_facts<V>(
    op: Seq<(Seq<char>, V)>,
    np: Seq<(Seq<char>, V)>,
    i: int,
    kk: Seq<char>,
    v: V,
    found: bool,
)
    requires
        strictly_sorted(pair_keys(op)),
        strictly_sorted(pair_keys(np)),
        found ==> 0 <= i < op.len() && op[i].0 == kk && np == op.update(i, (kk, v)),
        !found ==> 0 <= i <= op.len() && np == op.insert(i, (kk, v)),
    ensures
        pairs_map(np) == pairs_map(op).insert(kk, v),
{
    let om = pairs_map(op);
    let nm = pairs_map(np);
    assert forall|key: Seq<char>| #[trigger] nm.contains_key(key) <==> om.insert(
        kk,
        v,
    ).contains_key(key) by {
        if nm.contains_key(key) {
            let j = choose|j: int| 0 <= j < np.len() && (#[trigger] np[j]).0 == key;
            if key != kk {
                let oj = if found || j < i {
                    j
                } else {
                    j - 1
                };
                assert(op[oj].0 == key);
            }
        }
        if om.insert(kk, v).contains_key(key) {
            if key == kk {
                assert(np[i].0 == kk);
            } else {
                let j = choose|j: int| 0 <= j < op.len() && (#[trigger] op[j]).0 == key;
                let nj = if found || j < i {
                    j
                } else {
                    j + 1
                };
                assert(np[nj].0 == key);
            }
        }
    }
    assert forall|key: Seq<char>| #[trigger] nm.contains_key(key) implies nm[key] == om.insert(
        kk,
        v,
    )[key] by {
        let j = choose|j: int| 0 <= j < np.len() && (#[trigger] np[j]).0 == key;
        lemma_pairs_map_at(np, j);
        if key == kk {
            lemma_pairs_map_at(np, i);
        } else {
            let oj = if found || j < i {
                j
            } else {
                j - 1
            };
            assert(op[oj] == np[j]);
            lemma_pairs_map_at(op, oj);
        }
    }
    assert(nm =~= om.insert(kk, v));
}

/// Number of keys of the increasing sequence `ks` that sort before `k`:
/// the position at which `k` belongs.
pub open spec fn lower_bound(ks: Seq<Seq<char>>, k: Seq<char>) -> int
    decreases ks.len(),
{
    if ks.len() == 0 {
        0
    } else if lex_lt(ks.last(), k) {
        ks.len() as int
    } else {
        lower_bound(ks.drop_last(), k)
    }
}

/// `lower_bound` is a position in the sequence (or just past it).
pub proof fn lemma_lower_bound_range(ks: Seq<Seq<char>>, k: Seq<char>)
    ensures
        0 <= lower_bound(ks, k) <= ks.len(),
    decreases ks.len(),
{
    if ks.len() > 0 {
        lemma_lower_bound_range(ks.drop_last(), k);
    }
}

/// Key-sorted pairs `ps` with `(k, v)` put in its place: replacing the
/// pair of an equal key, or inserted before the first greater key.
pub open spec fn sorted_upsert<V>(ps: Seq<(Seq<char>, V)>, k: Seq<char>, v: V) -> Seq<(Seq<char>, V)> {
    let i = lower_bound(pair_keys(ps), k);
    if 0 <= i < ps.len() && ps[i].0 == k {
        ps.update(i, (k, v))
    } else {
        ps.insert(i, (k, v))
    }
}

/// In an increasing sequence, a position with every earlier key below
/// `k` and every later key not below `k` is `lower_bound`.
pub proof fn lemma_lower_bound(ks: Seq<Seq<char>>, k: Seq<char>, i: int)
    requires
        strictly_sorted(ks),
        0 <= i <= ks.len(),
        forall|j: int| 0 <= j < i ==> lex_lt(#[trigger] ks[j], k),
        forall|j: int| i <= j < ks.len() ==> !lex_lt(#[trigger] ks[j], k),
    ensures
        lower_bound(ks, k) == i,
    decreases ks.len(),
{
    if ks.len() > 0 {
        if i == ks.len() {
            assert(lex_lt(ks[ks.len() - 1], k));
        } else {
            assert(!lex_lt(ks[ks.len() - 1], k));
            let t = ks.drop_last();
            assert forall|a: int, b: int| 0 <= a < b < t.len() implies lex_lt(#[trigger] t[a], #[trigger] t[b]) by {
                assert(lex_lt(ks[a], ks[b]));
            }
            assert forall|j: int| 0 <= j < i implies lex_lt(#[trigger] t[j], k) by {
                assert(t[j] == ks[j]);
            }
            assert forall|j: int| i <= j < t.len() implies !lex_lt(#[trigger] t[j], k) by {
                assert(t[j] == ks[j]);
            }
            lemma_lower_bound(t, k, i);
        }
    }
}

/// The position `locate` reports is the `lower_bound` of the key.
pub proof fn lemma_locate_lower_bound(ks: Seq<Seq<char>>, k: Seq<char>, i: int, found: bool)
    requires
        strictly_sorted(ks),
        0 <= i <= ks.len(),
        forall|j: int| 0 <= j < i ==> lex_lt(#[trigger] ks[j], k),
        found ==> i < ks.len() && ks[i] == k,
        !found ==> forall|j: int| i <= j < ks.len() ==> lex_lt(k, #[trigger] ks[j]),
    ensures
        lower_bound(ks, k) == i,
{
    assert forall|j: int| i <= j < ks.len() implies !lex_lt(#[trigger] ks[j], k) by {
        lemma_lex_order(ks[j], k);
        if found {
            if j > i {
                assert(lex_lt(ks[i], ks[j]));
            }
        }
    }
    lemma_lower_bound(ks, k, i);
}

/// The keys of a pair sequence, in order.
pub open spec fn pair_keys<V>(ps: Seq<(Seq<char>, V)>) -> Seq<Seq<char>> {
    ps.map_values(|p: (Seq<char>, V)| p.0)
}

impl<V> StrMap<V> {
    /// The entries as (key characters, value) pairs, in key order.
    pub closed spec fn pairs(self) -> Seq<(Seq<char>, V)> {
        self.entries@.map_values(|e: (String, V)| (e.0@, e.1))
    }

    /// The keys, in increasing order.
    pub open spec fn key_seq(self) -> Seq<Seq<char>> {
        pair_keys(self.pairs())
    }

    /// The map these entries denote.
    pub open spec fn view(self) -> Map<Seq<char>, V> {
        pairs_map(self.pairs())
    }

    /// Keys are in strictly increasing order (always true of a `StrMap`;
    /// exposed by the methods' postconditions).
    pub open spec fn sorted(self) -> bool {
        strictly_sorted(self.key_seq())
    }

    #[verifier::type_invariant]
    closed spec fn keys_sorted(self) -> bool {
        strictly_sorted(pair_keys(self.pairs()))
    }

    /// A value stored in the map is structurally smaller than the map.
    pub proof fn lemma_value_decreases(self, i: int)
        requires
            0 <= i < self.pairs().len(),
        ensures
            decreases_to!(self => self.pairs()[i].1),
    {
        assert(decreases_to!(self => self.entries@[i].1));
    }

    /// An empty map.
    pub fn new() -> (m: Self)
        ensures
            m.pairs() == Seq::<(Seq<char>, V)>::empty(),
            m@ == Map::<Seq<char>, V>::empty(),
    {
        let m = StrMap { entries: Vec::new() };
        assert(m.pairs() =~= Seq::<(Seq<char>, V)>::empty());
        assert(m@ =~= Map::<Seq<char>, V>::empty());
        m
    }

    /// Number of entries; also exposes the ordering invariant.
    pub fn len(&self) -> (n: usize)
        ensures
            n == self.pairs().len(),
            self.sorted(),
    {
        proof {
            use_type_invariant(self);
        }
        self.entries.len()
    }

    /// Whether the map is empty.
    pub fn is_empty(&self) -> (b: bool)
        ensures
            b == (self.pairs().len() == 0),
            self.sorted(),
    {
        self.len() == 0
    }

    /// The key of the `i`-th entry in order.
    pub fn key_at(&self, i: usize) -> (k: &String)
        requires
            i < self.pairs().len(),
        ensures
            k@ == self.pairs()[i as int].0,
    {
        &self.entries[i].0
    }

    /// The value of the `i`-th entry in order.
    pub fn value_at(&self, i: usize) -> (v: &V)
        requires
            i < self.pairs().len(),
        ensures
            *v == self.pairs()[i as int].1,
    {
        &self.entries[i].1
    }

    /// Position of the first key not below `k`, and whether it equals `k`.
    fn locate(&self, k: &str) -> (r: (usize, bool))
        ensures
            r.0 <= self.pairs().len(),
            forall|j: int| 0 <= j < r.0 ==> lex_lt(#[trigger] self.key_seq()[j], k@),
            r.1 ==> r.0 < self.pairs().len() && self.key_seq()[r.0 as int] == k@,
            !r.1 ==> forall|j: int| r.0 <= j < self.pairs().len() ==> lex_lt(
                k@,
                #[trigger] self.key_seq()[j],
            ),
            self.sorted(),
    {
        proof {
            use_type_invariant(self);
        }
        let n = self.entries.len();
        let mut i: usize = 0;
        while i < n
            invariant
                n == self.pairs().len(),
                i <= n,
                self.sorted(),
                forall|j: int| 0 <= j < i ==> lex_lt(#[trigger] self.key_seq()[j], k@),
            decreases n - i,
        {
            let c = compare_str(self.entries[i].0.as_str(), k);
            assert(self.key_seq()[i as int] == self.entries@[i as int].0@);
            if c == Cmp::Equal {
                return (i, true);
            } else if c == Cmp::Greater {
                proof {
                    assert forall|j: int| i <= j < n implies lex_lt(
                        k@,
                        #[trigger] self.key_seq()[j],
                    ) by {
                        if j > i {
                            assert(lex_lt(self.key_seq()[i as int], self.key_seq()[j]));
                            lemma_lex_trans(k@, self.key_seq()[i as int], self.key_seq()[j]);
                        }
                    }
                }
                return (i, false);
            }
            i += 1;
        }
        (i, false)
    }

    /// Index of key `k`, if present.
    pub fn find(&self, k: &str) -> (r: Option<usize>)
        ensures
            self.sorted(),
            r is None <==> !self@.contains_key(k@),
            r matches Some(i) ==> i < self.pairs().len() && self.key_seq()[i as int] == k@
                && self@[k@] == self.pairs()[i as int].1,
    {
        let (i, found) = self.locate(k);
        proof {
            self.lemma_view_facts();
        }
        if found {
            proof {
                self.lemma_lookup(i as int);
            }
            Some(i)
        } else {
            proof {
                if self@.contains_key(k@) {
                    let j = choose|j: int|
                        0 <= j < self.pairs().len() && (#[trigger] self.pairs()[j]).0 == k@;
                    assert(self.key_seq()[j] == k@);
                    lemma_lex_order(k@, k@);
                }
            }
            None
        }
    }

    /// Whether key `k` is present.
    pub fn contains_key(&self, k: &str) -> (b: bool)
        ensures
            b == self@.contains_key(k@),
    {
        self.find(k).is_some()
    }

    /// The value stored under `k`, if any.
    pub fn get(&self, k: &str) -> (r: Option<&V>)
        ensures
            r is Some <==> self@.contains_key(k@),
            r matches Some(v) ==> *v == self@[k@],
    {
        match self.find(k) {
            Some(i) => Some(&self.entries[i].1),
            None => None,
        }
    }

    /// Facts about the denoted map: membership is membership of the key
    /// sequence.
    pub proof fn lemma_view_facts(self)
        ensures
            forall|k: Seq<char>| #[trigger] self@.contains_key(k) <==> self.key_seq().contains(k),
            self.key_seq().len() == self.pairs().len(),
    {
        assert forall|k: Seq<char>| self.key_seq().contains(k) implies #[trigger] self@.contains_key(k) by {
            {
                let i = choose|i: int| 0 <= i < self.key_seq().len() && self.key_seq()[i] == k;
                assert(self.pairs()[i].0 == k);
            }
        }
        assert forall|k: Seq<char>| #[trigger] self@.contains_key(k) implies self.key_seq().contains(k) by {
            {
                let i = choose|i: int| 0 <= i < self.pairs().len() && (#[trigger] self.pairs()[i]).0 == k;
                assert(self.key_seq()[i] == k);
            }
        }
    }

    /// With sorted keys, the `i`-th pair is what the map holds for its key.
    pub proof fn lemma_lookup(self, i: int)
        requires
            self.sorted(),
            0 <= i < self.pairs().len(),
        ensures
            self@.contains_key(self.pairs()[i].0),
            self@[self.pairs()[i].0] == self.pairs()[i].1,
    {
        lemma_pairs_map_at(self.pairs(), i);
    }

    /// Inserts `v` under `k`, replacing any value already stored there.
    pub fn insert(&mut self, k: String, v: V)
        ensures
            final(self)@ == old(self)@.insert(k@, v),
            final(self).pairs() == sorted_upsert(old(self).pairs(), k@, v),
            final(self).sorted(),
    {
        proof {
            use_type_invariant(&*self);
        }
        let (i, found) = self.locate(k.as_str());
        let ghost old_pairs = self.pairs();
        let ghost kk = k@;
        let mut es: Vec<(String, V)> = Vec::new();
        std::mem::swap(&mut es, &mut self.entries);
        assert(es@.map_values(|e: (String, V)| (e.0@, e.1)) == old_pairs);
        if found {
            es.remove(i);
            es.insert(i, (k, v));
        } else {
            es.insert(i, (k, v));
        }
        let ghost new_pairs = es@.map_values(|e: (String, V)| (e.0@, e.1));
        proof {
            let ok = pair_keys(old_pairs);
            let nk = pair_keys(new_pairs);
            if found {
                assert forall|j: int| 0 <= j < new_pairs.len() implies #[trigger] new_pairs[j] == (
                if j == i {
                    (kk, v)
                } else {
                    old_pairs[j]
                }) by {}
                assert(nk.len() == ok.len());
                assert forall|a: int, b: int| 0 <= a < b < nk.len() implies lex_lt(
                    #[trigger] nk[a],
                    #[trigger] nk[b],
                ) by {
                    assert(ok[a] == old_pairs[a].0);
                    assert(ok[b] == old_pairs[b].0);
                    assert(lex_lt(ok[a], ok[b]));
                }
            } else {
                assert forall|j: int| 0 <= j < new_pairs.len() implies #[trigger] new_pairs[j] == (
                if j < i {
                    old_pairs[j]
                } else if j == i {
                    (kk, v)
                } else {
                    old_pairs[j - 1]
                }) by {}
                assert forall|a: int, b: int| 0 <= a < b < nk.len() implies lex_lt(
                    #[trigger] nk[a],
                    #[trigger] nk[b],
                ) by {
                    if b < i {
                        assert(lex_lt(ok[a], ok[b]));
                    } else if b == i {
                        assert(lex_lt(ok[a], kk));
                    } else if a < i {
                        assert(lex_lt(ok[a], kk));
                        assert(lex_lt(kk, ok[b - 1]));
                        lemma_lex_trans(ok[a], kk, ok[b - 1]);
                    } else if a == i {
                        assert(lex_lt(kk, ok[b - 1]));
                    } else {
                        assert(lex_lt(ok[a - 1], ok[b - 1]));
                    }
                }
            }
            assert(strictly_sorted(nk));
        }
        self.entries = es;
        proof {
            lemma_locate_lower_bound(pair_keys(old_pairs), kk, i as int, found);
            if found {
                assert(new_pairs =~= old_pairs.update(i as int, (kk, v)));
            } else {
                assert(new_pairs =~= old_pairs.insert(i as int, (kk, v)));
                lemma_lex_order(kk, kk);
                if (i as int) < old_pairs.len() {
                    assert(pair_keys(old_pairs)[i as int] == old_pairs[i as int].0);
                }
            }
            assert(self.pairs() == new_pairs);
            lemma_pairs_map_insert(old_pairs, new_pairs, i as int, kk, v, found);
        }
    }

    /// Appends an entry whose key sorts after every key present.
    pub fn push_greatest(&mut self, k: String, v: V)
        requires
            forall|j: int|
                0 <= j < old(self).pairs().len() ==> lex_lt(#[trigger] old(self).key_seq()[j], k@),
        ensures
            final(self).pairs() == old(self).pairs().push((k@, v)),
    {
        proof {
            use_type_invariant(&*self);
        }
        let ghost old_pairs = self.pairs();
        let ghost kk = k@;
        let mut es: Vec<(String, V)> = Vec::new();
        std::mem::swap(&mut es, &mut self.entries);
        es.push((k, v));
        proof {
            let np = es@.map_values(|e: (String, V)| (e.0@, e.1));
            assert(np =~= old_pairs.push((kk, v)));
            let nk = pair_keys(np);
            let ok = pair_keys(old_pairs);
            assert forall|a: int, b: int| 0 <= a < b < nk.len() implies lex_lt(
                #[trigger] nk[a],
                #[trigger] nk[b],
            ) by {
                if b < ok.len() {
                    assert(lex_lt(ok[a], ok[b]));
                } else {
                    assert(ok[a] == old(self).key_seq()[a]);
                }
            }
        }
        self.entries = es;
    }

    /// The keys, in increasing order.
    pub fn keys(&self) -> (r: Vec<String>)
        ensures
            views(r@) == self.key_seq(),
            self.sorted(),
    {
        let n = self.len();
        let mut r: Vec<String> = Vec::new();
        let mut i: usize = 0;
        while i < n
            invariant
                n == self.pairs().len(),
                i <= n,
                views(r@) == self.key_seq().take(i as int),
                r@.len() == i,
            decreases n - i,
        {
            let k = owned(self.entries[i].0.as_str());
            assert(self.key_seq()[i as int] == self.entries@[i as int].0@);
            let ghost prev = r@;
            r.push(k);
            assert(r@ == prev.push(k));
            assert forall|j: int| 0 <= j < i + 1 implies #[trigger] views(r@)[j] == self.key_seq().take(i + 1)[j] by {
                if j < i {
                    assert(views(r@)[j] == r@[j]@);
                    assert(views(prev)[j] == prev[j]@);
                }
            }
            assert(views(r@) =~= self.key_seq().take(i + 1));
            i += 1;
        }
        assert(self.key_seq().take(n as int) =~= self.key_seq());
        r
    }
}

/// In a key-sorted pair sequence, the pairs from position `j` on denote
/// the pairs from `j + 1` on plus the `j`-th.
pub proof fn lemma_pairs_map_suffix<V>(ps: Seq<(Seq<char>, V)>, j: int)
    requires
        strictly_sorted(pair_keys(ps)),
        0 <= j < ps.len(),
    ensures
        pairs_map(ps.skip(j)) == pairs_map(ps.skip(j + 1)).insert(ps[j].0, ps[j].1),
{
    let op = ps.skip(j + 1);
    let np = ps.skip(j);
    assert(np =~= op.insert(0, (ps[j].0, ps[j].1)));
    assert forall|a: int, b: int| 0 <= a < b < pair_keys(op).len() implies lex_lt(
        #[trigger] pair_keys(op)[a],
        #[trigger] pair_keys(op)[b],
    ) by {
        assert(pair_keys(op)[a] == pair_keys(ps)[a + j + 1]);
        assert(pair_keys(op)[b] == pair_keys(ps)[b + j + 1]);
    }
    assert forall|a: int, b: int| 0 <= a < b < pair_keys(np).len() implies lex_lt(
        #[trigger] pair_keys(np)[a],
        #[trigger] pair_keys(np)[b],
    ) by {
        assert(pair_keys(np)[a] == pair_keys(ps)[a + j]);
        assert(pair_keys(np)[b] == pair_keys(ps)[b + j]);
    }
    lemma_pairs_map_insert(op, np, 0, ps[j].0, ps[j].1, false);
}

impl<V> StrMap<V> {
    /// Moves every entry of `other` in, replacing values under keys both
    /// maps hold.
    pub fn absorb(&mut self, other: StrMap<V>)
        ensures
            final(self)@ == old(self)@.union_prefer_right(other@),
    {
        proof {
            use_type_invariant(&other);
        }
        let ghost ps = other.pairs();
        let ghost m0 = self@;
        let StrMap { entries } = other;
        let mut es = entries;
        assert(es@.map_values(|e: (String, V)| (e.0@, e.1)) == ps);
        assert(ps.skip(ps.len() as int) =~= Seq::<(Seq<char>, V)>::empty());
        assert(pairs_map(Seq::<(Seq<char>, V)>::empty()) =~= Map::<Seq<char>, V>::empty());
        assert(m0.union_prefer_right(Map::<Seq<char>, V>::empty()) =~= m0);
        while es.len() > 0
            invariant
                es@.len() <= ps.len(),
                strictly_sorted(pair_keys(ps)),
                forall|j: int| 0 <= j < es@.len() ==> (#[trigger] es@[j]).0@ == ps[j].0 && es@[j].1 == ps[j].1,
                self@ == m0.union_prefer_right(pairs_map(ps.skip(es@.len() as int))),
            decreases es@.len(),
        {
            let ghost j = es@.len() - 1;
            let (k, v) = es.pop().unwrap();
            proof {
                lemma_pairs_map_suffix(ps, j);
            }
            let ghost before = self@;
            self.insert(k, v);
            assert(self@ =~= m0.union_prefer_right(pairs_map(ps.skip(j))));
        }
        assert(ps.skip(0) =~= ps);
    }
}

/// A set of strings, held in strictly increasing order.
#[derive(Debug, PartialEq, Eq)]
pub struct StrSet {
    pub(crate) items: Vec<String>,
}

impl StrSet {
    /// The members, in increasing order.
    pub closed spec fn seq(self) -> Seq<Seq<char>> {
        views(self.items@)
    }

    /// The members as a set.
    pub open spec fn view(self) -> Set<Seq<char>> {
        self.seq().to_set()
    }

    #[verifier::type_invariant]
    closed spec fn items_sorted(self) -> bool {
        strictly_sorted(self.seq())
    }

    /// An empty set.
    pub fn new() -> (s: Self)
        ensures
            s.seq() == Seq::<Seq<char>>::empty(),
            s@ == Set::<Seq<char>>::empty(),
    {
        let s = StrSet { items: Vec::new() };
        assert(s.seq() =~= Seq::<Seq<char>>::empty());
        assert(s@ =~= Set::<Seq<char>>::empty());
        s
    }

    /// Number of members; also exposes the ordering invariant.
    pub fn len(&self) -> (n: usize)
        ensures
            n == self.seq().len(),
            strictly_sorted(self.seq()),
    {
        proof {
            use_type_invariant(self);
        }
        self.items.len()
    }

    /// The `i`-th member in order.
    pub fn item_at(&self, i: usize) -> (s: &String)
        requires
            i < self.seq().len(),
        ensures
            s@ == self.seq()[i as int],
    {
        &self.items[i]
    }

    /// Whether `k` is a member.
    pub fn contains(&self, k: &str) -> (b: bool)
        ensures
            b == self@.contains(k@),
    {
        let n = self.len();
        let mut i: usize = 0;
        while i < n
            invariant
                n == self.seq().len(),
                i <= n,
                forall|j: int| 0 <= j < i ==> self.seq()[j] != k@,
            decreases n - i,
        {
            assert(self.seq()[i as int] == self.items@[i as int]@);
            if compare_str(self.items[i].as_str(), k) == Cmp::Equal {
                assert(self.seq().contains(k@));
                return true;
            }
            i += 1;
        }
        false
    }

    /// Position of the first member not below `k`, and whether it is `k`.
    pub fn position(&self, k: &str) -> (r: (usize, bool))
        ensures
            r.0 <= self.seq().len(),
            forall|j: int| 0 <= j < r.0 ==> lex_lt(#[trigger] self.seq()[j], k@),
            r.1 ==> r.0 < self.seq().len() && self.seq()[r.0 as int] == k@,
            !r.1 ==> forall|j: int| r.0 <= j < self.seq().len() ==> lex_lt(
                k@,
                #[trigger] self.seq()[j],
            ),
            strictly_sorted(self.seq()),
    {
        proof {
            use_type_invariant(self);
        }
        let n = self.items.len();
        let mut i: usize = 0;
        while i < n
            invariant
                n == self.seq().len(),
                i <= n,
                strictly_sorted(self.seq()),
                forall|j: int| 0 <= j < i ==> lex_lt(#[trigger] self.seq()[j], k@),
            decreases n - i,
        {
            let c = compare_str(self.items[i].as_str(), k);
            assert(self.seq()[i as int] == self.items@[i as int]@);
            if c == Cmp::Equal {
                return (i, true);
            } else if c == Cmp::Greater {
                proof {
                    assert forall|j: int| i <= j < n implies lex_lt(k@, #[trigger] self.seq()[j]) by {
                        if j > i {
                            assert(lex_lt(self.seq()[i as int], self.seq()[j]));
                            lemma_lex_trans(k@, self.seq()[i as int], self.seq()[j]);
                        }
                    }
                }
                return (i, false);
            }
            i += 1;
        }
        (i, false)
    }

    /// Inserts `k` at position `i`, where it sorts between its neighbours.
    pub fn insert_at(&mut self, i: usize, k: String)
        requires
            i <= old(self).seq().len(),
            forall|j: int| 0 <= j < i ==> lex_lt(#[trigger] old(self).seq()[j], k@),
            forall|j: int| i <= j < old(self).seq().len() ==> lex_lt(k@, #[trigger] old(self).seq()[j]),
        ensures
            final(self).seq() == old(self).seq().insert(i as int, k@),
            final(self)@ == old(self)@.insert(k@),
            strictly_sorted(final(self).seq()),
    {
        proof {
            use_type_invariant(&*self);
        }
        let ghost old_seq = self.seq();
        let ghost kk = k@;
        let mut items: Vec<String> = Vec::new();
        std::mem::swap(&mut items, &mut self.items);
        items.insert(i, k);
        let ghost ns = views(items@);
        proof {
            assert(old_seq == views(old(self).items@));
            assert forall|j: int| 0 <= j < ns.len() implies #[trigger] ns[j] == (if j < i {
                old_seq[j]
            } else if j == i {
                kk
            } else {
                old_seq[j - 1]
            }) by {}
            assert forall|a: int, b: int| 0 <= a < b < ns.len() implies lex_lt(
                #[trigger] ns[a],
                #[trigger] ns[b],
            ) by {
                if b < i {
                    assert(lex_lt(old_seq[a], old_seq[b]));
                } else if b == i {
                } else if a < i {
                    lemma_lex_trans(old_seq[a], kk, old_seq[b - 1]);
                } else if a == i {
                } else {
                    assert(lex_lt(old_seq[a - 1], old_seq[b - 1]));
                }
            }
            assert(ns =~= old_seq.insert(i as int, kk));
        }
        self.items = items;
        proof {
            assert(self.seq() == old_seq.insert(i as int, kk));
            assert forall|x: Seq<char>| #[trigger] self@.contains(x) <==> old(self)@.insert(
                kk,
            ).contains(x) by {
                if old_seq.contains(x) {
                    let j = choose|j: int| 0 <= j < old_seq.len() && old_seq[j] == x;
                    if j < i {
                        assert(self.seq()[j] == x);
                    } else {
                        assert(self.seq()[j + 1] == x);
                    }
                }
                if self.seq().contains(x) {
                    let j = choose|j: int| 0 <= j < self.seq().len() && self.seq()[j] == x;
                    if j < i {
                        assert(old_seq[j] == x);
                    } else if j > i {
                        assert(old_seq[j - 1] == x);
                    }
                }
                if x == kk {
                    assert(self.seq()[i as int] == kk);
                }
            }
            assert(self@ =~= old(self)@.insert(kk));
        }
    }

    /// Adds `k` (no effect if already present).
    pub fn insert(&mut self, k: String)
        ensures
            final(self)@ == old(self)@.insert(k@),
    {
        let (i, found) = self.position(k.as_str());
        if found {
            assert(self.seq().contains(k@));
            assert(self@ =~= old(self)@.insert(k@));
        } else {
            self.insert_at(i, k);
        }
    }

    /// The set of the given strings.
    pub fn from_strs(names: &[&str]) -> (s: Self)
        ensures
            forall|x: Seq<char>| #[trigger] s@.contains(x) <==> exists|i: int|
                0 <= i < names@.len() && names@[i]@ == x,
    {
        let mut s = StrSet::new();
        let mut i: usize = 0;
        while i < names.len()
            invariant
                i <= names@.len(),
                forall|x: Seq<char>| #[trigger] s@.contains(x) <==> exists|j: int|
                    0 <= j < i && names@[j]@ == x,
            decreases names.len() - i,
        {
            let name = owned(names[i]);
            s.insert(name);
            proof {
                assert forall|x: Seq<char>| #[trigger] s@.contains(x) <==> exists|j: int|
                    0 <= j < i + 1 && names@[j]@ == x by {
                    if x == names@[i as int]@ {
                        assert(names@[i as int]@ == x);
                    }
                }
            }
            i += 1;
        }
        s
    }

    /// Whether every member of `self` is a member of `other`.
    pub fn is_subset_of(&self, other: &StrSet) -> (b: bool)
        ensures
            b == self@.subset_of(other@),
    {
        let n = self.len();
        let mut i: usize = 0;
        while i < n
            invariant
                n == self.seq().len(),
                i <= n,
                forall|j: int| 0 <= j < i ==> other@.contains(#[trigger] self.seq()[j]),
            decreases n - i,
        {
            assert(self.seq()[i as int] == self.items@[i as int]@);
            if !other.contains(self.items[i].as_str()) {
                assert(self@.contains(self.seq()[i as int]));
                return false;
            }
            i += 1;
        }
        proof {
            assert forall|x: Seq<char>| self@.contains(x) implies other@.contains(x) by {
                let j = choose|j: int| 0 <= j < self.seq().len() && self.seq()[j] == x;
            }
        }
        true
    }

    /// An independent copy with the same members.
    pub fn copy(&self) -> (r: StrSet)
        ensures
            r.seq() == self.seq(),
            r@ == self@,
    {
        proof {
            use_type_invariant(self);
        }
        let n = self.items.len();
        let mut items: Vec<String> = Vec::new();
        let mut i: usize = 0;
        while i < n
            invariant
                n == self.items@.len(),
                i <= n,
                views(items@) == self.seq().take(i as int),
                items@.len() == i,
            decreases n - i,
        {
            assert(self.seq()[i as int] == self.items@[i as int]@);
            let ghost prev = items@;
            items.push(owned(self.items[i].as_str()));
            assert(items@ == prev.push(items@.last()));
            assert forall|j: int| 0 <= j < i + 1 implies #[trigger] views(items@)[j] == self.seq().take(i + 1)[j] by {
                if j < i {
                    assert(views(items@)[j] == items@[j]@);
                    assert(views(prev)[j] == prev[j]@);
                }
            }
            assert(views(items@) =~= self.seq().take(i + 1));
            i += 1;
        }
        assert(self.seq().take(n as int) =~= self.seq());
        StrSet { items }
    }

    /// The members, in increasing order.
    pub fn to_vec(&self) -> (r: Vec<String>)
        ensures
            views(r@) == self.seq(),
            strictly_sorted(self.seq()),
            lists_sorted(self.seq(), self@),
    {
        proof {
            use_type_invariant(self);
        }
        let c = self.copy();
        c.items
    }
}

impl Clone for StrSet {
    /// An independent copy with the same members.
    fn clone(&self) -> (r: Self)
        ensures
            r@ == self@,
            r.seq() == self.seq(),
    {
        self.copy()
    }
}

} // verus!
