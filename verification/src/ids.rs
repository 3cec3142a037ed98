//! Maps and sets keyed by repo id. Each is a list with no key twice, seen
//! from outside as a `Map` or a `Set` over the id's text.
use vstd::prelude::*;

use crate::text::{str_eq, strings};

verus! {

pub struct Entry<V> {
    pub key: String,
    pub val: V,
}

/// The keys of a list of entries, in order.
pub open spec fn keys_of<V>(es: Seq<Entry<V>>) -> Seq<Seq<char>> {
    es.map_values(|e: Entry<V>| e.key@)
}

/// The position of `k` among `ks`, when it is there.
pub open spec fn position(ks: Seq<Seq<char>>, k: Seq<char>) -> int {
    choose|i: int| 0 <= i < ks.len() && ks[i] == k
}

/// The map a list of entries with distinct keys stands for.
pub open spec fn map_of<V>(es: Seq<Entry<V>>) -> Map<Seq<char>, V> {
    Map::new(
        |k: Seq<char>| keys_of(es).contains(k),
        |k: Seq<char>| es[position(keys_of(es), k)].val,
    )
}

proof fn lemma_position<V>(es: Seq<Entry<V>>, i: int)
    requires
        keys_of(es).no_duplicates(),
        0 <= i < es.len(),
    ensures
        position(keys_of(es), es[i].key@) == i,
        map_of(es).contains_key(es[i].key@),
        map_of(es)[es[i].key@] == es[i].val,
{
    let ks = keys_of(es);
    assert(ks[i] == es[i].key@);
    let p = position(ks, es[i].key@);
    assert(0 <= p < ks.len() && ks[p] == es[i].key@);
}

/// A map from repo id to `V`.
pub struct IdMap<V> {
    entries: Vec<Entry<V>>,
}

impl<V> IdMap<V> {
    #[verifier::type_invariant]
    closed spec fn keys_unique(&self) -> bool {
        keys_of(self.entries@).no_duplicates()
    }

    pub closed spec fn as_map(&self) -> Map<Seq<char>, V> {
        map_of(self.entries@)
    }
}

impl<V> View for IdMap<V> {
    type V = Map<Seq<char>, V>;

    open spec fn view(&self) -> Map<Seq<char>, V> {
        self.as_map()
    }
}

impl<V> IdMap<V> {
    /// An empty map.
    pub fn new() -> (m: Self)
        ensures
            m@ == Map::<Seq<char>, V>::empty(),
    {
        let m = IdMap { entries: Vec::new() };
        assert(m@ =~= Map::<Seq<char>, V>::empty());
        m
    }

    fn index_of(&self, key: &str) -> (r: Option<usize>)
        ensures
            match r {
                Some(i) => i < self.entries@.len() && self.entries@[i as int].key@ == key@,
                None => !self@.contains_key(key@),
            },
    {
        let mut i: usize = 0;
        while i < self.entries.len()
            invariant
                i <= self.entries@.len(),
                forall|j: int| 0 <= j < i ==> self.entries@[j].key@ != key@,
            decreases self.entries.len() - i,
        {
            if str_eq(self.entries[i].key.as_str(), key) {
                return Some(i);
            }
            i = i + 1;
        }
        proof {
            if self@.contains_key(key@) {
                let ks = keys_of(self.entries@);
                let j = choose|j: int| 0 <= j < ks.len() && ks[j] == key@;
                assert(self.entries@[j].key@ == key@);
            }
        }
        None
    }

    /// Whether `key` has a value.
    pub fn contains_key(&self, key: &str) -> (r: bool)
        ensures
            r == self@.contains_key(key@),
    {
        proof {
            use_type_invariant(self);
        }
        match self.index_of(key) {
            Some(i) => {
                proof {
                    lemma_position(self.entries@, i as int);
                }
                true
            },
            None => false,
        }
    }

    /// The keys, each once, in no promised order.
    pub fn keys(&self) -> (r: Vec<String>)
        ensures
            strings(r@).to_set() == self@.dom(),
            strings(r@).no_duplicates(),
    {
        proof {
            use_type_invariant(self);
        }
        let mut out: Vec<String> = Vec::new();
        let mut i: usize = 0;
        while i < self.entries.len()
            invariant
                i <= self.entries@.len(),
                strings(out@) == keys_of(self.entries@).take(i as int),
            decreases self.entries.len() - i,
        {
            let k = self.entries[i].key.clone();
            let ghost before = out@;
            out.push(k);
            assert(keys_of(self.entries@)[i as int] == k@);
            assert(strings(out@) =~= strings(before).push(k@));
            assert(strings(out@) =~= keys_of(self.entries@).take(i + 1));
            i = i + 1;
        }
        assert(keys_of(self.entries@).take(i as int) =~= keys_of(self.entries@));
        assert(strings(out@).to_set() =~= self@.dom());
        out
    }

    /// The value of `key`, if it has one.
    pub fn get(&self, key: &str) -> (r: Option<&V>)
        ensures
            r == (if self@.contains_key(key@) {
                Some(&self@[key@])
            } else {
                None::<&V>
            }),
    {
        proof {
            use_type_invariant(self);
        }
        match self.index_of(key) {
            Some(i) => {
                proof {
                    lemma_position(self.entries@, i as int);
                }
                Some(&self.entries[i].val)
            },
            None => None,
        }
    }

    /// Sets `key` to `val`, replacing any value it had.
    pub fn insert(&mut self, key: String, val: V)
        ensures
            final(self)@ == old(self)@.insert(key@, val),
    {
        proof {
            use_type_invariant(&*self);
        }
        let ghost before = self@;
        let found = self.index_of(key.as_str());
        let mut es: Vec<Entry<V>> = Vec::new();
        std::mem::swap(&mut es, &mut self.entries);
        let ghost old_es = es@;
        assert(map_of(old_es) == before);
        match found {
            Some(i) => {
                es.set(i, Entry { key, val });
                proof {
                    assert(keys_of(old_es).no_duplicates());
                    assert(keys_of(es@) =~= keys_of(old_es));
                    assert(keys_of(es@)[i as int] == key@);
                    assert forall|k: Seq<char>| #[trigger] map_of(es@).contains_key(k) implies map_of(
                        es@,
                    )[k] == before.insert(key@, val)[k] by {
                        let p = position(keys_of(es@), k);
                        assert(keys_of(es@)[p] == k);
                        lemma_position(es@, p);
                        if p != i {
                            assert(es@[p] == old_es[p]);
                            lemma_position(old_es, p);
                            assert(k != key@);
                        }
                    }
                    assert forall|k: Seq<char>| #[trigger] before.insert(key@, val).contains_key(
                        k,
                    ) implies map_of(es@).contains_key(k) by {
                        if k != key@ {
                            let j = choose|j: int|
                                0 <= j < keys_of(old_es).len() && keys_of(old_es)[j] == k;
                            assert(keys_of(es@)[j] == k);
                        }
                    }
                    assert(map_of(es@).dom() =~= before.insert(key@, val).dom());
                    assert(map_of(es@) =~= before.insert(key@, val));
                }
            },
            None => {
                es.push(Entry { key, val });
                proof {
                    let n = old_es.len() as int;
                    assert(keys_of(es@) =~= keys_of(old_es).push(key@));
                    assert(keys_of(es@).no_duplicates()) by {
                        assert forall|a: int, b: int|
                            0 <= a < keys_of(es@).len() && 0 <= b < keys_of(es@).len() && a != b
                                implies keys_of(es@)[a] != keys_of(es@)[b] by {
                            if a == n {
                                assert(keys_of(old_es)[b] == keys_of(es@)[b]);
                            } else if b == n {
                                assert(keys_of(old_es)[a] == keys_of(es@)[a]);
                            }
                        }
                    }
                    assert forall|k: Seq<char>| #[trigger] map_of(es@).contains_key(k) implies map_of(
                        es@,
                    )[k] == before.insert(key@, val)[k] by {
                        let p = position(keys_of(es@), k);
                        assert(keys_of(es@)[p] == k);
                        lemma_position(es@, p);
                        if p != n {
                            lemma_position(old_es, p);
                        }
                    }
                    assert forall|k: Seq<char>| #[trigger] before.insert(key@, val).contains_key(
                        k,
                    ) implies map_of(es@).contains_key(k) by {
                        if k != key@ {
                            let j = choose|j: int|
                                0 <= j < keys_of(old_es).len() && keys_of(old_es)[j] == k;
                            assert(keys_of(es@)[j] == k);
                        } else {
                            assert(keys_of(es@)[n] == k);
                        }
                    }
                    assert(map_of(es@).dom() =~= before.insert(key@, val).dom());
                    assert(map_of(es@) =~= before.insert(key@, val));
                }
            },
        }
        self.entries = es;
    }

    /// Drops `key` and its value, if it has one.
    pub fn remove(&mut self, key: &str)
        ensures
            final(self)@ == old(self)@.remove(key@),
    {
        proof {
            use_type_invariant(&*self);
        }
        let ghost before = self@;
        let found = self.index_of(key);
        match found {
            None => {
                assert(before.remove(key@) =~= before);
            },
            Some(i) => {
                let mut es: Vec<Entry<V>> = Vec::new();
                std::mem::swap(&mut es, &mut self.entries);
                let ghost old_es = es@;
                es.remove(i);
                proof {
                    let ks = keys_of(old_es);
                    assert(keys_of(es@) =~= ks.remove(i as int));
                    assert(keys_of(es@).no_duplicates()) by {
                        assert forall|a: int, b: int|
                            0 <= a < keys_of(es@).len() && 0 <= b < keys_of(es@).len() && a != b
                                implies keys_of(es@)[a] != keys_of(es@)[b] by {
                            let a2 = if a < i {
                                a
                            } else {
                                a + 1
                            };
                            let b2 = if b < i {
                                b
                            } else {
                                b + 1
                            };
                            assert(keys_of(es@)[a] == ks[a2]);
                            assert(keys_of(es@)[b] == ks[b2]);
                        }
                    }
                    assert forall|k: Seq<char>| #[trigger] map_of(es@).contains_key(k) implies map_of(
                        es@,
                    )[k] == before.remove(key@)[k] && k != key@ by {
                        let p = position(keys_of(es@), k);
                        assert(keys_of(es@)[p] == k);
                        lemma_position(es@, p);
                        let p2 = if p < i {
                            p
                        } else {
                            p + 1
                        };
                        assert(es@[p] == old_es[p2]);
                        lemma_position(old_es, p2);
                        assert(ks[i as int] == key@);
                    }
                    assert forall|k: Seq<char>| #[trigger] before.remove(key@).contains_key(
                        k,
                    ) implies map_of(es@).contains_key(k) by {
                        let j = choose|j: int| 0 <= j < ks.len() && ks[j] == k;
                        assert(j != i);
                        let j2 = if j < i {
                            j
                        } else {
                            j - 1
                        };
                        assert(keys_of(es@)[j2] == k);
                    }
                    assert(map_of(es@).dom() =~= before.remove(key@).dom());
                    assert(map_of(es@) =~= before.remove(key@));
                }
                self.entries = es;
            },
        }
    }

    /// Keeps only the entries whose key is one of `ids`.
    pub fn retain_ids(&mut self, ids: &Vec<String>)
        ensures
            final(self)@ == old(self)@.restrict(strings(ids@).to_set()),
    {
        proof {
            use_type_invariant(&*self);
        }
        let ghost before = self@;
        let ghost keep = strings(ids@).to_set();
        let mut es: Vec<Entry<V>> = Vec::new();
        std::mem::swap(&mut es, &mut self.entries);
        let ghost old_es = es@;
        assert(map_of(old_es) == before);
        assert(keys_of(old_es).no_duplicates());
        let mut kept: Vec<Entry<V>> = Vec::new();
        let mut rest = es;
        let ghost consumed: Seq<Entry<V>> = Seq::empty();
        assert(old_es =~= consumed + rest@);
        while rest.len() > 0
            invariant
                keys_of(old_es).no_duplicates(),
                map_of(old_es) == before,
                keep == strings(ids@).to_set(),
                old_es == consumed + rest@,
                keys_of(kept@).no_duplicates(),
                forall|j: int|
                    0 <= j < kept@.len() ==> keep.contains(#[trigger] kept@[j].key@)
                        && before.contains_key(kept@[j].key@) && before[kept@[j].key@]
                        == kept@[j].val,
                forall|j: int|
                    0 <= j < consumed.len() && keep.contains(#[trigger] consumed[j].key@)
                        ==> exists|m: int| 0 <= m < kept@.len() && kept@[m].key@ == consumed[j].key@,
                forall|m: int|
                    0 <= m < kept@.len() ==> exists|j: int|
                        0 <= j < consumed.len() && consumed[j].key@ == #[trigger] kept@[m].key@,
            decreases rest.len(),
        {
            let e = rest.remove(0);
            let ghost c0 = consumed;
            let ghost k0 = kept@;
            let ghost idx = c0.len() as int;
            proof {
                consumed = consumed.push(e);
                assert(old_es =~= consumed + rest@);
                assert(old_es[idx] == e);
                lemma_position(old_es, idx);
                assert forall|j: int| 0 <= j < c0.len() implies c0[j].key@ != e.key@ by {
                    assert(old_es[j] == c0[j]);
                    assert(keys_of(old_es)[j] == c0[j].key@);
                    assert(keys_of(old_es)[idx] == e.key@);
                }
                assert forall|m: int| 0 <= m < k0.len() implies k0[m].key@ != e.key@ by {
                    let j = choose|j: int| 0 <= j < c0.len() && c0[j].key@ == k0[m].key@;
                }
            }
            if contains_id(ids, e.key.as_str()) {
                kept.push(e);
                proof {
                    let n = k0.len() as int;
                    assert(keys_of(kept@).no_duplicates()) by {
                        assert forall|a: int, b: int|
                            0 <= a < keys_of(kept@).len() && 0 <= b < keys_of(kept@).len() && a
                                != b implies keys_of(kept@)[a] != keys_of(kept@)[b] by {
                            if a == n {
                                assert(kept@[b] == k0[b]);
                            } else if b == n {
                                assert(kept@[a] == k0[a]);
                            } else {
                                assert(kept@[a] == k0[a] && kept@[b] == k0[b]);
                                assert(keys_of(k0)[a] == k0[a].key@ && keys_of(k0)[b] == k0[b].key@);
                            }
                        }
                    }
                    assert forall|j: int|
                        0 <= j < kept@.len() implies keep.contains(#[trigger] kept@[j].key@)
                            && before.contains_key(kept@[j].key@) && before[kept@[j].key@]
                            == kept@[j].val by {
                        if j < n {
                            assert(kept@[j] == k0[j]);
                        }
                    }
                    assert forall|j: int|
                        0 <= j < consumed.len() && keep.contains(#[trigger] consumed[j].key@)
                            implies exists|m: int|
                            0 <= m < kept@.len() && kept@[m].key@ == consumed[j].key@ by {
                        if j < idx {
                            assert(consumed[j] == c0[j]);
                            let m = choose|m: int| 0 <= m < k0.len() && k0[m].key@ == c0[j].key@;
                            assert(kept@[m] == k0[m]);
                        } else {
                            assert(kept@[n] == e);
                        }
                    }
                    assert forall|m: int| 0 <= m < kept@.len() implies exists|j: int|
                        0 <= j < consumed.len() && consumed[j].key@ == #[trigger] kept@[m].key@ by {
                        if m < n {
                            assert(kept@[m] == k0[m]);
                            let j = choose|j: int| 0 <= j < c0.len() && c0[j].key@ == k0[m].key@;
                            assert(consumed[j] == c0[j]);
                        } else {
                            assert(consumed[idx] == e);
                        }
                    }
                }
            } else {
                proof {
                    assert forall|j: int|
                        0 <= j < consumed.len() && keep.contains(#[trigger] consumed[j].key@)
                            implies exists|m: int|
                            0 <= m < kept@.len() && kept@[m].key@ == consumed[j].key@ by {
                        assert(j != idx);
                        assert(consumed[j] == c0[j]);
                    }
                    assert forall|m: int| 0 <= m < kept@.len() implies exists|j: int|
                        0 <= j < consumed.len() && consumed[j].key@ == #[trigger] kept@[m].key@ by {
                        let j = choose|j: int| 0 <= j < c0.len() && c0[j].key@ == k0[m].key@;
                        assert(consumed[j] == c0[j]);
                    }
                }
            }
        }
        proof {
            assert(consumed =~= old_es);
            let target = before.restrict(keep);
            assert forall|k: Seq<char>| #[trigger] map_of(kept@).contains_key(k) implies target.contains_key(k)
                && map_of(kept@)[k] == target[k] by {
                let p = position(keys_of(kept@), k);
                assert(keys_of(kept@)[p] == k);
                lemma_position(kept@, p);
            }
            assert forall|k: Seq<char>| #[trigger] target.contains_key(k) implies map_of(
                kept@,
            ).contains_key(k) by {
                let j = choose|j: int| 0 <= j < keys_of(old_es).len() && keys_of(old_es)[j] == k;
                assert(consumed[j].key@ == k);
                let m = choose|m: int| 0 <= m < kept@.len() && kept@[m].key@ == consumed[j].key@;
                assert(keys_of(kept@)[m] == k);
            }
            assert(map_of(kept@).dom() =~= target.dom());
            assert(map_of(kept@) =~= target);
        }
        self.entries = kept;
    }

    /// The entries, each key once, in no promised order.
    pub fn into_pairs(self) -> (r: Vec<(String, V)>)
        ensures
            forall|j: int|
                0 <= j < r@.len() ==> self@.contains_key(#[trigger] r@[j].0@) && self@[r@[j].0@]
                    == r@[j].1,
            forall|k: Seq<char>|
                self@.contains_key(k) ==> exists|j: int| 0 <= j < r@.len() && #[trigger] r@[j].0@ == k,
            r@.map_values(|p: (String, V)| p.0@).no_duplicates(),
    {
        proof {
            use_type_invariant(&self);
        }
        let ghost es0 = self.entries@;
        let mut rest = self.entries;
        let mut out: Vec<(String, V)> = Vec::new();
        let ghost consumed: Seq<Entry<V>> = Seq::empty();
        while rest.len() > 0
            invariant
                keys_of(es0).no_duplicates(),
                es0 == consumed + rest@,
                out@.len() == consumed.len(),
                forall|j: int| 0 <= j < out@.len() ==> #[trigger] out@[j].0@ == consumed[j].key@
                    && out@[j].1 == consumed[j].val,
            decreases rest.len(),
        {
            let e = rest.remove(0);
            proof {
                consumed = consumed.push(e);
                assert(es0 =~= consumed + rest@);
            }
            let Entry { key, val } = e;
            out.push((key, val));
        }
        proof {
            assert(consumed =~= es0);
            assert forall|j: int| 0 <= j < out@.len() implies self@.contains_key(
                #[trigger] out@[j].0@,
            ) && self@[out@[j].0@] == out@[j].1 by {
                lemma_position(es0, j);
            }
            assert forall|k: Seq<char>| self@.contains_key(k) implies exists|j: int|
                0 <= j < out@.len() && #[trigger] out@[j].0@ == k by {
                let j = choose|j: int| 0 <= j < keys_of(es0).len() && keys_of(es0)[j] == k;
                assert(out@[j].0@ == k);
            }
            assert(out@.map_values(|p: (String, V)| p.0@) =~= keys_of(es0));
        }
        out
    }
}

/// Adding one more id to a list adds it to the list's set.
pub proof fn lemma_to_set_push(v: Seq<Seq<char>>, x: Seq<char>)
    ensures
        v.push(x).to_set() == v.to_set().insert(x),
{
    let w = v.push(x);
    assert forall|k: Seq<char>| w.contains(k) <==> (v.contains(k) || k == x) by {
        if w.contains(k) {
            let j = choose|j: int| 0 <= j < w.len() && w[j] == k;
            if j < v.len() {
                assert(v[j] == k);
            }
        }
        if v.contains(k) {
            let j = choose|j: int| 0 <= j < v.len() && v[j] == k;
            assert(w[j] == k);
        }
        if k == x {
            assert(w[v.len() as int] == k);
        }
    }
    assert(w.to_set() =~= v.to_set().insert(x));
}

/// Whether `id` is one of `ids`.
pub fn contains_id(ids: &Vec<String>, id: &str) -> (r: bool)
    ensures
        r == strings(ids@).contains(id@),
        r == strings(ids@).to_set().contains(id@),
{
    let mut i: usize = 0;
    while i < ids.len()
        invariant
            i <= ids@.len(),
            forall|j: int| 0 <= j < i ==> strings(ids@)[j] != id@,
        decreases ids.len() - i,
    {
        if str_eq(ids[i].as_str(), id) {
            assert(strings(ids@)[i as int] == id@);
            return true;
        }
        i = i + 1;
    }
    false
}

/// A set of repo ids.
pub struct IdSet {
    map: IdMap<()>,
}

impl View for IdSet {
    type V = Set<Seq<char>>;

    open spec fn view(&self) -> Set<Seq<char>> {
        self.items()
    }
}

impl IdSet {
    pub closed spec fn items(&self) -> Set<Seq<char>> {
        self.map@.dom()
    }

    /// An empty set.
    pub fn new() -> (s: Self)
        ensures
            s@ == Set::<Seq<char>>::empty(),
    {
        let s = IdSet { map: IdMap::new() };
        assert(s@ =~= Set::<Seq<char>>::empty());
        s
    }

    pub fn contains(&self, id: &str) -> (r: bool)
        ensures
            r == self@.contains(id@),
    {
        self.map.contains_key(id)
    }

    pub fn insert(&mut self, id: String)
        ensures
            final(self)@ == old(self)@.insert(id@),
    {
        let ghost before = self@;
        self.map.insert(id, ());
        assert(self@ =~= before.insert(id@));
    }

    pub fn remove(&mut self, id: &str)
        ensures
            final(self)@ == old(self)@.remove(id@),
    {
        let ghost before = self@;
        self.map.remove(id);
        assert(self@ =~= before.remove(id@));
    }

    /// Keeps only the ids that are also in `ids`.
    pub fn retain_ids(&mut self, ids: &Vec<String>)
        ensures
            final(self)@ == old(self)@.intersect(strings(ids@).to_set()),
    {
        let ghost before = self@;
        self.map.retain_ids(ids);
        assert(self@ =~= before.intersect(strings(ids@).to_set()));
    }

    /// The ids, each once, in no promised order, the set left as it is.
    pub fn to_vec(&self) -> (r: Vec<String>)
        ensures
            strings(r@).to_set() == self@,
            strings(r@).no_duplicates(),
    {
        self.map.keys()
    }

    /// The ids, each once, in no promised order.
    pub fn into_vec(self) -> (r: Vec<String>)
        ensures
            strings(r@).to_set() == self@,
            strings(r@).no_duplicates(),
    {
        let ghost s = self@;
        let pairs = self.map.into_pairs();
        let mut out: Vec<String> = Vec::new();
        let mut i: usize = 0;
        while i < pairs.len()
            invariant
                i <= pairs@.len(),
                strings(out@) == pairs@.take(i as int).map_values(|p: (String, ())| p.0@),
            decreases pairs.len() - i,
        {
            let ghost prev = out@;
            out.push(pairs[i].0.clone());
            proof {
                assert(strings(out@) =~= strings(prev).push(pairs@[i as int].0@));
                assert(pairs@.take(i + 1).map_values(|p: (String, ())| p.0@) =~= pairs@.take(
                    i as int,
                ).map_values(|p: (String, ())| p.0@).push(pairs@[i as int].0@));
            }
            i = i + 1;
        }
        proof {
            assert(pairs@.take(pairs@.len() as int) =~= pairs@);
            assert forall|k: Seq<char>| strings(out@).to_set().contains(k) <==> s.contains(k) by {
                if s.contains(k) {
                    let j = choose|j: int| 0 <= j < pairs@.len() && #[trigger] pairs@[j].0@ == k;
                    assert(strings(out@)[j] == k);
                }
                if strings(out@).contains(k) {
                    let j = choose|j: int| 0 <= j < strings(out@).len() && strings(out@)[j] == k;
                    assert(pairs@[j].0@ == k);
                }
            }
            assert(strings(out@).to_set() =~= s);
        }
        out
    }

    /// The set of the given ids.
    pub fn from_vec(ids: Vec<String>) -> (s: Self)
        ensures
            s@ == strings(ids@).to_set(),
    {
        let mut s = IdSet::new();
        let mut i: usize = 0;
        while i < ids.len()
            invariant
                i <= ids@.len(),
                s@ == strings(ids@.take(i as int)).to_set(),
            decreases ids.len() - i,
        {
            let ghost before = s@;
            s.insert(ids[i].clone());
            proof {
                let t0 = strings(ids@.take(i as int));
                let t1 = strings(ids@.take(i + 1));
                assert(t1 =~= t0.push(ids@[i as int]@));
                assert forall|k: Seq<char>| t1.contains(k) <==> (t0.contains(k) || k == ids@[i as int]@) by {
                    if t1.contains(k) {
                        let j = choose|j: int| 0 <= j < t1.len() && t1[j] == k;
                        if j < t0.len() {
                            assert(t0[j] == k);
                        }
                    }
                    if t0.contains(k) {
                        let j = choose|j: int| 0 <= j < t0.len() && t0[j] == k;
                        assert(t1[j] == k);
                    }
                    if k == ids@[i as int]@ {
                        assert(t1[i as int] == k);
                    }
                }
                assert(s@ =~= t1.to_set());
            }
            i = i + 1;
        }
        assert(ids@.take(ids@.len() as int) =~= ids@);
        s
    }
}

} // verus!
