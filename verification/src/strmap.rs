//! A map keyed by text, kept as a vector of distinct-key pairs and viewed as
//! a mathematical `Map` from the keys' characters to the values' views.
use vstd::prelude::*;

verus! {

/// The map that a sequence of pairs describes, later pairs winning.
pub open spec fn pairs_map<V: View>(s: Seq<(String, V)>) -> Map<Seq<char>, V::V>
    decreases s.len(),
{
    if s.len() == 0 {
        Map::empty()
    } else {
        pairs_map(s.drop_last()).insert(s.last().0@, s.last().1@)
    }
}

/// No key occurs twice in `s`.
pub open spec fn distinct_keys<V>(s: Seq<(String, V)>) -> bool {
    forall|i: int, j: int| 0 <= i < s.len() && 0 <= j < s.len() && i != j ==> s[i].0@ != s[j].0@
}

/// In a sequence with distinct keys, each pair is found in the map, and nothing else is.
pub proof fn lemma_pairs_map<V: View>(s: Seq<(String, V)>)
    requires
        distinct_keys(s),
    ensures
        forall|k: Seq<char>|
            #[trigger] pairs_map(s).dom().contains(k) <==> exists|i: int|
                0 <= i < s.len() && s[i].0@ == k,
        forall|i: int| 0 <= i < s.len() ==> #[trigger] pairs_map(s)[s[i].0@] == s[i].1@,
    decreases s.len(),
{
    if s.len() > 0 {
        let t = s.drop_last();
        assert(distinct_keys(t));
        lemma_pairs_map(t);
        assert(pairs_map(s) == pairs_map(t).insert(s.last().0@, s.last().1@));
        assert forall|k: Seq<char>| #[trigger] pairs_map(s).dom().contains(k) <==> exists|i: int|
            0 <= i < s.len() && s[i].0@ == k by {
            if pairs_map(s).dom().contains(k) && k != s.last().0@ {
                assert(pairs_map(t).dom().contains(k));
                let i = choose|i: int| 0 <= i < t.len() && t[i].0@ == k;
                assert(s[i].0@ == k);
            }
            if exists|i: int| 0 <= i < s.len() && s[i].0@ == k {
                let i = choose|i: int| 0 <= i < s.len() && s[i].0@ == k;
                if i < s.len() - 1 {
                    assert(t[i].0@ == k);
                    assert(pairs_map(t).dom().contains(k));
                }
            }
        }
        assert forall|i: int| 0 <= i < s.len() implies #[trigger] pairs_map(s)[s[i].0@]
            == s[i].1@ by {
            if i < s.len() - 1 {
                assert(t[i] == s[i]);
                assert(s[i].0@ != s.last().0@);
            }
        }
    }
}

/// A map from text keys to values.
#[derive(Debug)]
pub struct StrMap<V> {
    entries: Vec<(String, V)>,
}

impl<V: View> View for StrMap<V> {
    type V = Map<Seq<char>, V::V>;

    closed spec fn view(&self) -> Map<Seq<char>, V::V> {
        pairs_map(self.entries@)
    }
}

impl<V: View> StrMap<V> {
    /// No key is stored twice.
    pub closed spec fn wf(&self) -> bool {
        distinct_keys(self.entries@)
    }

    /// Every stored value satisfies `p`.
    pub closed spec fn values_all(&self, p: spec_fn(V) -> bool) -> bool {
        forall|i: int| 0 <= i < self.entries@.len() ==> p(#[trigger] self.entries@[i].1)
    }

    pub fn new() -> (m: Self)
        ensures
            m.wf(),
            m@ == Map::<Seq<char>, V::V>::empty(),
            forall|p: spec_fn(V) -> bool| #[trigger] m.values_all(p),
    {
        StrMap { entries: Vec::new() }
    }

    /// Position of `key`, if it is stored.
    fn find(&self, key: &str) -> (r: Option<usize>)
        requires
            self.wf(),
        ensures
            match r {
                Some(i) => i < self.entries@.len() && self.entries@[i as int].0@ == key@,
                None => forall|i: int| 0 <= i < self.entries@.len() ==> self.entries@[i].0@ != key@,
            },
    {
        let k = key.to_owned();
        let mut i: usize = 0;
        while i < self.entries.len()
            invariant
                i <= self.entries@.len(),
                k@ == key@,
                forall|j: int| 0 <= j < i ==> self.entries@[j].0@ != key@,
            decreases self.entries@.len() - i,
        {
            if self.entries[i].0 == k {
                return Some(i);
            }
            i += 1;
        }
        None
    }

    pub fn contains_key(&self, key: &str) -> (r: bool)
        requires
            self.wf(),
        ensures
            r == self@.dom().contains(key@),
    {
        proof {
            lemma_pairs_map(self.entries@);
        }
        self.find(key).is_some()
    }

    pub fn get(&self, key: &str) -> (r: Option<&V>)
        requires
            self.wf(),
        ensures
            match r {
                Some(v) => self@.dom().contains(key@) && v@ == self@[key@],
                None => !self@.dom().contains(key@),
            },
            forall|p: spec_fn(V) -> bool| #[trigger] self.values_all(p) && r is Some ==> p(*r.unwrap()),
    {
        proof {
            lemma_pairs_map(self.entries@);
        }
        match self.find(key) {
            Some(i) => Some(&self.entries[i].1),
            None => None,
        }
    }

    /// Stores `value` under `key`, replacing what was there.
    pub fn insert(&mut self, key: String, value: V)
        requires
            old(self).wf(),
        ensures
            final(self).wf(),
            final(self)@ == old(self)@.insert(key@, value@),
            forall|p: spec_fn(V) -> bool| #[trigger] old(self).values_all(p) && p(value) ==> final(self).values_all(p),
    {
        let ghost old_s = self.entries@;
        let ghost kv = key@;
        let ghost vv = value@;
        proof {
            lemma_pairs_map(old_s);
        }
        match self.find(key.as_str()) {
            Some(i) => {
                let _ = self.entries.remove(i);
                self.entries.push((key, value));
                proof {
                    let s = self.entries@;
                    assert(distinct_keys(s)) by {
                        assert forall|a: int, b: int|
                            0 <= a < s.len() && 0 <= b < s.len() && a != b implies s[a].0@
                            != s[b].0@ by {
                            if a < s.len() - 1 && b < s.len() - 1 {
                                let oa = if a < i { a } else { a + 1 };
                                let ob = if b < i { b } else { b + 1 };
                                assert(s[a] == old_s[oa]);
                                assert(s[b] == old_s[ob]);
                            } else if a < s.len() - 1 {
                                let oa = if a < i { a } else { a + 1 };
                                assert(s[a] == old_s[oa]);
                            } else if b < s.len() - 1 {
                                let ob = if b < i { b } else { b + 1 };
                                assert(s[b] == old_s[ob]);
                            }
                        }
                    }
                    lemma_pairs_map(s);
                    assert forall|k: Seq<char>| #[trigger]
                        pairs_map(s).dom().contains(k) <==> pairs_map(old_s).insert(kv, vv).dom().contains(k) by {
                        if pairs_map(s).dom().contains(k) {
                            let a = choose|a: int| 0 <= a < s.len() && s[a].0@ == k;
                            if a < s.len() - 1 {
                                let oa = if a < i { a } else { a + 1 };
                                assert(s[a] == old_s[oa]);
                            }
                        }
                        if pairs_map(old_s).dom().contains(k) && k != kv {
                            let a = choose|a: int| 0 <= a < old_s.len() && old_s[a].0@ == k;
                            assert(a != i);
                            let na = if a < i { a } else { a - 1 };
                            assert(s[na] == old_s[a]);
                        }
                    }
                    assert forall|k: Seq<char>| #[trigger] pairs_map(s).dom().contains(k) implies
                        pairs_map(s)[k] == pairs_map(old_s).insert(kv, vv)[k] by {
                        let a = choose|a: int| 0 <= a < s.len() && s[a].0@ == k;
                        if a < s.len() - 1 {
                            let oa = if a < i { a } else { a + 1 };
                            assert(s[a] == old_s[oa]);
                            assert(pairs_map(old_s)[old_s[oa].0@] == old_s[oa].1@);
                        }
                    }
                    assert(pairs_map(s) =~= pairs_map(old_s).insert(kv, vv));
                }
            },
            None => {
                self.entries.push((key, value));
                proof {
                    let s = self.entries@;
                    assert(s.drop_last() =~= old_s);
                    assert(distinct_keys(s)) by {
                        assert forall|a: int, b: int|
                            0 <= a < s.len() && 0 <= b < s.len() && a != b implies s[a].0@
                            != s[b].0@ by {
                            if a < s.len() - 1 && b < s.len() - 1 {
                                assert(s[a] == old_s[a]);
                                assert(s[b] == old_s[b]);
                            } else if a < s.len() - 1 {
                                assert(s[a] == old_s[a]);
                            } else if b < s.len() - 1 {
                                assert(s[b] == old_s[b]);
                            }
                        }
                    }
                }
            },
        }
    }

    /// Takes the value stored under `key` out of the map.
    pub fn remove(&mut self, key: &str) -> (r: Option<V>)
        requires
            old(self).wf(),
        ensures
            final(self).wf(),
            final(self)@ == old(self)@.remove(key@),
            match r {
                Some(v) => old(self)@.dom().contains(key@) && v@ == old(self)@[key@],
                None => !old(self)@.dom().contains(key@),
            },
            forall|p: spec_fn(V) -> bool| #[trigger] old(self).values_all(p) ==> final(self).values_all(p) && (r is Some ==> p(r.unwrap())),
    {
        let ghost old_s = self.entries@;
        proof {
            lemma_pairs_map(old_s);
        }
        match self.find(key) {
            Some(i) => {
                let (_, v) = self.entries.remove(i);
                proof {
                    let s = self.entries@;
                    assert(distinct_keys(s)) by {
                        assert forall|a: int, b: int|
                            0 <= a < s.len() && 0 <= b < s.len() && a != b implies s[a].0@
                            != s[b].0@ by {
                            let oa = if a < i { a } else { a + 1 };
                            let ob = if b < i { b } else { b + 1 };
                            assert(s[a] == old_s[oa]);
                            assert(s[b] == old_s[ob]);
                        }
                    }
                    lemma_pairs_map(s);
                    let expect = pairs_map(old_s).remove(key@);
                    assert forall|k: Seq<char>| #[trigger]
                        pairs_map(s).dom().contains(k) <==> expect.dom().contains(k) by {
                        if pairs_map(s).dom().contains(k) {
                            let a = choose|a: int| 0 <= a < s.len() && s[a].0@ == k;
                            let oa = if a < i { a } else { a + 1 };
                            assert(s[a] == old_s[oa]);
                        }
                        if expect.dom().contains(k) {
                            let a = choose|a: int| 0 <= a < old_s.len() && old_s[a].0@ == k;
                            assert(a != i);
                            let na = if a < i { a } else { a - 1 };
                            assert(s[na] == old_s[a]);
                        }
                    }
                    assert forall|k: Seq<char>| #[trigger] pairs_map(s).dom().contains(k) implies
                        pairs_map(s)[k] == expect[k] by {
                        let a = choose|a: int| 0 <= a < s.len() && s[a].0@ == k;
                        let oa = if a < i { a } else { a + 1 };
                        assert(s[a] == old_s[oa]);
                        assert(pairs_map(old_s)[old_s[oa].0@] == old_s[oa].1@);
                    }
                    assert(pairs_map(s) =~= expect);
                    assert(old_s[i as int].0@ == key@);
                }
                Some(v)
            },
            None => {
                proof {
                    assert(pairs_map(old_s).remove(key@) =~= pairs_map(old_s));
                }
                None
            },
        }
    }

    /// The stored pairs, each key once.
    pub fn into_entries(self) -> (r: Vec<(String, V)>)
        requires
            self.wf(),
        ensures
            distinct_keys(r@),
            pairs_map(r@) == self@,
            forall|p: spec_fn(V) -> bool| #[trigger] self.values_all(p) ==> forall|i: int| 0 <= i < r@.len() ==> p(#[trigger] r@[i].1),
    {
        self.entries
    }
}

} // verus!
