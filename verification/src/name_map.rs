use vstd::prelude::*;

use crate::text::str_eq;

verus! {

/// A map from names to values, each name once.
#[derive(Debug)]
pub struct NameMap<V> {
    entries: Vec<(String, V)>,
}

/// The map that a list of distinct-keyed entries stands for.
pub open spec fn entries_map<V>(e: Seq<(String, V)>) -> Map<Seq<char>, V> {
    Map::new(
        |k: Seq<char>| exists|i: int| 0 <= i < e.len() && #[trigger] e[i].0@ == k,
        |k: Seq<char>| e[choose|i: int| 0 <= i < e.len() && #[trigger] e[i].0@ == k].1,
    )
}

pub open spec fn keys_distinct<V>(e: Seq<(String, V)>) -> bool {
    forall|i: int, j: int| 0 <= i < j < e.len() ==> e[i].0@ != e[j].0@
}

proof fn lemma_entries_map_at<V>(e: Seq<(String, V)>, i: int)
    requires
        keys_distinct(e),
        0 <= i < e.len(),
    ensures
        entries_map(e).contains_key(e[i].0@),
        entries_map(e)[e[i].0@] == e[i].1,
{
    let k = e[i].0@;
    assert(entries_map(e).contains_key(k));
    let c = choose|c: int| 0 <= c < e.len() && #[trigger] e[c].0@ == k;
    if c < i {
        assert(e[c].0@ != e[i].0@);
    } else if c > i {
        assert(e[i].0@ != e[c].0@);
    }
}

impl<V> NameMap<V> {
    #[verifier::type_invariant]
    spec fn inv(self) -> bool {
        keys_distinct(self.entries@)
    }

    /// The names and their values.
    pub closed spec fn map(&self) -> Map<Seq<char>, V> {
        entries_map(self.entries@)
    }

    pub fn new() -> (r: Self)
        ensures
            r.map() == Map::<Seq<char>, V>::empty(),
    {
        let r = NameMap { entries: Vec::new() };
        proof {
            assert(r.map() =~= Map::<Seq<char>, V>::empty());
        }
        r
    }

    fn find(&self, key: &str) -> (r: Option<usize>)
        ensures
            match r {
                Some(i) => i < self.entries@.len() && self.entries@[i as int].0@ == key@,
                None => forall|i: int| 0 <= i < self.entries@.len() ==> self.entries@[i].0@ != key@,
            },
    {
        let mut i: usize = 0;
        while i < self.entries.len()
            invariant
                i <= self.entries@.len(),
                forall|j: int| 0 <= j < i ==> self.entries@[j].0@ != key@,
            decreases self.entries@.len() - i,
        {
            if str_eq(self.entries[i].0.as_str(), key) {
                return Some(i);
            }
            i = i + 1;
        }
        None
    }

    /// The value of `key`.
    pub fn get(&self, key: &str) -> (r: Option<&V>)
        ensures
            match r {
                Some(v) => self.map().contains_key(key@) && self.map()[key@] == *v,
                None => !self.map().contains_key(key@),
            },
    {
        proof {
            use_type_invariant(self);
        }
        match self.find(key) {
            Some(i) => {
                proof {
                    lemma_entries_map_at(self.entries@, i as int);
                }
                Some(&self.entries[i].1)
            },
            None => None,
        }
    }

    /// Whether the map has no names.
    pub fn is_empty(&self) -> (r: bool)
        ensures
            r == (self.map().dom() =~= Set::<Seq<char>>::empty()),
    {
        proof {
            if self.entries@.len() > 0 {
                assert(self.map().contains_key(self.entries@[0].0@));
            }
        }
        self.entries.len() == 0
    }

    /// Sets the value of `key`.
    pub fn insert(&mut self, key: String, value: V)
        ensures
            final(self).map() == old(self).map().insert(key@, value),
    {
        proof {
            use_type_invariant(&*self);
        }
        let ghost before = self.entries@;
        let ghost kv = key@;
        let ghost vv = value;
        let found = self.find(key.as_str());
        let mut entries: Vec<(String, V)> = Vec::new();
        std::mem::swap(&mut entries, &mut self.entries);
        match found {
            Some(i) => {
                entries.set(i, (key, value));
            },
            None => {
                entries.push((key, value));
            },
        }
        proof {
            assert forall|a: int, b: int| 0 <= a < b < entries@.len() implies entries@[a].0@ != entries@[b].0@ by {
                if b < before.len() && a != i_or_len(found, before.len()) && b != i_or_len(found, before.len()) {
                    assert(before[a].0@ != before[b].0@);
                }
            }
            let m = entries_map(entries@);
            let m0 = entries_map(before);
            assert forall|k: Seq<char>| #[trigger] m.contains_key(k) <==> m0.insert(kv, vv).contains_key(k) by {
                if m.contains_key(k) {
                    let w = choose|w: int| 0 <= w < entries@.len() && #[trigger] entries@[w].0@ == k;
                    if k != kv {
                        assert(before[w].0@ == k);
                    }
                }
                if m0.contains_key(k) && k != kv {
                    let w = choose|w: int| 0 <= w < before.len() && #[trigger] before[w].0@ == k;
                    assert(entries@[w].0@ == k);
                }
                if k == kv {
                    let p = i_or_len(found, before.len());
                    assert(entries@[p].0@ == k);
                }
            }
            assert forall|k: Seq<char>| #[trigger] m.contains_key(k) implies m[k] == m0.insert(kv, vv)[k] by {
                let w = choose|w: int| 0 <= w < entries@.len() && #[trigger] entries@[w].0@ == k;
                lemma_entries_map_at(entries@, w);
                if k != kv {
                    assert(entries@[w] == before[w]);
                    lemma_entries_map_at(before, w);
                }
            }
            assert(m =~= m0.insert(kv, vv));
        }
        self.entries = entries;
    }

    /// The names, each once.
    pub fn keys(&self) -> (r: Vec<String>)
        ensures
            forall|k: Seq<char>| self.map().contains_key(k) <==> exists|i: int| 0 <= i < r@.len() && #[trigger] r@[i]@ == k,
            forall|i: int, j: int| 0 <= i < j < r@.len() ==> r@[i]@ != r@[j]@,
    {
        proof {
            use_type_invariant(self);
        }
        let mut out: Vec<String> = Vec::new();
        let mut i: usize = 0;
        while i < self.entries.len()
            invariant
                keys_distinct(self.entries@),
                i <= self.entries@.len(),
                out@.len() == i,
                forall|a: int| 0 <= a < i ==> #[trigger] out@[a]@ == self.entries@[a].0@,
            decreases self.entries@.len() - i,
        {
            out.push(self.entries[i].0.clone());
            i = i + 1;
        }
        proof {
            assert forall|k: Seq<char>| self.map().contains_key(k) <==> exists|a: int| 0 <= a < out@.len() && #[trigger] out@[a]@ == k by {
                if self.map().contains_key(k) {
                    let w = choose|w: int| 0 <= w < self.entries@.len() && #[trigger] self.entries@[w].0@ == k;
                    assert(out@[w]@ == k);
                }
                if exists|a: int| 0 <= a < out@.len() && #[trigger] out@[a]@ == k {
                    let a = choose|a: int| 0 <= a < out@.len() && #[trigger] out@[a]@ == k;
                    assert(self.entries@[a].0@ == k);
                }
            }
            assert forall|a: int, b: int| 0 <= a < b < out@.len() implies out@[a]@ != out@[b]@ by {
                assert(self.entries@[a].0@ != self.entries@[b].0@);
            }
        }
        out
    }
}

/// Where `insert` puts an entry: the found position, or the end.
pub open spec fn i_or_len(found: Option<usize>, len: nat) -> int {
    match found {
        Some(i) => i as int,
        None => len as int,
    }
}

} // verus!
