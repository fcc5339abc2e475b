//! A small map, kept as a list without repeated keys.

use vstd::prelude::*;

verus! {

/// A key: what it stands for, and how two keys are told apart.
pub trait Key: Sized {
    /// What keys stand for.
    type Id;

    /// What this key stands for.
    spec fn id(&self) -> Self::Id;

    /// Whether two keys stand for the same.
    fn same(&self, other: &Self) -> (r: bool)
        ensures
            r == (self.id() == other.id()),
    ;
}

impl Key for String {
    type Id = Seq<char>;

    open spec fn id(&self) -> Seq<char> {
        self@
    }

    fn same(&self, other: &String) -> (r: bool) {
        crate::text::str_eq(self.as_str(), other.as_str())
    }
}

/// A map from keys to values.
pub struct Table<K, V> {
    entries: Vec<(K, V)>,
}

spec fn distinct<K: Key, V>(s: Seq<(K, V)>) -> bool {
    forall|i: int, j: int| 0 <= i < j < s.len() ==> (#[trigger] s[i]).0.id() != (
    #[trigger] s[j]).0.id()
}

spec fn as_map<K: Key, V>(s: Seq<(K, V)>) -> Map<K::Id, V>
    decreases s.len(),
{
    if s.len() == 0 {
        Map::empty()
    } else {
        as_map(s.drop_last()).insert(s.last().0.id(), s.last().1)
    }
}

spec fn key_at<K: Key, V>(s: Seq<(K, V)>, i: int, k: K::Id) -> bool {
    0 <= i < s.len() && s[i].0.id() == k
}

proof fn lemma_as_map<K: Key, V>(s: Seq<(K, V)>)
    requires
        distinct(s),
    ensures
        as_map(s).dom().finite(),
        as_map(s).len() == s.len(),
        forall|i: int|
            #![trigger s[i]]
            0 <= i < s.len() ==> as_map(s).contains_key(s[i].0.id()) && as_map(s)[s[i].0.id()] == s[i].1,
        forall|k: K::Id| #[trigger]
            as_map(s).contains_key(k) ==> exists|i: int| #[trigger] key_at(s, i, k),
    decreases s.len(),
{
    if s.len() > 0 {
        let t = s.drop_last();
        assert forall|i: int, j: int| 0 <= i < j < t.len() implies (#[trigger] t[i]).0.id() != (
        #[trigger] t[j]).0.id() by {
            assert(s[i].0.id() != s[j].0.id());
        }
        lemma_as_map(t);
        if as_map(t).contains_key(s.last().0.id()) {
            let i = choose|i: int| key_at(t, i, s.last().0.id());
            assert(s[i].0.id() != s[s.len() - 1].0.id());
        }
        assert forall|i: int| #![trigger s[i]] 0 <= i < s.len() implies as_map(s).contains_key(
            s[i].0.id(),
        ) && as_map(s)[s[i].0.id()] == s[i].1 by {
            if i < s.len() - 1 {
                assert(t[i] == s[i]);
                assert(s[i].0.id() != s[s.len() - 1].0.id());
            }
        }
        assert forall|k: K::Id| #[trigger] as_map(s).contains_key(k) implies exists|i: int| #[trigger]
            key_at(s, i, k) by {
            if k == s.last().0.id() {
                assert(key_at(s, s.len() - 1, k));
            } else {
                let i = choose|i: int| key_at(t, i, k);
                assert(key_at(s, i, k));
            }
        }
    }
}

proof fn lemma_as_map_remove<K: Key, V>(s: Seq<(K, V)>, p: int)
    requires
        distinct(s),
        0 <= p < s.len(),
    ensures
        distinct(s.remove(p)),
        as_map(s.remove(p)) == as_map(s).remove(s[p].0.id()),
{
    let t = s.remove(p);
    assert forall|i: int, j: int| 0 <= i < j < t.len() implies (#[trigger] t[i]).0.id() != (
    #[trigger] t[j]).0.id() by {
        let a = if i < p { i } else { i + 1 };
        let b = if j < p { j } else { j + 1 };
        assert(s[a].0.id() != s[b].0.id());
    }
    lemma_as_map(s);
    lemma_as_map(t);
    let m = as_map(s).remove(s[p].0.id());
    assert forall|k: K::Id| #[trigger] as_map(t).dom().contains(k) == m.dom().contains(k) by {
        if as_map(t).contains_key(k) {
            let i = choose|i: int| key_at(t, i, k);
            let a = if i < p { i } else { i + 1 };
            assert(t[i] == s[a]);
            assert(s[a].0.id() == k);
            if a < p {
                assert(s[a].0.id() != s[p].0.id());
            } else {
                assert(s[p].0.id() != s[a].0.id());
            }
        }
        if as_map(s).contains_key(k) && k != s[p].0.id() {
            let a = choose|a: int| key_at(s, a, k);
            let i = if a < p { a } else { a - 1 };
            assert(t[i] == s[a]);
        }
    }
    assert forall|k: K::Id| as_map(t).contains_key(k) implies #[trigger] as_map(t)[k] == m[k] by {
        let i = choose|i: int| key_at(t, i, k);
        let a = if i < p { i } else { i + 1 };
        assert(t[i] == s[a]);
        assert(s[a].0.id() == k);
        if a < p {
            assert(s[a].0.id() != s[p].0.id());
        } else {
            assert(s[p].0.id() != s[a].0.id());
        }
    }
    assert(as_map(t).dom() =~= m.dom());
    assert(as_map(t) =~= m);
}

impl<K: Key, V> View for Table<K, V> {
    type V = Map<K::Id, V>;

    closed spec fn view(&self) -> Map<K::Id, V> {
        as_map(self.entries@)
    }
}

impl<K: Key, V> Table<K, V> {
    /// No key occurs twice.
    pub closed spec fn wf(&self) -> bool {
        distinct(self.entries@)
    }

    /// The empty table.
    pub fn new() -> (r: Self)
        ensures
            r.wf(),
            r@ == Map::<K::Id, V>::empty(),
    {
        Table { entries: Vec::new() }
    }

    /// Number of entries.
    pub fn len(&self) -> (n: usize)
        requires
            self.wf(),
        ensures
            n == self@.len(),
            self@.dom().finite(),
    {
        proof {
            lemma_as_map(self.entries@);
        }
        self.entries.len()
    }

    /// The keys in the order of the list.
    pub closed spec fn ids(&self) -> Seq<K::Id> {
        Seq::new(self.entries@.len(), |i: int| self.entries@[i].0.id())
    }

    /// The list holds each key once, and no others.
    pub proof fn lemma_ids(&self)
        requires
            self.wf(),
        ensures
            self.ids().no_duplicates(),
            self.ids().len() == self@.len(),
            self@.dom().finite(),
            forall|k: K::Id| #[trigger] self.ids().contains(k) <==> self@.contains_key(k),
    {
        lemma_as_map(self.entries@);
        let ids = self.ids();
        assert forall|a: int, b: int| 0 <= a < ids.len() && 0 <= b < ids.len() && a
            != b implies ids[a] != ids[b] by {
            if a < b {
                assert(self.entries@[a].0.id() != self.entries@[b].0.id());
            } else {
                assert(self.entries@[b].0.id() != self.entries@[a].0.id());
            }
        }
        assert forall|k: K::Id| #[trigger] ids.contains(k) <==> self@.contains_key(k) by {
            if ids.contains(k) {
                let j = choose|j: int| 0 <= j < ids.len() && ids[j] == k;
                assert(self.entries@[j].0.id() == k);
            }
            if self@.contains_key(k) {
                let j = choose|j: int| key_at(self.entries@, j, k);
                assert(ids[j] == k);
            }
        }
    }

    /// Number of entries in the list.
    pub fn count(&self) -> (n: usize)
        ensures
            n == self.ids().len(),
    {
        self.entries.len()
    }

    /// The entry at a place of the list.
    pub fn entry(&self, i: usize) -> (r: (&K, &V))
        requires
            self.wf(),
            i < self.ids().len(),
        ensures
            r.0.id() == self.ids()[i as int],
            self@.contains_key(r.0.id()),
            self@[r.0.id()] == *r.1,
    {
        proof {
            lemma_as_map(self.entries@);
            assert(self.entries@[i as int].0.id() == self.ids()[i as int]);
        }
        (&self.entries[i].0, &self.entries[i].1)
    }

    fn position(&self, k: &K) -> (r: Option<usize>)
        requires
            self.wf(),
        ensures
            match r {
                Some(i) => i < self.entries@.len() && self.entries@[i as int].0.id() == k.id(),
                None => !self@.contains_key(k.id()),
            },
    {
        let mut i: usize = 0;
        while i < self.entries.len()
            invariant
                i <= self.entries@.len(),
                forall|j: int| 0 <= j < i ==> (#[trigger] self.entries@[j]).0.id() != k.id(),
            decreases self.entries@.len() - i,
        {
            if self.entries[i].0.same(k) {
                return Some(i);
            }
            i += 1;
        }
        proof {
            lemma_as_map(self.entries@);
            if self@.contains_key(k.id()) {
                let p = choose|p: int| key_at(self.entries@, p, k.id());
                assert(self.entries@[p].0.id() != k.id());
            }
        }
        None
    }

    /// The value under a key.
    pub fn get(&self, k: &K) -> (r: Option<&V>)
        requires
            self.wf(),
        ensures
            match r {
                Some(v) => self@.contains_key(k.id()) && self@[k.id()] == *v,
                None => !self@.contains_key(k.id()),
            },
    {
        proof {
            lemma_as_map(self.entries@);
        }
        match self.position(k) {
            Some(i) => {
                assert(self.entries@[i as int].0.id() == k.id());
                Some(&self.entries[i].1)
            },
            None => None,
        }
    }

    /// Takes the value under a key out.
    pub fn remove(&mut self, k: &K) -> (r: Option<V>)
        requires
            old(self).wf(),
        ensures
            final(self).wf(),
            final(self)@ == old(self)@.remove(k.id()),
            match r {
                Some(v) => old(self)@.contains_key(k.id()) && old(self)@[k.id()] == v,
                None => !old(self)@.contains_key(k.id()),
            },
    {
        proof {
            lemma_as_map(self.entries@);
        }
        match self.position(k) {
            Some(i) => {
                proof {
                    lemma_as_map_remove(self.entries@, i as int);
                    assert(self.entries@[i as int].0.id() == k.id());
                }
                let e = self.entries.remove(i);
                Some(e.1)
            },
            None => {
                assert(self@ =~= self@.remove(k.id()));
                None
            },
        }
    }

    /// Puts a value under a key, in place of any that was there.
    pub fn insert(&mut self, k: K, v: V)
        requires
            old(self).wf(),
        ensures
            final(self).wf(),
            final(self)@ == old(self)@.insert(k.id(), v),
    {
        let _gone = self.remove(&k);
        let ghost before = self.entries@;
        self.entries.push((k, v));
        proof {
            lemma_as_map(before);
            assert(self.entries@.drop_last() =~= before);
            assert forall|i: int, j: int| 0 <= i < j < self.entries@.len() implies (
            #[trigger] self.entries@[i]).0.id() != (#[trigger] self.entries@[j]).0.id() by {
                if j == before.len() {
                    assert(as_map(before).contains_key(before[i].0.id()));
                }
            }
            assert(self@ =~= old(self)@.insert(k.id(), v));
        }
    }
}

} // verus!
