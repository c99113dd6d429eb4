//! String-keyed containers with mathematical `Map` and `Set` views. The
//! entries keep their insertion order, and keys are never stored twice.

use vstd::prelude::*;

verus! {

broadcast use vstd::std_specs::vec::group_vec_axioms;

/// The map that an association list stands for, later entries winning.
pub open spec fn alist_map<V: DeepView>(s: Seq<(String, V)>) -> Map<Seq<char>, V::V>
    decreases s.len(),
{
    if s.len() == 0 {
        Map::empty()
    } else {
        alist_map(s.drop_last()).insert(s.last().0@, s.last().1.deep_view())
    }
}

/// All keys of the association list, in order.
pub open spec fn alist_keys<V>(s: Seq<(String, V)>) -> Seq<Seq<char>> {
    Seq::new(s.len(), |i: int| s[i].0@)
}

/// No key view occurs twice.
pub open spec fn distinct_keys<V>(s: Seq<(String, V)>) -> bool {
    forall|i: int, j: int| 0 <= i < j < s.len() ==> s[i].0@ != s[j].0@
}

/// The modelled map contains exactly the listed keys.
pub proof fn lemma_alist_map_dom<V: DeepView>(s: Seq<(String, V)>)
    ensures
        forall|k: Seq<char>|
            #[trigger] alist_map(s).contains_key(k) <==> exists|i: int|
                0 <= i < s.len() && s[i].0@ == k,
    decreases s.len(),
{
    if s.len() != 0 {
        lemma_alist_map_dom(s.drop_last());
        assert forall|k: Seq<char>| #[trigger]
            alist_map(s).contains_key(k) implies exists|i: int|
            0 <= i < s.len() && s[i].0@ == k by {
            if k == s.last().0@ {
                assert(s[s.len() - 1].0@ == k);
            } else {
                assert(alist_map(s.drop_last()).contains_key(k));
                let i = choose|i: int| 0 <= i < s.drop_last().len() && s.drop_last()[i].0@ == k;
                assert(s.drop_last()[i] == s[i]);
                assert(s[i].0@ == k);
            }
        }
        assert forall|k: Seq<char>|
            (exists|i: int| 0 <= i < s.len() && s[i].0@ == k) implies #[trigger] alist_map(
            s,
        ).contains_key(k) by {
            let i = choose|i: int| 0 <= i < s.len() && s[i].0@ == k;
            if i < s.len() - 1 {
                assert(s.drop_last()[i] == s[i]);
                assert(s.drop_last()[i].0@ == k);
                assert(alist_map(s.drop_last()).contains_key(k));
            }
        }
    }
}

/// With distinct keys, each entry is the map's value at its key.
pub proof fn lemma_alist_map_index<V: DeepView>(s: Seq<(String, V)>, i: int)
    requires
        distinct_keys(s),
        0 <= i < s.len(),
    ensures
        alist_map(s).contains_key(s[i].0@),
        alist_map(s)[s[i].0@] == s[i].1.deep_view(),
    decreases s.len(),
{
    if i == s.len() - 1 {
    } else {
        assert(distinct_keys(s.drop_last()));
        assert(s.drop_last()[i] == s[i]);
        lemma_alist_map_index(s.drop_last(), i);
        assert(s[i].0@ != s.last().0@);
    }
}

/// Replacing the entry at `i` by one with the same key updates the map at
/// that key alone.
pub proof fn lemma_alist_map_update<V: DeepView>(s: Seq<(String, V)>, i: int, p: (String, V))
    requires
        distinct_keys(s),
        0 <= i < s.len(),
        p.0@ == s[i].0@,
    ensures
        alist_map(s.update(i, p)) =~= alist_map(s).insert(p.0@, p.1.deep_view()),
        distinct_keys(s.update(i, p)),
    decreases s.len(),
{
    let t = s.update(i, p);
    assert forall|x: int, y: int| 0 <= x < y < t.len() implies t[x].0@ != t[y].0@ by {
        assert(s[x].0@ != s[y].0@);
    }
    if i == s.len() - 1 {
        assert(t.drop_last() =~= s.drop_last());
    } else {
        assert(distinct_keys(s.drop_last()));
        assert(s.drop_last()[i] == s[i]);
        lemma_alist_map_update(s.drop_last(), i, p);
        assert(t.drop_last() =~= s.drop_last().update(i, p));
        assert(t.last() == s.last());
        assert(alist_map(t) =~= alist_map(s.drop_last()).insert(
            p.0@,
            p.1.deep_view(),
        ).insert(s.last().0@, s.last().1.deep_view()));
        assert(p.0@ != s.last().0@);
        assert(alist_map(s.drop_last()).insert(p.0@, p.1.deep_view()).insert(
            s.last().0@,
            s.last().1.deep_view(),
        ) =~= alist_map(s).insert(p.0@, p.1.deep_view()));
    }
}

/// A map keyed by strings, entries in insertion order, no key twice.
#[derive(Debug)]
pub struct StrMap<V> {
    entries: Vec<(String, V)>,
}

impl<V: DeepView> View for StrMap<V> {
    type V = Map<Seq<char>, V::V>;

    closed spec fn view(&self) -> Map<Seq<char>, V::V> {
        alist_map(self.entries@)
    }
}

impl<V: DeepView> StrMap<V> {
    /// The container never stores one key twice.
    pub closed spec fn wf(self) -> bool {
        distinct_keys(self.entries@)
    }

    /// The keys, oldest first.
    pub closed spec fn key_order(self) -> Seq<Seq<char>> {
        alist_keys(self.entries@)
    }

    /// The entries, oldest first, as key and value model pairs.
    pub closed spec fn entry_order(self) -> Seq<(Seq<char>, V::V)> {
        Seq::new(self.entries@.len(), |i: int| (self.entries@[i].0@, self.entries@[i].1.deep_view()))
    }

    /// The stored values, oldest first.
    pub closed spec fn values(self) -> Seq<V> {
        Seq::new(self.entries@.len(), |i: int| self.entries@[i].1)
    }

    /// An empty map.
    pub fn new() -> (r: Self)
        ensures
            r.wf(),
            r@ == Map::<Seq<char>, V::V>::empty(),
            r.key_order() == Seq::<Seq<char>>::empty(),
    {
        let r = StrMap { entries: Vec::new() };
        proof {
            assert(r.key_order() =~= Seq::<Seq<char>>::empty());
        }
        r
    }

    /// How many keys the map holds.
    pub fn len(&self) -> (r: usize)
        ensures
            r == self.key_order().len(),
    {
        self.entries.len()
    }

    /// Find the position of a key, scanning oldest first.
    fn position(&self, key: &str) -> (r: Option<usize>)
        ensures
            match r {
                Some(i) => i < self.entries@.len() && self.entries@[i as int].0@ == key@,
                None => forall|i: int|
                    0 <= i < self.entries@.len() ==> self.entries@[i as int].0@ != key@,
            },
    {
        let n = self.entries.len();
        let mut i: usize = 0;
        while i < n
            invariant
                n == self.entries@.len(),
                i <= n,
                forall|j: int| 0 <= j < i ==> self.entries@[j].0@ != key@,
            decreases n - i,
        {
            if crate::strutil::str_eq(self.entries[i].0.as_str(), key) {
                return Some(i);
            }
            i = i + 1;
        }
        None
    }

    /// Whether the map holds the key.
    pub fn contains_key(&self, key: &str) -> (r: bool)
        requires
            self.wf(),
        ensures
            r == self@.contains_key(key@),
    {
        proof {
            lemma_alist_map_dom(self.entries@);
        }
        match self.position(key) {
            Some(_) => true,
            None => false,
        }
    }

    /// The value stored under the key.
    pub fn get<'a>(&'a self, key: &str) -> (r: Option<&'a V>)
        requires
            self.wf(),
        ensures
            match r {
                Some(v) => {
                    &&& self@.contains_key(key@)
                    &&& self@[key@] == v.deep_view()
                    &&& exists|i: int| 0 <= i < self.values().len() && self.values()[i] == *v
                },
                None => !self@.contains_key(key@),
            },
    {
        proof {
            lemma_alist_map_dom(self.entries@);
        }
        match self.position(key) {
            Some(i) => {
                proof {
                    lemma_alist_map_index(self.entries@, i as int);
                    assert(self.values()[i as int] == self.entries@[i as int].1);
                }
                Some(&self.entries[i].1)
            },
            None => None,
        }
    }

    /// Store a value under a key: a fresh key goes to the end, a present one
    /// keeps its place.
    pub fn insert(&mut self, key: String, value: V)
        requires
            old(self).wf(),
        ensures
            final(self).wf(),
            final(self)@ == old(self)@.insert(key@, value.deep_view()),
            final(self).key_order() == if old(self)@.contains_key(key@) {
                old(self).key_order()
            } else {
                old(self).key_order().push(key@)
            },
    {
        proof {
            lemma_alist_map_dom(self.entries@);
        }
        match self.position(&key) {
            Some(i) => {
                let ghost s = self.entries@;
                self.entries.remove(i);
                self.entries.insert(i, (key, value));
                proof {
                    let p = self.entries@[i as int];
                    assert(self.entries@ =~= s.update(i as int, p));
                    lemma_alist_map_update(s, i as int, p);
                    assert(final(self).key_order() =~= old(self).key_order());
                }
            },
            None => {
                let ghost s = self.entries@;
                self.entries.push((key, value));
                proof {
                    assert(self.entries@.drop_last() =~= s);
                    assert(final(self).key_order() =~= old(self).key_order().push(key@));
                }
            },
        }
    }

    /// Remove a key and hand back its value.
    pub fn remove(&mut self, key: &str) -> (r: Option<V>)
        requires
            old(self).wf(),
        ensures
            final(self).wf(),
            final(self)@ == old(self)@.remove(key@),
            match r {
                Some(v) => old(self)@.contains_key(key@) && old(self)@[key@] == v.deep_view(),
                None => !old(self)@.contains_key(key@),
            },
            final(self).key_order() == old(self).key_order().remove_value(key@),
    {
        proof {
            lemma_alist_map_dom(self.entries@);
        }
        match self.position(key) {
            Some(i) => {
                let ghost s = self.entries@;
                proof {
                    lemma_alist_map_index(self.entries@, i as int);
                }
                let pair = self.entries.remove(i);
                proof {
                    assert(self.entries@ =~= s.remove(i as int));
                    lemma_alist_remove(s, i as int);
                    lemma_keys_remove(s, i as int, key@);
                }
                Some(pair.1)
            },
            None => {
                proof {
                    assert(final(self)@ =~= old(self)@.remove(key@));
                    lemma_keys_remove_absent(self.entries@, key@);
                }
                None
            },
        }
    }

    /// Borrow the entries, oldest first.
    pub fn entries_ref(&self) -> (r: &Vec<(String, V)>)
        ensures
            r@.len() == self.entry_order().len(),
            forall|i: int|
                0 <= i < r@.len() ==> self.entry_order()[i] == (r@[i].0@, r@[i].1.deep_view()),
            forall|i: int| 0 <= i < r@.len() ==> self.key_order()[i] == r@[i].0@,
    {
        &self.entries
    }
}

/// With no key stored twice, the listed entries and the map agree: each
/// listed key maps to its listed value, and every key of the map is listed.
pub proof fn lemma_entries_correspond<V: DeepView>(m: StrMap<V>)
    requires
        m.wf(),
    ensures
        m.key_order().len() == m.entry_order().len(),
        m.values().len() == m.key_order().len(),
        forall|i: int|
            0 <= i < m.key_order().len() ==> #[trigger] m@.contains_key(m.key_order()[i])
                && m@[m.key_order()[i]] == m.entry_order()[i].1 && m.entry_order()[i].0
                == m.key_order()[i] && m.entry_order()[i].1 == m.values()[i].deep_view(),
        forall|k: Seq<char>|
            #[trigger] m@.contains_key(k) ==> exists|i: int|
                0 <= i < m.key_order().len() && m.key_order()[i] == k,
{
    let s = m.entries_view();
    lemma_alist_map_dom(s);
    assert forall|i: int|
        0 <= i < m.key_order().len() implies #[trigger] m@.contains_key(m.key_order()[i])
        && m@[m.key_order()[i]] == m.entry_order()[i].1 && m.entry_order()[i].0 == m.key_order()[i]
        && m.entry_order()[i].1 == m.values()[i].deep_view() by {
        lemma_alist_map_index(s, i);
    }
    assert forall|k: Seq<char>| #[trigger] m@.contains_key(k) implies exists|i: int|
        0 <= i < m.key_order().len() && m.key_order()[i] == k by {
        let i = choose|i: int| 0 <= i < s.len() && s[i].0@ == k;
        assert(m.key_order()[i] == k);
    }
}

impl<V: DeepView> StrMap<V> {
    /// The raw entries, for the lemmas of this module.
    pub closed spec fn entries_view(self) -> Seq<(String, V)> {
        self.entries@
    }
}

/// Removing the entry at `i` removes its key from the map, the other
/// entries keeping their values.
proof fn lemma_alist_remove<V: DeepView>(s: Seq<(String, V)>, i: int)
    requires
        distinct_keys(s),
        0 <= i < s.len(),
    ensures
        alist_map(s.remove(i)) =~= alist_map(s).remove(s[i].0@),
        distinct_keys(s.remove(i)),
    decreases s.len(),
{
    let t = s.remove(i);
    assert forall|x: int, y: int| 0 <= x < y < t.len() implies t[x].0@ != t[y].0@ by {
        let sx: int = if x < i {
            x
        } else {
            x + 1
        };
        let sy: int = if y < i {
            y
        } else {
            y + 1
        };
        assert(t[x] == s[sx] && t[y] == s[sy]);
        assert(s[sx].0@ != s[sy].0@);
    }
    if i == s.len() - 1 {
        assert(t =~= s.drop_last());
        lemma_alist_map_dom(t);
        assert(alist_map(s.drop_last()).remove(s[i].0@) =~= alist_map(s.drop_last()));
    } else {
        assert(distinct_keys(s.drop_last()));
        assert(s.drop_last()[i] == s[i]);
        lemma_alist_remove(s.drop_last(), i);
        assert(t.drop_last() =~= s.drop_last().remove(i));
        assert(t.last() == s.last());
        assert(s[i].0@ != s.last().0@);
    }
}

/// Removing the entry at `i` removes the first occurrence of its key from
/// the key order.
proof fn lemma_keys_remove<V>(s: Seq<(String, V)>, i: int, k: Seq<char>)
    requires
        distinct_keys(s),
        0 <= i < s.len(),
        s[i].0@ == k,
    ensures
        alist_keys(s.remove(i)) =~= alist_keys(s).remove_value(k),
{
    let ks = alist_keys(s);
    assert(ks.len() == s.len());
    assert(ks[i] == k);
    assert forall|j: int| 0 <= j < i implies ks[j] != k by {
        assert(s[j].0@ != s[i].0@);
    }
    assert(ks.index_of_first(k) == Some(i)) by {
        ks.index_of_first_ensures(k);
        if ks.index_of_first(k) is None {
            assert(!ks.contains(k));
            assert(ks[i] == k);
        }
    }
    assert(ks.remove_value(k) == ks.remove(i));
    assert(alist_keys(s.remove(i)) =~= ks.remove(i));
}

/// A key the list does not hold leaves the key order unchanged when removed.
proof fn lemma_keys_remove_absent<V>(s: Seq<(String, V)>, k: Seq<char>)
    requires
        forall|i: int| 0 <= i < s.len() ==> s[i].0@ != k,
    ensures
        alist_keys(s).remove_value(k) == alist_keys(s),
{
    let ks = alist_keys(s);
    assert(!ks.contains(k)) by {
        if ks.contains(k) {
            let i = choose|i: int| 0 <= i < ks.len() && ks[i] == k;
            assert(s[i].0@ == k);
        }
    }
    ks.index_of_first_ensures(k);
    assert(ks.index_of_first(k) is None);
}

/// A set of strings, entries in insertion order, no member twice.
#[derive(Debug)]
pub struct StrSet {
    members: Vec<String>,
}

/// The set that a list of strings stands for.
pub open spec fn slist_set(s: Seq<String>) -> Set<Seq<char>>
    decreases s.len(),
{
    if s.len() == 0 {
        Set::empty()
    } else {
        slist_set(s.drop_last()).insert(s.last()@)
    }
}

/// The modelled set contains exactly the listed strings.
pub proof fn lemma_slist_set_dom(s: Seq<String>)
    ensures
        forall|k: Seq<char>|
            #[trigger] slist_set(s).contains(k) <==> exists|i: int| 0 <= i < s.len() && s[i]@ == k,
    decreases s.len(),
{
    if s.len() != 0 {
        lemma_slist_set_dom(s.drop_last());
        assert forall|k: Seq<char>| #[trigger]
            slist_set(s).contains(k) implies exists|i: int| 0 <= i < s.len() && s[i]@ == k by {
            if k == s.last()@ {
                assert(s[s.len() - 1]@ == k);
            } else {
                assert(slist_set(s.drop_last()).contains(k));
                let i = choose|i: int| 0 <= i < s.drop_last().len() && s.drop_last()[i]@ == k;
                assert(s.drop_last()[i] == s[i]);
                assert(s[i]@ == k);
            }
        }
        assert forall|k: Seq<char>|
            (exists|i: int| 0 <= i < s.len() && s[i]@ == k) implies #[trigger] slist_set(
            s,
        ).contains(k) by {
            let i = choose|i: int| 0 <= i < s.len() && s[i]@ == k;
            if i < s.len() - 1 {
                assert(s.drop_last()[i] == s[i]);
                assert(s.drop_last()[i]@ == k);
                assert(slist_set(s.drop_last()).contains(k));
            }
        }
    }
}

impl View for StrSet {
    type V = Set<Seq<char>>;

    closed spec fn view(&self) -> Set<Seq<char>> {
        slist_set(self.members@)
    }
}

impl StrSet {
    /// An empty set.
    pub fn new() -> (r: Self)
        ensures
            r@ == Set::<Seq<char>>::empty(),
    {
        StrSet { members: Vec::new() }
    }

    /// Whether the set holds the string.
    pub fn contains(&self, key: &str) -> (r: bool)
        ensures
            r == self@.contains(key@),
    {
        proof {
            lemma_slist_set_dom(self.members@);
        }
        let n = self.members.len();
        let mut i: usize = 0;
        while i < n
            invariant
                n == self.members@.len(),
                i <= n,
                forall|j: int| 0 <= j < i ==> self.members@[j]@ != key@,
            decreases n - i,
        {
            if crate::strutil::str_eq(self.members[i].as_str(), key) {
                proof {
                    lemma_slist_set_dom(self.members@);
                    assert(self.members@[i as int]@ == key@);
                }
                return true;
            }
            i = i + 1;
        }
        false
    }

    /// Add a string to the set.
    pub fn insert(&mut self, key: String)
        ensures
            final(self)@ == old(self)@.insert(key@),
    {
        let ghost s = self.members@;
        if !self.contains(key.as_str()) {
            self.members.push(key);
            proof {
                assert(self.members@.drop_last() =~= s);
            }
        } else {
            proof {
                assert(old(self)@.insert(key@) =~= old(self)@);
            }
        }
    }
}

} // verus!
