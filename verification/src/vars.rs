//! A map from variable names to values, stored as a vector of entries kept
//! strictly sorted by name.  Its mathematical view is a `Map` from character
//! sequences to the values' views; the sorted storage gives every map a
//! single canonical entry order, which keeps encoding deterministic and
//! iteration reproducible.

use vstd::prelude::*;
use crate::text::{lex_lt, str_eq, str_lt, lemma_lex_lt_irreflexive, lemma_lex_lt_transitive,
    lemma_lex_lt_connected};

verus! {

#[derive(Debug, PartialEq)]
pub struct VarMap<V> {
    pub entries: Vec<(String, V)>,
}

/// The map described by an entry sequence, later entries winning.
pub open spec fn entries_map<V: View>(s: Seq<(String, V)>) -> Map<Seq<char>, V::V>
    decreases s.len(),
{
    if s.len() == 0 {
        Map::empty()
    } else {
        entries_map(s.drop_last()).insert(s.last().0@, s.last().1@)
    }
}

impl<V: View> View for VarMap<V> {
    type V = Map<Seq<char>, V::V>;

    open spec fn view(&self) -> Map<Seq<char>, V::V> {
        entries_map(self.entries@)
    }
}

pub proof fn lemma_entries_map_contains<V: View>(s: Seq<(String, V)>, k: Seq<char>)
    ensures
        entries_map(s).contains_key(k) <==> (exists|i: int| 0 <= i < s.len() && s[i].0@ == k),
    decreases s.len(),
{
    if s.len() > 0 {
        let dl = s.drop_last();
        lemma_entries_map_contains(dl, k);
        if exists|i: int| 0 <= i < s.len() && s[i].0@ == k {
            let i = choose|i: int| 0 <= i < s.len() && s[i].0@ == k;
            if i < s.len() - 1 {
                assert(dl[i] == s[i]);
                assert(entries_map(dl).contains_key(k));
            } else {
                assert(s.last() == s[s.len() - 1]);
            }
            assert(entries_map(s).contains_key(k));
        }
        if entries_map(s).contains_key(k) {
            if k == s.last().0@ {
                assert(s[s.len() - 1].0@ == k);
            } else {
                let i = choose|i: int| 0 <= i < dl.len() && dl[i].0@ == k;
                assert(dl[i] == s[i]);
                assert(s[i].0@ == k);
            }
        }
    }
}

pub proof fn lemma_entries_map_value<V: View>(s: Seq<(String, V)>, i: int)
    requires
        0 <= i < s.len(),
        forall|j: int| i < j < s.len() ==> (#[trigger] s[j]).0@ != s[i].0@,
    ensures
        entries_map(s).contains_key(s[i].0@),
        entries_map(s)[s[i].0@] == s[i].1@,
    decreases s.len(),
{
    let dl = s.drop_last();
    if i == s.len() - 1 {
        assert(s.last() == s[i]);
    } else {
        assert(s.last() == s[s.len() - 1]);
        assert(s.last().0@ != s[i].0@);
        assert(dl[i] == s[i]);
        assert forall|j: int| i < j < dl.len() implies (#[trigger] dl[j]).0@ != dl[i].0@ by {
            assert(dl[j] == s[j]);
        }
        lemma_entries_map_value(dl, i);
    }
}

pub proof fn lemma_entries_map_finite<V: View>(s: Seq<(String, V)>)
    ensures
        entries_map(s).dom().finite(),
    decreases s.len(),
{
    if s.len() > 0 {
        lemma_entries_map_finite(s.drop_last());
    }
}

pub proof fn lemma_entries_map_len<V: View>(s: Seq<(String, V)>)
    requires
        forall|i: int, j: int|
            #![trigger s[i], s[j]]
            0 <= i < j < s.len() ==> s[i].0@ != s[j].0@,
    ensures
        entries_map(s).dom().finite(),
        entries_map(s).len() == s.len(),
    decreases s.len(),
{
    lemma_entries_map_finite(s);
    if s.len() > 0 {
        let dl = s.drop_last();
        assert forall|i: int, j: int|
            #![trigger dl[i], dl[j]]
            0 <= i < j < dl.len() implies dl[i].0@ != dl[j].0@ by {
            assert(dl[i] == s[i]);
            assert(dl[j] == s[j]);
        }
        lemma_entries_map_len(dl);
        lemma_entries_map_contains(dl, s.last().0@);
        assert forall|i: int| 0 <= i < dl.len() implies (#[trigger] dl[i]).0@ != s.last().0@ by {
            assert(dl[i] == s[i]);
            assert(s.last() == s[s.len() - 1]);
        }
        assert(!entries_map(dl).contains_key(s.last().0@));
        lemma_entries_map_finite(dl);
        assert(entries_map(s).dom() =~= entries_map(dl).dom().insert(s.last().0@));
    }
}

/// An entry sequence whose names strictly increase.
pub open spec fn sorted_entries<V>(s: Seq<(String, V)>) -> bool {
    forall|i: int, j: int|
        #![trigger s[i], s[j]]
        0 <= i < j < s.len() ==> lex_lt(s[i].0@, s[j].0@)
}

proof fn lemma_chain<V>(s: Seq<(String, V)>, i: int, j: int)
    requires
        forall|p: int| 0 <= p < s.len() - 1 ==> lex_lt((#[trigger] s[p]).0@, s[p + 1].0@),
        0 <= i < j < s.len(),
    ensures
        lex_lt(s[i].0@, s[j].0@),
    decreases j - i,
{
    if j == i + 1 {
    } else {
        lemma_chain(s, i, j - 1);
        lemma_lex_lt_transitive(s[i].0@, s[j - 1].0@, s[j].0@);
    }
}

/// Check that consecutive names strictly increase, which orders the whole
/// sequence.
pub fn check_sorted<V: View>(v: &Vec<(String, V)>) -> (r: bool)
    ensures
        r == sorted_entries(v@),
{
    let n = v.len();
    if n == 0 {
        return true;
    }
    let mut i: usize = 0;
    while i < n - 1
        invariant
            n == v@.len(),
            1 <= n,
            i <= n,
            forall|p: int| 0 <= p < i ==> lex_lt((#[trigger] v@[p]).0@, v@[p + 1].0@),
        decreases n - i,
    {
        let a = &v[i];
        let b = &v[i + 1];
        if !str_lt(a.0.as_str(), b.0.as_str()) {
            proof {
                assert(!lex_lt(v@[i as int].0@, v@[i as int + 1].0@));
                if sorted_entries(v@) {
                    assert(lex_lt(v@[i as int].0@, v@[i as int + 1].0@));
                }
            }
            return false;
        }
        i += 1;
    }
    proof {
        assert forall|p: int, q: int|
            #![trigger v@[p], v@[q]]
            0 <= p < q < v@.len() implies lex_lt(v@[p].0@, v@[q].0@) by {
            lemma_chain(v@, p, q);
        }
    }
    true
}

impl<V: View> VarMap<V> {
    /// The entries as name/value views, in storage order.
    pub open spec fn kvs(&self) -> Seq<(Seq<char>, V::V)> {
        self.entries@.map_values(|e: (String, V)| (e.0@, e.1@))
    }

    /// Entries strictly increase by name: sorted, and so free of duplicates.
    pub open spec fn wf(&self) -> bool {
        sorted_entries(self.entries@)
    }

    pub proof fn lemma_keys_distinct(&self)
        requires
            self.wf(),
        ensures
            forall|i: int, j: int|
                #![trigger self.entries@[i], self.entries@[j]]
                0 <= i < self.entries@.len() && 0 <= j < self.entries@.len() && i != j
                    ==> self.entries@[i].0@ != self.entries@[j].0@,
    {
        let s = self.entries@;
        assert forall|i: int, j: int|
            #![trigger s[i], s[j]]
            0 <= i < s.len() && 0 <= j < s.len() && i != j implies s[i].0@ != s[j].0@ by {
            if s[i].0@ == s[j].0@ {
                if i < j {
                    lemma_lex_lt_irreflexive(s[i].0@);
                } else {
                    lemma_lex_lt_irreflexive(s[j].0@);
                }
            }
        }
    }

    /// The number of variables in the map.
    pub proof fn lemma_len(&self)
        requires
            self.wf(),
        ensures
            self@.dom().finite(),
            self@.len() == self.entries@.len(),
    {
        self.lemma_keys_distinct();
        lemma_entries_map_len(self.entries@);
    }

    pub fn new() -> (r: Self)
        ensures
            r.wf(),
            r@ == Map::<Seq<char>, V::V>::empty(),
            r.entries@.len() == 0,
    {
        VarMap { entries: Vec::new() }
    }

    /// Wrap an entry vector already in strictly increasing name order.
    pub fn from_sorted(entries: Vec<(String, V)>) -> (r: Self)
        requires
            sorted_entries(entries@),
        ensures
            r.wf(),
            r.entries@ == entries@,
    {
        VarMap { entries }
    }

    pub fn len(&self) -> (n: usize)
        requires
            self.wf(),
        ensures
            n == self@.len(),
            n == self.entries@.len(),
    {
        proof {
            self.lemma_len();
        }
        self.entries.len()
    }

    pub fn is_empty(&self) -> (r: bool)
        requires
            self.wf(),
        ensures
            r == (self@ == Map::<Seq<char>, V::V>::empty()),
    {
        proof {
            self.lemma_len();
            if self@.len() == 0 {
                assert(self@ =~= Map::<Seq<char>, V::V>::empty());
            }
        }
        self.entries.len() == 0
    }

    pub fn contains_key(&self, key: &str) -> (r: bool)
        ensures
            r == self@.contains_key(key@),
    {
        proof {
            lemma_entries_map_contains(self.entries@, key@);
        }
        let n = self.entries.len();
        let mut i: usize = 0;
        while i < n
            invariant
                n == self.entries@.len(),
                i <= n,
                forall|j: int| 0 <= j < i ==> (#[trigger] self.entries@[j]).0@ != key@,
            decreases n - i,
        {
            if str_eq(self.entries[i].0.as_str(), key) {
                proof {
                    assert(self.entries@[i as int].0@ == key@);
                    lemma_entries_map_contains(self.entries@, key@);
                }
                return true;
            }
            i += 1;
        }
        false
    }

    pub fn get(&self, key: &str) -> (r: Option<&V>)
        requires
            self.wf(),
        ensures
            match r {
                Some(v) => self@.contains_key(key@) && v@ == self@[key@],
                None => !self@.contains_key(key@),
            },
    {
        proof {
            lemma_entries_map_contains(self.entries@, key@);
        }
        let n = self.entries.len();
        let mut i: usize = 0;
        while i < n
            invariant
                n == self.entries@.len(),
                i <= n,
                self.wf(),
                forall|j: int| 0 <= j < i ==> (#[trigger] self.entries@[j]).0@ != key@,
            decreases n - i,
        {
            let e = &self.entries[i];
            if str_eq(e.0.as_str(), key) {
                proof {
                    self.lemma_keys_distinct();
                    lemma_entries_map_value(self.entries@, i as int);
                }
                return Some(&e.1);
            }
            i += 1;
        }
        None
    }

    /// Insert or replace the value stored for `key`.
    pub fn insert(&mut self, key: String, value: V)
        requires
            old(self).wf(),
        ensures
            final(self).wf(),
            final(self)@ == old(self)@.insert(key@, value@),
    {
        let n = self.entries.len();
        let mut i: usize = 0;
        while i < n && str_lt(self.entries[i].0.as_str(), key.as_str())
            invariant
                n == self.entries@.len(),
                i <= n,
                self.wf(),
                self.entries@ == old(self).entries@,
                forall|j: int| 0 <= j < i ==> lex_lt((#[trigger] self.entries@[j]).0@, key@),
            decreases n - i,
        {
            i += 1;
        }
        let ghost s0 = self.entries@;
        proof {
            self.lemma_keys_distinct();
            // Every later key is at least the key at position i, which is
            // not below the new key.
            assert forall|j: int| i <= j < s0.len() implies !lex_lt(
                (#[trigger] s0[j]).0@,
                key@,
            ) by {
                if i < j {
                    if lex_lt(s0[j].0@, key@) {
                        lemma_lex_lt_transitive(s0[i as int].0@, s0[j].0@, key@);
                        assert(lex_lt(s0[i as int].0@, s0[j].0@));
                    }
                }
            }
        }
        if i < n && str_eq(self.entries[i].0.as_str(), key.as_str()) {
            self.entries.remove(i);
            self.entries.insert(i, (key, value));
            proof {
                assert(self.entries@ =~= s0.update(i as int, (key, value)));
                lemma_entries_map_update(s0, i as int, (key, value));
            }
        } else {
            proof {
                assert forall|j: int| 0 <= j < s0.len() implies (#[trigger] s0[j]).0@ != key@ by {
                    if s0[j].0@ == key@ {
                        if j < i {
                            lemma_lex_lt_irreflexive(key@);
                        } else {
                            lemma_lex_lt_connected(s0[j].0@, key@);
                        }
                    }
                }
            }
            self.entries.insert(i, (key, value));
            proof {
                let s1 = self.entries@;
                assert forall|p: int, q: int|
                    #![trigger s1[p], s1[q]]
                    0 <= p < q < s1.len() implies lex_lt(s1[p].0@, s1[q].0@) by {
                    if q < i {
                        assert(s1[p] == s0[p] && s1[q] == s0[q]);
                    } else if p < i && q == i {
                        assert(s1[p] == s0[p]);
                    } else if p < i && q > i {
                        assert(s1[p] == s0[p] && s1[q] == s0[q - 1]);
                    } else if p == i && q > i {
                        assert(s1[q] == s0[q - 1]);
                        assert(!lex_lt(s0[q - 1].0@, key@));
                        assert(s0[q - 1].0@ != key@);
                        lemma_lex_lt_connected(key@, s0[q - 1].0@);
                    } else {
                        assert(s1[p] == s0[p - 1] && s1[q] == s0[q - 1]);
                    }
                }
                lemma_entries_map_insert_at(s0, i as int, (key, value));
            }
        }
    }

    /// Drop every entry.
    pub fn clear(&mut self)
        ensures
            final(self).wf(),
            final(self)@ == Map::<Seq<char>, V::V>::empty(),
            final(self).entries@.len() == 0,
    {
        self.entries.clear();
    }
}

/// Replacing the entry at `i` by one with the same name updates the map.
pub proof fn lemma_entries_map_update<V: View>(s: Seq<(String, V)>, i: int, e: (String, V))
    requires
        0 <= i < s.len(),
        s[i].0@ == e.0@,
        forall|p: int, q: int|
            #![trigger s[p], s[q]]
            0 <= p < s.len() && 0 <= q < s.len() && p != q ==> s[p].0@ != s[q].0@,
    ensures
        entries_map(s.update(i, e)) == entries_map(s).insert(e.0@, e.1@),
    decreases s.len(),
{
    let t = s.update(i, e);
    if i == s.len() - 1 {
        assert(t.drop_last() =~= s.drop_last());
        assert(t.last() == e);
        assert(entries_map(t) == entries_map(s.drop_last()).insert(e.0@, e.1@));
        assert(entries_map(s) == entries_map(s.drop_last()).insert(s.last().0@, s.last().1@));
        assert(s.last() == s[i]);
        assert(entries_map(s).insert(e.0@, e.1@) =~= entries_map(s.drop_last()).insert(
            e.0@,
            e.1@,
        ));
    } else {
        let dl = s.drop_last();
        assert(t.drop_last() =~= dl.update(i, e));
        assert(t.last() == s.last());
        assert(dl[i] == s[i]);
        assert forall|p: int, q: int|
            #![trigger dl[p], dl[q]]
            0 <= p < dl.len() && 0 <= q < dl.len() && p != q implies dl[p].0@ != dl[q].0@ by {
            assert(dl[p] == s[p] && dl[q] == s[q]);
        }
        lemma_entries_map_update(dl, i, e);
        assert(s.last() == s[s.len() - 1]);
        assert(s.last().0@ != e.0@);
        assert(entries_map(t) == entries_map(dl).insert(e.0@, e.1@).insert(
            s.last().0@,
            s.last().1@,
        ));
        assert(entries_map(dl).insert(e.0@, e.1@).insert(s.last().0@, s.last().1@)
            =~= entries_map(dl).insert(s.last().0@, s.last().1@).insert(e.0@, e.1@));
    }
}

/// Inserting an entry whose name is absent inserts into the map.
pub proof fn lemma_entries_map_insert_at<V: View>(s: Seq<(String, V)>, i: int, e: (String, V))
    requires
        0 <= i <= s.len(),
        forall|j: int| 0 <= j < s.len() ==> (#[trigger] s[j]).0@ != e.0@,
    ensures
        entries_map(s.insert(i, e)) == entries_map(s).insert(e.0@, e.1@),
    decreases s.len(),
{
    let t = s.insert(i, e);
    if i == s.len() {
        assert(t.drop_last() =~= s);
        assert(t.last() == e);
    } else {
        let dl = s.drop_last();
        assert(t.drop_last() =~= dl.insert(i, e));
        assert(t.last() == s.last());
        assert forall|j: int| 0 <= j < dl.len() implies (#[trigger] dl[j]).0@ != e.0@ by {
            assert(dl[j] == s[j]);
        }
        lemma_entries_map_insert_at(dl, i, e);
        assert(s.last() == s[s.len() - 1]);
        assert(s.last().0@ != e.0@);
        assert(entries_map(t) == entries_map(dl).insert(e.0@, e.1@).insert(
            s.last().0@,
            s.last().1@,
        ));
        assert(entries_map(dl).insert(e.0@, e.1@).insert(s.last().0@, s.last().1@)
            =~= entries_map(dl).insert(s.last().0@, s.last().1@).insert(e.0@, e.1@));
    }
}

} // verus!
