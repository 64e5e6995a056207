//! An insertion-ordered mapping from strings to lists of strings.
//!
//! The association files and the registry indexes all need a mapping whose
//! keys stay unique while the lists under them keep their order. The mapping
//! is held as a vector of entries with pairwise-distinct keys; its contracts
//! speak of the derived `Map` from key to list.

use vstd::prelude::*;

use crate::strutil::str_eq;

verus! {

/// The entry sequence a [`ListMap`] denotes.
pub type EntrySeq = Seq<(Seq<char>, Seq<Seq<char>>)>;

/// Index of the first entry with key `k`, or `m.len()` if there is none.
pub open spec fn key_index(m: EntrySeq, k: Seq<char>) -> int
    decreases m.len(),
{
    if m.len() == 0 {
        0
    } else if m[0].0 == k {
        0
    } else {
        1 + key_index(m.drop_first(), k)
    }
}

/// Whether some entry has key `k`.
pub open spec fn has_key(m: EntrySeq, k: Seq<char>) -> bool {
    key_index(m, k) < m.len()
}

/// The list under key `k`; meaningful only when [`has_key`].
pub open spec fn list_of(m: EntrySeq, k: Seq<char>) -> Seq<Seq<char>> {
    m[key_index(m, k)].1
}

/// No two entries share a key.
pub open spec fn distinct_keys(m: EntrySeq) -> bool {
    forall|i: int, j: int| 0 <= i < j < m.len() ==> (#[trigger] m[i].0) != (#[trigger] m[j].0)
}

/// The mapping the entries denote.
pub open spec fn as_map(m: EntrySeq) -> Map<Seq<char>, Seq<Seq<char>>> {
    Map::new(|k: Seq<char>| has_key(m, k), |k: Seq<char>| list_of(m, k))
}

/// [`key_index`] is the first position holding `k`.
pub proof fn lemma_key_index(m: EntrySeq, k: Seq<char>)
    ensures
        0 <= key_index(m, k) <= m.len(),
        forall|j: int| 0 <= j < key_index(m, k) ==> (#[trigger] m[j].0) != k,
        key_index(m, k) < m.len() ==> m[key_index(m, k)].0 == k,
    decreases m.len(),
{
    if m.len() > 0 && m[0].0 != k {
        lemma_key_index(m.drop_first(), k);
        assert(forall|j: int| 0 < j < m.len() ==> (#[trigger] m[j].0) == m.drop_first()[j - 1].0);
    }
}

/// A position that is the first to hold `k` is [`key_index`].
pub proof fn lemma_key_index_is(m: EntrySeq, k: Seq<char>, i: int)
    requires
        0 <= i <= m.len(),
        forall|j: int| 0 <= j < i ==> (#[trigger] m[j].0) != k,
        i < m.len() ==> m[i].0 == k,
    ensures
        key_index(m, k) == i,
    decreases m.len(),
{
    if m.len() > 0 && m[0].0 != k {
        assert(forall|j: int|
            0 <= j < m.drop_first().len() ==> (#[trigger] m.drop_first()[j]) == m[j + 1]);
        lemma_key_index_is(m.drop_first(), k, i - 1);
    }
}

/// Two entry sequences with the same keys in the same positions have the
/// same [`key_index`] everywhere.
pub proof fn lemma_key_index_same_keys(m1: EntrySeq, m2: EntrySeq, k: Seq<char>)
    requires
        m1.len() == m2.len(),
        forall|i: int| 0 <= i < m1.len() ==> m1[i].0 == (#[trigger] m2[i].0),
    ensures
        key_index(m1, k) == key_index(m2, k),
{
    lemma_key_index(m1, k);
    assert forall|j: int| 0 <= j < key_index(m1, k) implies (#[trigger] m2[j].0) != k by {
        assert(m1[j].0 != k);
    }
    lemma_key_index_is(m2, k, key_index(m1, k));
}

/// Updating the list under an existing key updates the denoted mapping.
pub proof fn lemma_as_map_update(m: EntrySeq, i: int, v: Seq<Seq<char>>)
    requires
        distinct_keys(m),
        0 <= i < m.len(),
    ensures
        distinct_keys(m.update(i, (m[i].0, v))),
        as_map(m.update(i, (m[i].0, v))) == as_map(m).insert(m[i].0, v),
{
    let k = m[i].0;
    let m2 = m.update(i, (k, v));
    assert forall|k2: Seq<char>| true implies key_index(m2, k2) == key_index(m, k2) by {
        lemma_key_index_same_keys(m, m2, k2);
    }
    lemma_key_index(m, k);
    lemma_key_index_is(m, k, i);
    assert forall|k2: Seq<char>|
        as_map(m2).contains_key(k2) <==> as_map(m).insert(k, v).contains_key(k2) by {}
    assert(as_map(m2) =~= as_map(m).insert(k, v)) by {
        assert forall|k2: Seq<char>| as_map(m2).contains_key(k2) implies as_map(m2)[k2] == as_map(
            m,
        ).insert(k, v)[k2] by {
            if k2 == k {
                assert(m2[i].1 == v);
            } else {
                lemma_key_index(m2, k2);
                assert(key_index(m2, k2) != i);
            }
        }
    }
}

/// Appending an absent key inserts it into the denoted mapping.
pub proof fn lemma_as_map_push(m: EntrySeq, k: Seq<char>, v: Seq<Seq<char>>)
    requires
        distinct_keys(m),
        !has_key(m, k),
    ensures
        distinct_keys(m.push((k, v))),
        as_map(m.push((k, v))) == as_map(m).insert(k, v),
{
    let m2 = m.push((k, v));
    lemma_key_index(m, k);
    assert(distinct_keys(m2)) by {
        assert forall|i: int, j: int| 0 <= i < j < m2.len() implies (#[trigger] m2[i].0)
            != (#[trigger] m2[j].0) by {
            if j == m.len() {
                assert(m2[i].0 == m[i].0);
                assert(m[i].0 != k);
            }
        }
    }
    assert(as_map(m2) =~= as_map(m).insert(k, v)) by {
        assert forall|k2: Seq<char>| true implies (has_key(m2, k2) == (k2 == k || has_key(m, k2)))
            && (has_key(m2, k2) ==> list_of(m2, k2) == if k2 == k {
            v
        } else {
            list_of(m, k2)
        }) by {
            lemma_key_index(m, k2);
            if k2 == k {
                lemma_key_index_is(m2, k2, m.len() as int);
            } else {
                if has_key(m, k2) {
                    lemma_key_index_is(m2, k2, key_index(m, k2));
                } else {
                    lemma_key_index_is(m2, k2, m2.len() as int);
                }
            }
        }
    }
}

/// Removing the entry of a key removes it from the denoted mapping.
pub proof fn lemma_as_map_remove(m: EntrySeq, i: int)
    requires
        distinct_keys(m),
        0 <= i < m.len(),
    ensures
        distinct_keys(m.remove(i)),
        as_map(m.remove(i)) == as_map(m).remove(m[i].0),
{
    let k = m[i].0;
    let m2 = m.remove(i);
    assert(distinct_keys(m2)) by {
        assert forall|a: int, b: int| 0 <= a < b < m2.len() implies (#[trigger] m2[a].0)
            != (#[trigger] m2[b].0) by {
            let a0 = if a < i {
                a
            } else {
                a + 1
            };
            let b0 = if b < i {
                b
            } else {
                b + 1
            };
            assert(m2[a] == m[a0]);
            assert(m2[b] == m[b0]);
        }
    }
    assert(as_map(m2) =~= as_map(m).remove(k)) by {
        lemma_key_index(m, k);
        lemma_key_index_is(m, k, i);
        assert forall|k2: Seq<char>| true implies (has_key(m2, k2) == (k2 != k && has_key(m, k2)))
            && (has_key(m2, k2) ==> list_of(m2, k2) == list_of(m, k2)) by {
            lemma_key_index(m, k2);
            if k2 == k {
                assert forall|j: int| 0 <= j < m2.len() implies (#[trigger] m2[j].0) != k2 by {
                    if j < i {
                        assert(m2[j] == m[j]);
                    } else {
                        assert(m2[j] == m[j + 1]);
                    }
                }
                lemma_key_index_is(m2, k2, m2.len() as int);
            } else {
                let idx = key_index(m, k2);
                if has_key(m, k2) {
                    let idx2 = if idx < i {
                        idx
                    } else {
                        idx - 1
                    };
                    assert(m2[idx2] == m[idx]);
                    assert forall|j: int| 0 <= j < idx2 implies (#[trigger] m2[j].0) != k2 by {
                        if j < i {
                            assert(m2[j] == m[j]);
                        } else {
                            assert(m2[j] == m[j + 1]);
                        }
                    }
                    lemma_key_index_is(m2, k2, idx2);
                } else {
                    assert forall|j: int| 0 <= j < m2.len() implies (#[trigger] m2[j].0) != k2 by {
                        if j < i {
                            assert(m2[j] == m[j]);
                        } else {
                            assert(m2[j] == m[j + 1]);
                        }
                    }
                    lemma_key_index_is(m2, k2, m2.len() as int);
                }
            }
        }
    }
}

/// Walking distinct entries front to back inserts each key exactly once.
pub proof fn lemma_as_map_take_step(m: EntrySeq, i: int)
    requires
        distinct_keys(m),
        0 <= i < m.len(),
    ensures
        distinct_keys(m.subrange(0, i)),
        !has_key(m.subrange(0, i), m[i].0),
        as_map(m.subrange(0, i + 1)) == as_map(m.subrange(0, i)).insert(m[i].0, m[i].1),
{
    let p = m.subrange(0, i);
    assert(distinct_keys(p)) by {
        assert(forall|a: int, b: int|
            0 <= a < b < p.len() ==> p[a] == m[a] && p[b] == m[b]);
    }
    assert forall|j: int| 0 <= j < p.len() implies (#[trigger] p[j].0) != m[i].0 by {
        assert(p[j] == m[j]);
    }
    lemma_key_index_is(p, m[i].0, i);
    lemma_as_map_push(p, m[i].0, m[i].1);
    assert(m.subrange(0, i + 1) =~= p.push((m[i].0, m[i].1)));
}


/// Whether `entry` is one of the entries of `m`.
pub open spec fn entry_in(entry: (Seq<char>, Seq<Seq<char>>), m: EntrySeq) -> bool {
    exists|j: int| 0 <= j < m.len() && m[j] == entry
}

/// Inserting an absent key at any position inserts it into the denoted
/// mapping.
pub proof fn lemma_as_map_insert_any(m: EntrySeq, p: int, k: Seq<char>, v: Seq<Seq<char>>)
    requires
        distinct_keys(m),
        !has_key(m, k),
        0 <= p <= m.len(),
    ensures
        distinct_keys(m.insert(p, (k, v))),
        as_map(m.insert(p, (k, v))) == as_map(m).insert(k, v),
{
    let m2 = m.insert(p, (k, v));
    m.insert_ensures(p, (k, v));
    lemma_key_index(m, k);
    assert(distinct_keys(m2)) by {
        assert forall|a: int, b: int| 0 <= a < b < m2.len() implies (#[trigger] m2[a].0)
            != (#[trigger] m2[b].0) by {
            let a0 = if a < p {
                a
            } else {
                a - 1
            };
            let b0 = if b < p {
                b
            } else {
                b - 1
            };
            if a == p {
                assert(m2[b] == m[b0]);
                assert(m[b0].0 != k);
            } else if b == p {
                assert(m2[a] == m[a0]);
                assert(m[a0].0 != k);
            } else {
                assert(m2[a] == m[a0]);
                assert(m2[b] == m[b0]);
            }
        }
    }
    assert(as_map(m2) =~= as_map(m).insert(k, v)) by {
        assert forall|k2: Seq<char>| true implies (has_key(m2, k2) == (k2 == k || has_key(m, k2)))
            && (has_key(m2, k2) ==> list_of(m2, k2) == if k2 == k {
            v
        } else {
            list_of(m, k2)
        }) by {
            lemma_key_index(m, k2);
            if k2 == k {
                assert forall|j: int| 0 <= j < p implies (#[trigger] m2[j].0) != k2 by {
                    assert(m2[j] == m[j]);
                }
                assert(m2[p].0 == k2);
                lemma_key_index_is(m2, k2, p);
            } else {
                let idx = key_index(m, k2);
                if has_key(m, k2) {
                    let idx2 = if idx < p {
                        idx
                    } else {
                        idx + 1
                    };
                    assert(m2[idx2] == m[idx]);
                    assert forall|j: int| 0 <= j < idx2 implies (#[trigger] m2[j].0) != k2 by {
                        if j < p {
                            assert(m2[j] == m[j]);
                        } else if j == p {
                        } else {
                            assert(m2[j] == m[j - 1]);
                        }
                    }
                    lemma_key_index_is(m2, k2, idx2);
                } else {
                    assert forall|j: int| 0 <= j < m2.len() implies (#[trigger] m2[j].0) != k2 by {
                        if j < p {
                            assert(m2[j] == m[j]);
                        } else if j == p {
                        } else {
                            assert(m2[j] == m[j - 1]);
                        }
                    }
                    lemma_key_index_is(m2, k2, m2.len() as int);
                }
            }
        }
    }
}

/// Insertion-ordered string-to-list mapping with unique keys.
pub struct ListMap {
    entries: Vec<(String, Vec<String>)>,
}

impl View for ListMap {
    type V = EntrySeq;

    closed spec fn view(&self) -> EntrySeq {
        self.entries.deep_view()
    }
}

impl ListMap {
    /// Keys are pairwise distinct.
    pub open spec fn wf(&self) -> bool {
        distinct_keys(self@)
    }

    /// The mapping from key to list.
    pub open spec fn map_view(&self) -> Map<Seq<char>, Seq<Seq<char>>> {
        as_map(self@)
    }

    /// An empty mapping.
    pub fn new() -> (r: ListMap)
        ensures
            r.wf(),
            r@ == Seq::<(Seq<char>, Seq<Seq<char>>)>::empty(),
            r.map_view() == Map::<Seq<char>, Seq<Seq<char>>>::empty(),
    {
        let r = ListMap { entries: Vec::new() };
        proof {
            assert(r@ =~= Seq::<(Seq<char>, Seq<Seq<char>>)>::empty());
            assert(r.map_view() =~= Map::<Seq<char>, Seq<Seq<char>>>::empty());
        }
        r
    }

    /// Number of entries.
    pub fn len(&self) -> (n: usize)
        ensures
            n == self@.len(),
    {
        self.entries.len()
    }

    /// Whether no key is present.
    pub fn is_empty(&self) -> (r: bool)
        ensures
            r == (self@.len() == 0),
    {
        self.entries.len() == 0
    }

    /// The key of the entry at `i`.
    pub fn key_at(&self, i: usize) -> (k: &String)
        requires
            i < self@.len(),
        ensures
            k@ == self@[i as int].0,
    {
        proof {
            assert(self@[i as int].0 == self.entries@[i as int].0@);
        }
        &self.entries[i].0
    }

    /// The list of the entry at `i`.
    pub fn list_at(&self, i: usize) -> (v: &Vec<String>)
        requires
            i < self@.len(),
        ensures
            v.deep_view() == self@[i as int].1,
    {
        proof {
            assert(self@[i as int].1 == self.entries@[i as int].1.deep_view());
        }
        &self.entries[i].1
    }

    /// Position of `k` among the entries, if present.
    fn find(&self, k: &str) -> (r: Option<usize>)
        ensures
            match r {
                Some(i) => i < self@.len() && key_index(self@, k@) == i,
                None => key_index(self@, k@) == self@.len(),
            },
    {
        let n = self.entries.len();
        let mut i: usize = 0;
        while i < n
            invariant
                i <= n,
                n == self@.len(),
                forall|j: int| 0 <= j < i ==> (#[trigger] self@[j].0) != k@,
            decreases n - i,
        {
            proof {
                assert(self@[i as int].0 == self.entries@[i as int].0@);
            }
            if str_eq(self.entries[i].0.as_str(), k) {
                proof {
                    lemma_key_index_is(self@, k@, i as int);
                }
                return Some(i);
            }
            i = i + 1;
        }
        proof {
            lemma_key_index_is(self@, k@, n as int);
        }
        None
    }

    /// The list under `k`, if present.
    pub fn get(&self, k: &str) -> (r: Option<&Vec<String>>)
        ensures
            match r {
                Some(v) => has_key(self@, k@) && v.deep_view() == list_of(self@, k@),
                None => !has_key(self@, k@),
            },
    {
        match self.find(k) {
            Some(i) => {
                proof {
                    assert(self@[i as int].1 == self.entries@[i as int].1.deep_view());
                }
                Some(&self.entries[i].1)
            },
            None => None,
        }
    }

    /// Whether `k` is present.
    pub fn contains_key(&self, k: &str) -> (r: bool)
        ensures
            r == has_key(self@, k@),
    {
        self.find(k).is_some()
    }

    /// Binds `k` to `v`, replacing any previous list under `k`.
    pub fn insert(&mut self, k: String, v: Vec<String>)
        requires
            old(self).wf(),
        ensures
            final(self).wf(),
            final(self).map_view() == old(self).map_view().insert(k@, v.deep_view()),
            final(self)@.len() <= old(self)@.len() + 1,
    {
        let ghost kview = k@;
        let ghost vview = v.deep_view();
        match self.find(k.as_str()) {
            Some(i) => {
                proof {
                    lemma_key_index(self@, kview);
                    assert(self@[i as int].0 == kview);
                }
                let ghost before = self@;
                self.entries.remove(i);
                self.entries.insert(i, (k, v));
                proof {
                    assert(self@ =~~= before.update(i as int, (kview, vview)));
                    lemma_as_map_update(before, i as int, vview);
                }
            },
            None => {
                let ghost before = self@;
                self.entries.push((k, v));
                proof {
                    assert(self@ =~~= before.push((kview, vview)));
                    lemma_as_map_push(before, kview, vview);
                }
            },
        }
    }

    /// Removes the binding of `k` if present.
    pub fn remove(&mut self, k: &str)
        requires
            old(self).wf(),
        ensures
            final(self).wf(),
            final(self).map_view() == old(self).map_view().remove(k@),
    {
        match self.find(k) {
            Some(i) => {
                proof {
                    lemma_key_index(self@, k@);
                    assert(self@[i as int].0 == k@);
                }
                let ghost before = self@;
                self.entries.remove(i);
                proof {
                    assert(self@ =~~= before.remove(i as int));
                    lemma_as_map_remove(before, i as int);
                }
            },
            None => {
                proof {
                    lemma_key_index(self@, k@);
                    assert(!has_key(self@, k@));
                    assert(self.map_view() =~= self.map_view().remove(k@));
                }
            },
        }
    }

    /// The entries as a vector sorted by key, lowest first: the same
    /// mapping, each entry one of this mapping's entries.
    pub fn sorted_entries(&self) -> (r: Vec<(String, Vec<String>)>)
        requires
            self.wf(),
        ensures
            distinct_keys(r.deep_view()),
            as_map(r.deep_view()) == self.map_view(),
            forall|i: int|
                0 <= i < r.deep_view().len() ==> entry_in(#[trigger] r.deep_view()[i], self@),
            forall|i: int, j: int|
                0 <= i < j < r.deep_view().len() ==> crate::strutil::lex_le(
                    (#[trigger] r.deep_view()[i]).0,
                    (#[trigger] r.deep_view()[j]).0,
                ),
    {
        let ghost sv = self@;
        let mut out: Vec<(String, Vec<String>)> = Vec::new();
        let n = self.entries.len();
        let mut i: usize = 0;
        proof {
            assert(out.deep_view() =~= Seq::<(Seq<char>, Seq<Seq<char>>)>::empty());
            assert(sv.subrange(0, 0) =~= Seq::<(Seq<char>, Seq<Seq<char>>)>::empty());
            assert(as_map(out.deep_view()) =~= as_map(sv.subrange(0, 0)));
        }
        while i < n
            invariant
                i <= n,
                n == self.entries@.len(),
                sv == self@,
                sv.len() == n,
                distinct_keys(sv),
                distinct_keys(out.deep_view()),
                as_map(out.deep_view()) == as_map(sv.subrange(0, i as int)),
                forall|a: int|
                    0 <= a < out.deep_view().len() ==> entry_in(#[trigger] out.deep_view()[a], sv),
                forall|a: int, b: int|
                    0 <= a < b < out.deep_view().len() ==> crate::strutil::lex_le(
                        (#[trigger] out.deep_view()[a]).0,
                        (#[trigger] out.deep_view()[b]).0,
                    ),
            decreases n - i,
        {
            proof {
                assert(self@[i as int].0 == self.entries@[i as int].0@);
                assert(self@[i as int].1 == self.entries@[i as int].1.deep_view());
            }
            let key = self.entries[i].0.clone();
            let val = crate::strutil::clone_strings(&self.entries[i].1);
            let ghost e = sv[i as int];
            let mut p: usize = 0;
            while p < out.len() && crate::strutil::str_le(out[p].0.as_str(), key.as_str())
                invariant
                    p <= out@.len(),
                    out.deep_view().len() == out@.len(),
                    key@ == e.0,
                    forall|q: int|
                        0 <= q < out.deep_view().len() ==> (#[trigger] out.deep_view()[q]).0
                            == out@[q].0@,
                    forall|q: int|
                        0 <= q < p ==> crate::strutil::lex_le(
                            (#[trigger] out.deep_view()[q]).0,
                            e.0,
                        ),
                decreases out@.len() - p,
            {
                p = p + 1;
            }
            proof {
                if p < out@.len() {
                    crate::strutil::lemma_lex_total(out.deep_view()[p as int].0, e.0);
                    assert(crate::strutil::lex_le(e.0, out.deep_view()[p as int].0));
                }
            }
            let ghost old_dv = out.deep_view();
            proof {
                lemma_as_map_take_step(sv, i as int);
                assert(!has_key(old_dv, e.0)) by {
                    lemma_key_index(old_dv, e.0);
                    if has_key(old_dv, e.0) {
                        assert(as_map(old_dv).contains_key(e.0));
                        assert(as_map(sv.subrange(0, i as int)).contains_key(e.0));
                    }
                }
                lemma_as_map_insert_any(old_dv, p as int, e.0, e.1);
            }
            out.insert(p, (key, val));
            proof {
                assert(out.deep_view() =~~= old_dv.insert(p as int, (e.0, e.1)));
                old_dv.insert_ensures(p as int, (e.0, e.1));
                assert(as_map(out.deep_view()) == as_map(sv.subrange(0, i + 1)));
                assert forall|a: int|
                    0 <= a < out.deep_view().len() implies entry_in(
                    #[trigger] out.deep_view()[a],
                    sv,
                ) by {
                    if a == p {
                        assert(out.deep_view()[a] == sv[i as int]);
                    } else {
                        let a0 = if a < p {
                            a
                        } else {
                            a - 1
                        };
                        assert(out.deep_view()[a] == old_dv[a0]);
                        assert(entry_in(old_dv[a0], sv));
                        let j = choose|j: int| 0 <= j < sv.len() && sv[j] == old_dv[a0];
                    }
                }
                assert forall|a: int, b: int|
                    0 <= a < b < out.deep_view().len() implies crate::strutil::lex_le(
                    (#[trigger] out.deep_view()[a]).0,
                    (#[trigger] out.deep_view()[b]).0,
                ) by {
                    let a0 = if a < p {
                        a
                    } else {
                        a - 1
                    };
                    let b0 = if b < p {
                        b
                    } else {
                        b - 1
                    };
                    if a == p {
                        // everything after the insertion point is above the key
                        assert(out.deep_view()[b] == old_dv[b0]);
                        if b0 == p {
                            assert(crate::strutil::lex_le(e.0, old_dv[p as int].0));
                        } else {
                            crate::strutil::lemma_lex_trans(
                                e.0,
                                old_dv[p as int].0,
                                old_dv[b0].0,
                            );
                        }
                    } else if b == p {
                        assert(out.deep_view()[a] == old_dv[a0]);
                    } else {
                        assert(out.deep_view()[a] == old_dv[a0]);
                        assert(out.deep_view()[b] == old_dv[b0]);
                    }
                }
            }
            i = i + 1;
        }
        proof {
            assert(sv.subrange(0, n as int) =~= sv);
            assert(as_map(out.deep_view()) == as_map(sv));
            assert(as_map(sv) =~= self.map_view());
        }
        out
    }
}

} // verus!
