//! A map from strings to values that keeps its keys in ascending order,
//! the way a `BTreeMap<String, V>` does.
use vstd::prelude::*;

use crate::text::{lemma_lex_irrefl, lemma_lex_trans, lemma_lex_trichotomy, lex_lt, str_eq, str_lt};

verus! {

/// Keys strictly ascending in the order of `String`.
pub open spec fn sorted_keys<W>(ps: Seq<(Seq<char>, W)>) -> bool {
    forall|i: int, j: int| 0 <= i < j < ps.len() ==> lex_lt(#[trigger] ps[i].0, #[trigger] ps[j].0)
}

/// Whether some pair of `ps` has key `k`.
pub open spec fn has_key<W>(ps: Seq<(Seq<char>, W)>, k: Seq<char>) -> bool {
    exists|i: int| 0 <= i < ps.len() && #[trigger] ps[i].0 == k
}

/// The value paired with `k` in `ps` (meaningful when `has_key(ps, k)`).
pub open spec fn value_of<W>(ps: Seq<(Seq<char>, W)>, k: Seq<char>) -> W {
    ps[key_index(ps, k)].1
}

/// A position of key `k` in `ps` (meaningful when `has_key(ps, k)`).
pub open spec fn key_index<W>(ps: Seq<(Seq<char>, W)>, k: Seq<char>) -> int {
    choose|i: int| 0 <= i < ps.len() && #[trigger] ps[i].0 == k
}

/// The map that a sequence of pairs with distinct keys describes.
pub open spec fn pairs_map<W>(ps: Seq<(Seq<char>, W)>) -> Map<Seq<char>, W> {
    Map::new(|k: Seq<char>| has_key(ps, k), |k: Seq<char>| value_of(ps, k))
}

/// A string-keyed map whose entries are kept in ascending key order.
pub struct StrMap<V: View> {
    entries: Vec<(String, V)>,
}

impl<V: View> View for StrMap<V> {
    type V = Map<Seq<char>, V::V>;

    open spec fn view(&self) -> Map<Seq<char>, V::V> {
        pairs_map(self.pairs())
    }
}

impl<V: View> StrMap<V> {
    /// The entries in ascending key order, each as (key, value view).
    pub closed spec fn pairs(self) -> Seq<(Seq<char>, V::V)> {
        self.entries@.map_values(|e: (String, V)| (e.0@, e.1@))
    }

    /// The stored values in ascending key order.
    pub closed spec fn values_seq(self) -> Seq<V> {
        self.entries@.map_values(|e: (String, V)| e.1)
    }

    /// Well-formedness: the keys are strictly ascending.
    pub open spec fn wf(self) -> bool {
        sorted_keys(self.pairs())
    }

    /// The stored values agree with the value views in `pairs`.
    #[verifier::rlimit(50)]
    pub proof fn lemma_values(self)
        ensures
            self.values_seq().len() == self.pairs().len(),
            forall|i: int|
                0 <= i < self.pairs().len() ==> (#[trigger] self.values_seq()[i])@
                    == self.pairs()[i].1,
    {
    }

    /// An empty map.
    #[verifier::rlimit(50)]
    pub fn new() -> (m: Self)
        ensures
            m.wf(),
            m.pairs() == Seq::<(Seq<char>, V::V)>::empty(),
            m@ == Map::<Seq<char>, V::V>::empty(),
    {
        let m = StrMap { entries: Vec::new() };
        assert(m.pairs() =~= Seq::<(Seq<char>, V::V)>::empty());
        assert(m@ =~= Map::<Seq<char>, V::V>::empty());
        m
    }

    /// Number of entries.
    #[verifier::rlimit(50)]
    pub fn len(&self) -> (n: usize)
        requires
            self.wf(),
        ensures
            n == self.pairs().len(),
            n == self@.len(),
    {
        proof {
            lemma_pairs_map_len(self.pairs());
        }
        self.entries.len()
    }

    /// Whether the map has no entries.
    #[verifier::rlimit(50)]
    pub fn is_empty(&self) -> (b: bool)
        requires
            self.wf(),
        ensures
            b == (self.pairs().len() == 0),
            b == (self@.len() == 0),
    {
        self.len() == 0
    }

    /// Key of the `i`-th entry in key order.
    #[verifier::rlimit(50)]
    pub fn key_at(&self, i: usize) -> (k: &String)
        requires
            i < self.pairs().len(),
        ensures
            k@ == self.pairs()[i as int].0,
    {
        &self.entries[i].0
    }

    /// Value of the `i`-th entry in key order.
    #[verifier::rlimit(50)]
    pub fn value_at(&self, i: usize) -> (v: &V)
        requires
            i < self.pairs().len(),
        ensures
            v@ == self.pairs()[i as int].1,
            *v == self.values_seq()[i as int],
    {
        &self.entries[i].1
    }

    /// Position of the first entry whose key is not below `k`.
    #[verifier::rlimit(50)]
    fn lower_bound(&self, k: &str) -> (i: usize)
        ensures
            i <= self.pairs().len(),
            forall|j: int| 0 <= j < i ==> lex_lt(#[trigger] self.pairs()[j].0, k@),
            i < self.pairs().len() ==> !lex_lt(self.pairs()[i as int].0, k@),
    {
        let mut i: usize = 0;
        while i < self.entries.len() && str_lt(self.entries[i].0.as_str(), k)
            invariant
                i <= self.entries.len(),
                self.pairs().len() == self.entries.len(),
                forall|j: int| 0 <= j < i ==> lex_lt(#[trigger] self.pairs()[j].0, k@),
            decreases self.entries.len() - i,
        {
            i += 1;
        }
        i
    }

    /// Index of the entry with key `k`, if any.
    #[verifier::rlimit(50)]
    fn find(&self, k: &str) -> (r: Option<usize>)
        requires
            self.wf(),
        ensures
            match r {
                Some(i) => i < self.pairs().len() && self.pairs()[i as int].0 == k@,
                None => !has_key(self.pairs(), k@),
            },
    {
        let i = self.lower_bound(k);
        if i < self.entries.len() && str_eq(self.entries[i].0.as_str(), k) {
            Some(i)
        } else {
            proof {
                assert forall|j: int| 0 <= j < self.pairs().len() implies #[trigger] self.pairs()[j].0
                    != k@ by {
                    if j < i {
                        lemma_lex_irrefl(k@);
                    } else if j > i {
                        lemma_lex_trichotomy(self.pairs()[i as int].0, k@);
                        if self.pairs()[j].0 == k@ {
                            assert(lex_lt(self.pairs()[i as int].0, self.pairs()[j].0));
                        }
                    }
                }
            }
            None
        }
    }

    /// The value stored under `k`.
    #[verifier::rlimit(50)]
    pub fn get(&self, k: &str) -> (r: Option<&V>)
        requires
            self.wf(),
        ensures
            match r {
                Some(v) => self@.contains_key(k@) && self@[k@] == v@,
                None => !self@.contains_key(k@),
            },
    {
        match self.find(k) {
            Some(i) => {
                proof {
                    lemma_value_of_index(self.pairs(), i as int);
                }
                Some(&self.entries[i].1)
            },
            None => None,
        }
    }

    /// Whether `k` has an entry.
    #[verifier::rlimit(50)]
    pub fn contains_key(&self, k: &str) -> (b: bool)
        requires
            self.wf(),
        ensures
            b == self@.contains_key(k@),
    {
        self.find(k).is_some()
    }

    /// Stores `v` under `k`, replacing any earlier value.
    #[verifier::rlimit(50)]
    pub fn insert(&mut self, k: String, v: V)
        requires
            old(self).wf(),
        ensures
            final(self).wf(),
            final(self)@ == old(self)@.insert(k@, v@),
    {
        let ghost old_pairs = self.pairs();
        let i = self.lower_bound(k.as_str());
        if i < self.entries.len() && str_eq(self.entries[i].0.as_str(), k.as_str()) {
            let ghost kv = k@;
            let ghost vv = v@;
            let mut entries: Vec<(String, V)> = Vec::new();
            std::mem::swap(&mut entries, &mut self.entries);
            entries.set(i, (k, v));
            proof {
                let np = entries@.map_values(|e: (String, V)| (e.0@, e.1@));
                assert(np =~= old_pairs.update(i as int, (kv, vv)));
                lemma_sorted_update(old_pairs, i as int, vv);
            }
            self.entries = entries;
            proof {
                lemma_pairs_map_update(old_pairs, i as int, vv);
            }
        } else {
            let ghost kv = k@;
            let ghost vv = v@;
            let mut entries: Vec<(String, V)> = Vec::new();
            std::mem::swap(&mut entries, &mut self.entries);
            entries.insert(i, (k, v));
            proof {
                let np = entries@.map_values(|e: (String, V)| (e.0@, e.1@));
                assert(np =~= old_pairs.insert(i as int, (kv, vv)));
                if i < old_pairs.len() {
                    lemma_lex_trichotomy(old_pairs[i as int].0, kv);
                }
                lemma_sorted_insert(old_pairs, i as int, kv, vv);
            }
            self.entries = entries;
            proof {
                lemma_pairs_map_insert(old_pairs, i as int, kv, vv);
            }
        }
    }

    /// Removes the entry for `k`, if any.
    #[verifier::rlimit(50)]
    pub fn remove(&mut self, k: &str)
        requires
            old(self).wf(),
        ensures
            final(self).wf(),
            final(self)@ == old(self)@.remove(k@),
    {
        let ghost old_pairs = self.pairs();
        match self.find(k) {
            Some(i) => {
                let mut entries: Vec<(String, V)> = Vec::new();
            std::mem::swap(&mut entries, &mut self.entries);
                let _ = entries.remove(i);
                proof {
                    let np = entries@.map_values(|e: (String, V)| (e.0@, e.1@));
                    assert(np =~= old_pairs.remove(i as int));
                    lemma_sorted_remove(old_pairs, i as int);
                }
                self.entries = entries;
                proof {
                    lemma_pairs_map_remove(old_pairs, i as int);
                }
            },
            None => {
                proof {
                    assert(old(self)@.remove(k@) =~= old(self)@);
                }
            },
        }
    }
}

impl<V: View> StrMap<V> {
    /// The entries in ascending key order, giving up the map.
    #[verifier::rlimit(50)]
    pub fn into_entries(self) -> (r: Vec<(String, V)>)
        ensures
            r@.map_values(|e: (String, V)| (e.0@, e.1@)) == self.pairs(),
    {
        self.entries
    }

    /// Replaces the value stored at position `i` in key order, keeping the key.
    #[verifier::rlimit(50)]
    pub fn set_value_at(&mut self, i: usize, v: V)
        requires
            old(self).wf(),
            i < old(self).pairs().len(),
        ensures
            final(self).wf(),
            final(self).pairs() == old(self).pairs().update(
                i as int,
                (old(self).pairs()[i as int].0, v@),
            ),
    {
        let ghost old_pairs = self.pairs();
        let ghost vv = v@;
        let mut entries: Vec<(String, V)> = Vec::new();
        std::mem::swap(&mut entries, &mut self.entries);
        let k = entries[i].0.clone();
        entries.set(i, (k, v));
        proof {
            let np = entries@.map_values(|e: (String, V)| (e.0@, e.1@));
            assert(np =~= old_pairs.update(i as int, (old_pairs[i as int].0, vv)));
            lemma_sorted_update(old_pairs, i as int, vv);
        }
        self.entries = entries;
    }
}

impl<V: View + Clone> StrMap<V> {
    /// A copy of the map whose values are clones of the originals.
    #[verifier::rlimit(50)]
    pub fn clone_map(&self) -> (r: Self)
        requires
            self.wf(),
        ensures
            forall|i: int|
                0 <= i < self.values_seq().len() ==> cloned::<V>(
                    self.values_seq()[i],
                    #[trigger] r.values_seq()[i],
                ),
            r.values_seq().len() == self.values_seq().len(),
            forall|i: int| 0 <= i < r.pairs().len() ==> #[trigger] r.pairs()[i].0 == self.pairs()[i].0,
            r.pairs().len() == self.pairs().len(),
            r.wf(),
    {
        let mut out: Vec<(String, V)> = Vec::new();
        let mut i: usize = 0;
        while i < self.entries.len()
            invariant
                i <= self.entries.len(),
                out@.len() == i,
                forall|j: int| 0 <= j < i ==> #[trigger] out@[j].0@ == self.entries@[j].0@,
                forall|j: int| 0 <= j < i ==> cloned::<V>(self.entries@[j].1, #[trigger] out@[j].1),
                sorted_keys(self.pairs()),
            decreases self.entries.len() - i,
        {
            let k = self.entries[i].0.clone();
            let v = self.entries[i].1.clone();
            out.push((k, v));
            i += 1;
        }
        let r = StrMap { entries: out };
        proof {
            assert forall|a: int, b: int| 0 <= a < b < r.pairs().len() implies lex_lt(
                #[trigger] r.pairs()[a].0,
                #[trigger] r.pairs()[b].0,
            ) by {
                assert(r.pairs()[a].0 == self.pairs()[a].0);
                assert(r.pairs()[b].0 == self.pairs()[b].0);
            }
        }
        r
    }
}

// ---------------------------------------------------------------------------
// Lemmas about sorted pair sequences
// ---------------------------------------------------------------------------

#[verifier::rlimit(50)]
pub proof fn lemma_sorted_unique<W>(ps: Seq<(Seq<char>, W)>, i: int, j: int)
    requires
        sorted_keys(ps),
        0 <= i < ps.len(),
        0 <= j < ps.len(),
        ps[i].0 == ps[j].0,
    ensures
        i == j,
{
    if i < j {
        lemma_lex_irrefl(ps[i].0);
    } else if j < i {
        lemma_lex_irrefl(ps[i].0);
    }
}

#[verifier::rlimit(50)]
pub proof fn lemma_value_of_index<W>(ps: Seq<(Seq<char>, W)>, i: int)
    requires
        sorted_keys(ps),
        0 <= i < ps.len(),
    ensures
        has_key(ps, ps[i].0),
        value_of(ps, ps[i].0) == ps[i].1,
        pairs_map(ps).contains_key(ps[i].0),
        pairs_map(ps)[ps[i].0] == ps[i].1,
{
    let k = ps[i].0;
    assert(0 <= i < ps.len() && ps[i].0 == k);
    assert(has_key(ps, k));
    let c = key_index(ps, k);
    assert(0 <= c < ps.len() && ps[c].0 == k);
    lemma_sorted_unique(ps, i, c);
    assert(value_of(ps, k) == ps[c].1);
}

#[verifier::rlimit(50)]
pub proof fn lemma_pairs_map_len<W>(ps: Seq<(Seq<char>, W)>)
    requires
        sorted_keys(ps),
    ensures
        pairs_map(ps).dom().finite(),
        pairs_map(ps).len() == ps.len(),
    decreases ps.len(),
{
    if ps.len() == 0 {
        assert(pairs_map(ps).dom() =~= Set::<Seq<char>>::empty());
    } else {
        let q = ps.drop_last();
        assert(sorted_keys(q)) by {
            assert forall|i: int, j: int| 0 <= i < j < q.len() implies lex_lt(
                #[trigger] q[i].0,
                #[trigger] q[j].0,
            ) by {
                assert(q[i] == ps[i] && q[j] == ps[j]);
            }
        }
        lemma_pairs_map_len(q);
        let last = ps.last().0;
        assert(pairs_map(ps).dom() =~= pairs_map(q).dom().insert(last)) by {
            assert forall|k: Seq<char>| pairs_map(ps).dom().contains(k) implies pairs_map(
                q,
            ).dom().contains(k) || k == last by {
                let c = choose|j: int| 0 <= j < ps.len() && #[trigger] ps[j].0 == k;
                if c < ps.len() - 1 {
                    assert(q[c].0 == k);
                }
            }
            assert forall|k: Seq<char>| pairs_map(q).dom().contains(k) implies pairs_map(
                ps,
            ).dom().contains(k) by {
                let c = choose|j: int| 0 <= j < q.len() && #[trigger] q[j].0 == k;
                assert(ps[c].0 == k);
            }
            assert(ps[ps.len() - 1].0 == last);
        }
        assert(!pairs_map(q).dom().contains(last)) by {
            if pairs_map(q).dom().contains(last) {
                let c = choose|j: int| 0 <= j < q.len() && #[trigger] q[j].0 == last;
                assert(ps[c].0 == last);
                lemma_sorted_unique(ps, c, ps.len() - 1);
            }
        }
    }
}

#[verifier::rlimit(50)]
proof fn lemma_sorted_update<W>(ps: Seq<(Seq<char>, W)>, i: int, v: W)
    requires
        sorted_keys(ps),
        0 <= i < ps.len(),
    ensures
        sorted_keys(ps.update(i, (ps[i].0, v))),
{
    let np = ps.update(i, (ps[i].0, v));
    assert forall|a: int, b: int| 0 <= a < b < np.len() implies lex_lt(
        #[trigger] np[a].0,
        #[trigger] np[b].0,
    ) by {
        assert(np[a].0 == ps[a].0);
        assert(np[b].0 == ps[b].0);
    }
}

#[verifier::rlimit(50)]
proof fn lemma_sorted_insert<W>(ps: Seq<(Seq<char>, W)>, i: int, k: Seq<char>, v: W)
    requires
        sorted_keys(ps),
        0 <= i <= ps.len(),
        forall|j: int| 0 <= j < i ==> lex_lt(#[trigger] ps[j].0, k),
        i < ps.len() ==> lex_lt(k, ps[i].0),
    ensures
        sorted_keys(ps.insert(i, (k, v))),
{
    let np = ps.insert(i, (k, v));
    assert forall|a: int, b: int| 0 <= a < b < np.len() implies lex_lt(
        #[trigger] np[a].0,
        #[trigger] np[b].0,
    ) by {
        if a < i && b < i {
            assert(np[a] == ps[a] && np[b] == ps[b]);
        } else if a < i && b == i {
            assert(np[a] == ps[a]);
        } else if a < i && b > i {
            assert(np[a] == ps[a] && np[b] == ps[b - 1]);
            lemma_lex_trans(ps[a].0, k, ps[i].0);
            if b - 1 > i {
                lemma_lex_trans(ps[a].0, ps[i].0, ps[b - 1].0);
            }
        } else if a == i {
            assert(np[b] == ps[b - 1]);
            if b - 1 > i {
                lemma_lex_trans(k, ps[i].0, ps[b - 1].0);
            }
        } else {
            assert(np[a] == ps[a - 1] && np[b] == ps[b - 1]);
        }
    }
}

#[verifier::rlimit(50)]
proof fn lemma_sorted_remove<W>(ps: Seq<(Seq<char>, W)>, i: int)
    requires
        sorted_keys(ps),
        0 <= i < ps.len(),
    ensures
        sorted_keys(ps.remove(i)),
{
    let np = ps.remove(i);
    assert forall|a: int, b: int| 0 <= a < b < np.len() implies lex_lt(
        #[trigger] np[a].0,
        #[trigger] np[b].0,
    ) by {
        let a2 = if a < i {
            a
        } else {
            a + 1
        };
        let b2 = if b < i {
            b
        } else {
            b + 1
        };
        assert(np[a] == ps[a2] && np[b] == ps[b2]);
    }
}

#[verifier::rlimit(50)]
proof fn lemma_pairs_map_update<W>(ps: Seq<(Seq<char>, W)>, i: int, v: W)
    requires
        sorted_keys(ps),
        0 <= i < ps.len(),
    ensures
        pairs_map(ps.update(i, (ps[i].0, v))) == pairs_map(ps).insert(ps[i].0, v),
{
    let k = ps[i].0;
    let np = ps.update(i, (k, v));
    lemma_sorted_update(ps, i, v);
    assert forall|x: Seq<char>| #[trigger] has_key(np, x) == (has_key(ps, x) || x == k) by {
        if has_key(ps, x) {
            let c = choose|j: int| 0 <= j < ps.len() && #[trigger] ps[j].0 == x;
            assert(np[c].0 == x);
        }
        if has_key(np, x) {
            let c = choose|j: int| 0 <= j < np.len() && #[trigger] np[j].0 == x;
            assert(ps[c].0 == x);
        }
        assert(np[i].0 == k);
    }
    assert forall|x: Seq<char>| has_key(np, x) implies #[trigger] value_of(np, x) == (if x == k {
        v
    } else {
        value_of(ps, x)
    }) by {
        let c = choose|j: int| 0 <= j < np.len() && #[trigger] np[j].0 == x;
        lemma_value_of_index(np, c);
        if x != k {
            assert(ps[c].0 == x);
            lemma_value_of_index(ps, c);
        } else {
            lemma_sorted_unique(np, c, i);
        }
    }
    assert(pairs_map(np) =~= pairs_map(ps).insert(k, v));
}

#[verifier::rlimit(50)]
proof fn lemma_pairs_map_insert<W>(ps: Seq<(Seq<char>, W)>, i: int, k: Seq<char>, v: W)
    requires
        sorted_keys(ps),
        sorted_keys(ps.insert(i, (k, v))),
        0 <= i <= ps.len(),
    ensures
        pairs_map(ps.insert(i, (k, v))) == pairs_map(ps).insert(k, v),
{
    let np = ps.insert(i, (k, v));
    assert forall|x: Seq<char>| #[trigger] has_key(np, x) == (has_key(ps, x) || x == k) by {
        if has_key(ps, x) {
            let c = choose|j: int| 0 <= j < ps.len() && #[trigger] ps[j].0 == x;
            if c < i {
                assert(np[c].0 == x);
            } else {
                assert(np[c + 1].0 == x);
            }
        }
        if has_key(np, x) {
            let c = choose|j: int| 0 <= j < np.len() && #[trigger] np[j].0 == x;
            if c < i {
                assert(ps[c].0 == x);
            } else if c > i {
                assert(ps[c - 1].0 == x);
            }
        }
        assert(np[i].0 == k);
    }
    assert forall|x: Seq<char>| has_key(np, x) implies #[trigger] value_of(np, x) == (if x == k {
        v
    } else {
        value_of(ps, x)
    }) by {
        let c = choose|j: int| 0 <= j < np.len() && #[trigger] np[j].0 == x;
        lemma_value_of_index(np, c);
        if x != k {
            if c < i {
                assert(ps[c] == np[c]);
                lemma_value_of_index(ps, c);
            } else if c > i {
                assert(ps[c - 1] == np[c]);
                lemma_value_of_index(ps, c - 1);
            } else {
                assert(np[c].0 == k);
            }
        } else {
            lemma_sorted_unique(np, c, i);
        }
    }
    assert(pairs_map(np) =~= pairs_map(ps).insert(k, v));
}

#[verifier::rlimit(50)]
proof fn lemma_pairs_map_remove<W>(ps: Seq<(Seq<char>, W)>, i: int)
    requires
        sorted_keys(ps),
        0 <= i < ps.len(),
    ensures
        pairs_map(ps.remove(i)) == pairs_map(ps).remove(ps[i].0),
{
    let k = ps[i].0;
    let np = ps.remove(i);
    lemma_sorted_remove(ps, i);
    assert forall|x: Seq<char>| #[trigger] has_key(np, x) == (has_key(ps, x) && x != k) by {
        if has_key(ps, x) && x != k {
            let c = choose|j: int| 0 <= j < ps.len() && #[trigger] ps[j].0 == x;
            if c < i {
                assert(np[c].0 == x);
            } else {
                assert(c != i);
                assert(np[c - 1].0 == x);
            }
        }
        if has_key(np, x) {
            let c = choose|j: int| 0 <= j < np.len() && #[trigger] np[j].0 == x;
            let c2 = if c < i {
                c
            } else {
                c + 1
            };
            assert(ps[c2].0 == x);
            if x == k {
                lemma_sorted_unique(ps, c2, i);
            }
        }
    }
    assert forall|x: Seq<char>| has_key(np, x) implies #[trigger] value_of(np, x) == value_of(
        ps,
        x,
    ) by {
        let c = choose|j: int| 0 <= j < np.len() && #[trigger] np[j].0 == x;
        lemma_value_of_index(np, c);
        let c2 = if c < i {
            c
        } else {
            c + 1
        };
        assert(ps[c2] == np[c]);
        lemma_value_of_index(ps, c2);
    }
    assert(pairs_map(np) =~= pairs_map(ps).remove(k));
}

/// Appending a pair whose key is greater than every key of a sorted
/// sequence keeps it sorted and adds that pair to its map.
#[verifier::rlimit(50)]
pub proof fn lemma_pairs_map_push_sorted<W>(q: Seq<(Seq<char>, W)>, k: Seq<char>, v: W)
    requires
        sorted_keys(q),
        forall|j: int| 0 <= j < q.len() ==> lex_lt(#[trigger] q[j].0, k),
    ensures
        sorted_keys(q.push((k, v))),
        pairs_map(q.push((k, v))) == pairs_map(q).insert(k, v),
{
    let b = q.push((k, v));
    assert forall|x: int, y: int| 0 <= x < y < b.len() implies lex_lt(
        #[trigger] b[x].0,
        #[trigger] b[y].0,
    ) by {
        if y < q.len() {
            assert(b[x] == q[x] && b[y] == q[y]);
        } else {
            assert(b[x] == q[x]);
        }
    }
    let pa = pairs_map(q);
    let pb = pairs_map(b);
    assert forall|x: Seq<char>| #[trigger] pb.contains_key(x) == (pa.contains_key(x) || x == k) by {
        if pa.contains_key(x) {
            let c = key_index(q, x);
            assert(b[c].0 == x);
        }
        if x == k {
            assert(b[q.len() as int].0 == x);
        }
        if pb.contains_key(x) {
            let c = key_index(b, x);
            if c < q.len() {
                assert(q[c].0 == x);
            }
        }
    }
    assert forall|x: Seq<char>| pb.contains_key(x) implies #[trigger] pb[x] == (if x == k {
        v
    } else {
        pa[x]
    }) by {
        let c = key_index(b, x);
        lemma_value_of_index(b, c);
        if x != k {
            assert(c < q.len());
            assert(q[c] == b[c]);
            lemma_value_of_index(q, c);
        } else {
            lemma_sorted_unique(b, c, q.len() as int);
        }
    }
    assert(pb =~= pa.insert(k, v));
}

} // verus!
