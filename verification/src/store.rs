//! Queries and updates over the entry list: attribute changes, key
//! counts, positions, and resolution of entry references.
//!
//! The entry list is newest first, as the store lists it.
use vstd::prelude::*;
use vstd::utf8::encode_utf8;

use crate::meta::{AttrMap, Meta, MetaView, MIN_ID_LEN};
use crate::strmap::StrMap;
use crate::text::{
    all_digits, chars_of, lower_char, lower_seq, parse_usize_range, parse_usize_spec, range_eq,
    str_eq, string_of, string_of_range, to_lower, trim, trim_bounds, lex_lt, str_lt, lemma_lex_trichotomy,
    lemma_lex_trans,
};
use crate::attrfile::{parse_attr_file, parse_attr_spec};
use crate::selection::strs;
use crate::display::{attr_value_spec, writable_key};

verus! {

/// Why a query on the entry list failed.
#[derive(Clone, Copy, Debug, PartialEq, Eq, Structural)]
pub enum StoreError {
    /// There is no entry at all.
    StashEmpty,
    /// An id reference was looked up where no entry id exists.
    NoEntryIds,
    /// A position of 0 was asked for.
    ZeroIndex,
    /// A position past the last entry was asked for.
    IndexOutOfRange,
    /// No entry has the given id.
    EntryNotFound,
    /// `@` is followed by something other than a position.
    InvalidStackRef,
    /// A digit-only reference does not fit a position.
    InvalidIndex,
    /// An id reference shorter than the minimum.
    IdTooShort,
    /// An id prefix or suffix matches more than one entry.
    AmbiguousId,
}

impl StoreError {
    /// The message that reports this error.
    #[verifier::rlimit(50)]
    pub fn message(&self) -> (r: &'static str)
        ensures
            r@ == (match *self {
                StoreError::StashEmpty => "stash is empty"@,
                StoreError::NoEntryIds => "stash is empty"@,
                StoreError::ZeroIndex => "n must be >= 1"@,
                StoreError::IndexOutOfRange => "entry index out of range"@,
                StoreError::EntryNotFound => "entry not found"@,
                StoreError::InvalidStackRef => "invalid stack ref"@,
                StoreError::InvalidIndex => "invalid index"@,
                StoreError::IdTooShort => "id too short"@,
                StoreError::AmbiguousId => "ambiguous id"@,
            }),
    {
        match self {
            StoreError::StashEmpty => "stash is empty",
            StoreError::NoEntryIds => "stash is empty",
            StoreError::ZeroIndex => "n must be >= 1",
            StoreError::IndexOutOfRange => "entry index out of range",
            StoreError::EntryNotFound => "entry not found",
            StoreError::InvalidStackRef => "invalid stack ref",
            StoreError::InvalidIndex => "invalid index",
            StoreError::IdTooShort => "id too short",
            StoreError::AmbiguousId => "ambiguous id",
        }
    }
}

impl Meta {
    /// A copy of this entry.
    #[verifier::rlimit(50)]
    pub fn copy(&self) -> (r: Meta)
        requires
            self.wf(),
        ensures
            r.wf(),
            r@ == self@,
            r.attrs.pairs() == self.attrs.pairs(),
    {
        let attrs = self.attrs.clone_map();
        proof {
            self.attrs.lemma_values();
            attrs.lemma_values();
            assert forall|i: int| 0 <= i < attrs.pairs().len() implies #[trigger] attrs.pairs()[i]
                == self.attrs.pairs()[i] by {
                assert(cloned::<String>(self.attrs.values_seq()[i], attrs.values_seq()[i]));
            }
            assert(attrs.pairs() =~= self.attrs.pairs());
        }
        Meta {
            id: self.id.clone(),
            ts: self.ts.clone(),
            size: self.size,
            preview: self.preview.clone(),
            attrs,
        }
    }
}

/// `v` with its attributes replaced by `a`.
pub open spec fn with_attrs(v: MetaView, a: Map<Seq<char>, Seq<char>>) -> MetaView {
    MetaView { attrs: a, ..v }
}

/// Stores every pair of `attrs` into `meta`, replacing earlier values.
#[verifier::rlimit(50)]
pub fn set_attrs(meta: &mut Meta, attrs: &AttrMap)
    requires
        old(meta).wf(),
        attrs.wf(),
    ensures
        final(meta).wf(),
        final(meta)@ == with_attrs(old(meta)@, old(meta)@.attrs.union_prefer_right(attrs@)),
{
    let n = attrs.len();
    let mut i: usize = 0;
    proof {
        let e = crate::strmap::pairs_map(attrs.pairs().take(0));
        assert(e =~= Map::<Seq<char>, Seq<char>>::empty());
        assert(old(meta)@.attrs.union_prefer_right(e) =~= old(meta)@.attrs);
        assert(meta@ == with_attrs(old(meta)@, old(meta)@.attrs));
    }
    while i < n
        invariant
            n == attrs.pairs().len(),
            i <= n,
            attrs.wf(),
            meta.wf(),
            meta@ == with_attrs(
                old(meta)@,
                old(meta)@.attrs.union_prefer_right(
                    crate::strmap::pairs_map(attrs.pairs().take(i as int)),
                ),
            ),
        decreases n - i,
    {
        let k = attrs.key_at(i).clone();
        let v = attrs.value_at(i).clone();
        meta.attrs.insert(k, v);
        proof {
            let ps = attrs.pairs();
            lemma_pairs_map_take_push(ps, i as int);
        }
        i += 1;
    }
    proof {
        assert(attrs.pairs().take(n as int) =~= attrs.pairs());
    }
}

/// The map of the first `i + 1` pairs is the map of the first `i` with the
/// `i`-th added.
#[verifier::rlimit(50)]
proof fn lemma_pairs_map_take_push(ps: Seq<(Seq<char>, Seq<char>)>, i: int)
    requires
        crate::strmap::sorted_keys(ps),
        0 <= i < ps.len(),
    ensures
        crate::strmap::pairs_map(ps.take(i + 1)) == crate::strmap::pairs_map(ps.take(i)).insert(
            ps[i].0,
            ps[i].1,
        ),
        forall|m: Map<Seq<char>, Seq<char>>|
            #[trigger] m.union_prefer_right(crate::strmap::pairs_map(ps.take(i + 1))) == m.union_prefer_right(
                crate::strmap::pairs_map(ps.take(i)),
            ).insert(ps[i].0, ps[i].1),
{
    let a = ps.take(i);
    let b = ps.take(i + 1);
    assert(crate::strmap::sorted_keys(b)) by {
        assert forall|x: int, y: int| 0 <= x < y < b.len() implies crate::text::lex_lt(
            #[trigger] b[x].0,
            #[trigger] b[y].0,
        ) by {
            assert(b[x] == ps[x] && b[y] == ps[y]);
        }
    }
    assert(b =~= a.insert(i, ps[i]));
    assert(b[i] == ps[i]);
    crate::strmap::lemma_value_of_index(b, i);
    let pa = crate::strmap::pairs_map(a);
    let pb = crate::strmap::pairs_map(b);
    assert forall|x: Seq<char>| #[trigger] pb.contains_key(x) == (pa.contains_key(x) || x == ps[i].0) by {
        if pa.contains_key(x) {
            let c = crate::strmap::key_index(a, x);
            assert(b[c].0 == x);
        }
        if pb.contains_key(x) {
            let c = crate::strmap::key_index(b, x);
            if c < i {
                assert(a[c].0 == x);
            }
        }
    }
    assert forall|x: Seq<char>| pb.contains_key(x) implies #[trigger] pb[x] == (if x == ps[i].0 {
        ps[i].1
    } else {
        pa[x]
    }) by {
        let c = crate::strmap::key_index(b, x);
        crate::strmap::lemma_value_of_index(b, c);
        if x != ps[i].0 {
            assert(c != i);
            assert(a[c] == b[c]);
            assert(crate::strmap::sorted_keys(a)) by {
                assert forall|p: int, q: int| 0 <= p < q < a.len() implies crate::text::lex_lt(
                    #[trigger] a[p].0,
                    #[trigger] a[q].0,
                ) by {
                    assert(a[p] == ps[p] && a[q] == ps[q]);
                }
            }
            crate::strmap::lemma_value_of_index(a, c);
        } else {
            crate::strmap::lemma_sorted_unique(b, c, i);
        }
    }
    assert(pb =~= pa.insert(ps[i].0, ps[i].1));
    assert forall|m: Map<Seq<char>, Seq<char>>| #[trigger] m.union_prefer_right(pb) == m.union_prefer_right(
        pa,
    ).insert(ps[i].0, ps[i].1) by {
        assert(m.union_prefer_right(pb) =~= m.union_prefer_right(pa).insert(ps[i].0, ps[i].1));
    }
}

/// The keys named by `keys`, as a set.
pub open spec fn key_set(keys: Seq<String>) -> Set<Seq<char>> {
    Set::new(|k: Seq<char>| exists|i: int| 0 <= i < keys.len() && #[trigger] keys[i]@ == k)
}

/// Removes every key of `keys` from `meta`.
#[verifier::rlimit(50)]
pub fn unset_attrs(meta: &mut Meta, keys: &Vec<String>)
    requires
        old(meta).wf(),
    ensures
        final(meta).wf(),
        final(meta)@ == with_attrs(old(meta)@, old(meta)@.attrs.remove_keys(key_set(keys@))),
{
    let mut i: usize = 0;
    proof {
        assert(key_set(keys@.take(0)) =~= Set::<Seq<char>>::empty());
        assert(old(meta)@.attrs.remove_keys(Set::<Seq<char>>::empty()) =~= old(meta)@.attrs);
        assert(meta@ == with_attrs(old(meta)@, old(meta)@.attrs));
    }
    while i < keys.len()
        invariant
            i <= keys.len(),
            meta.wf(),
            meta@ == with_attrs(old(meta)@, old(meta)@.attrs.remove_keys(key_set(keys@.take(i as int)))),
        decreases keys.len() - i,
    {
        meta.attrs.remove(keys[i].as_str());
        proof {
            let a = key_set(keys@.take(i as int));
            let b = key_set(keys@.take(i + 1));
            assert forall|k: Seq<char>| #[trigger] b.contains(k) == (a.contains(k) || k == keys@[i as int]@) by {
                if b.contains(k) {
                    let c = choose|c: int| 0 <= c < i + 1 && #[trigger] keys@.take(i + 1)[c]@ == k;
                    if c < i {
                        assert(keys@.take(i as int)[c]@ == k);
                    }
                }
                if a.contains(k) {
                    let c = choose|c: int| 0 <= c < i && #[trigger] keys@.take(i as int)[c]@ == k;
                    assert(keys@.take(i + 1)[c]@ == k);
                }
                if k == keys@[i as int]@ {
                    assert(keys@.take(i + 1)[i as int]@ == k);
                }
            }
            assert(b =~= a.insert(keys@[i as int]@));
            assert(old(meta)@.attrs.remove_keys(b) =~= old(meta)@.attrs.remove_keys(a).remove(
                keys@[i as int]@,
            ));
        }
        i += 1;
    }
    proof {
        assert(keys@.take(keys.len() as int) =~= keys@);
    }
}

// ---------------------------------------------------------------------------
// Attribute key index
// ---------------------------------------------------------------------------

/// How many of the entries carry attribute `k`.
pub open spec fn key_count(items: Seq<MetaView>, k: Seq<char>) -> nat
    decreases items.len(),
{
    if items.len() == 0 {
        0
    } else {
        key_count(items.drop_last(), k) + if items.last().attrs.contains_key(k) {
            1nat
        } else {
            0nat
        }
    }
}

/// The views of a list of entries.
pub open spec fn views(items: Seq<Meta>) -> Seq<MetaView> {
    items.map_values(|m: Meta| m@)
}

/// All entries of the list are well formed.
pub open spec fn all_wf(items: Seq<Meta>) -> bool {
    forall|i: int| 0 <= i < items.len() ==> (#[trigger] items[i]).wf()
}

/// For every attribute key in use, the number of entries that carry it.
#[verifier::rlimit(50)]
pub fn build_attr_key_index(items: &Vec<Meta>) -> (r: StrMap<usize>)
    requires
        all_wf(items@),
    ensures
        r.wf(),
        forall|k: Seq<char>|
            #[trigger] r@.contains_key(k) <==> key_count(views(items@), k) > 0,
        forall|k: Seq<char>|
            #[trigger] r@.contains_key(k) ==> r@[k] == key_count(views(items@), k),
{
    let mut out: StrMap<usize> = StrMap::new();
    let mut i: usize = 0;
    while i < items.len()
        invariant
            i <= items.len(),
            all_wf(items@),
            out.wf(),
            forall|k: Seq<char>|
                #[trigger] out@.contains_key(k) <==> key_count(views(items@.take(i as int)), k) > 0,
            forall|k: Seq<char>|
                #[trigger] out@.contains_key(k) ==> out@[k] == key_count(
                    views(items@.take(i as int)),
                    k,
                ),
            forall|k: Seq<char>| #[trigger] key_count(views(items@.take(i as int)), k) <= i,
        decreases items.len() - i,
    {
        let item = &items[i];
        assert(item.wf());
        let ghost before = out@;
        let n = item.attrs.len();
        let mut j: usize = 0;
        while j < n
            invariant
                n == item.attrs.pairs().len(),
                item.attrs.wf(),
                j <= n,
                i < items.len(),
                out.wf(),
                forall|k: Seq<char>|
                    #[trigger] out@.contains_key(k) <==> (before.contains_key(k) || exists|q: int|
                        0 <= q < j && item.attrs.pairs()[q].0 == k),
                forall|k: Seq<char>|
                    #[trigger] out@.contains_key(k) ==> out@[k] == (if before.contains_key(k) {
                        before[k] as int
                    } else {
                        0
                    }) + if exists|q: int| 0 <= q < j && item.attrs.pairs()[q].0 == k {
                        1int
                    } else {
                        0int
                    },
                forall|k: Seq<char>| before.contains_key(k) ==> #[trigger] before[k] <= i,
            decreases n - j,
        {
            let key = item.attrs.key_at(j);
            let ghost kv = key@;
            proof {
                assert forall|q: int| 0 <= q < j implies item.attrs.pairs()[q].0 != kv by {
                    crate::text::lemma_lex_irrefl(kv);
                }
            }
            let current: usize = match out.get(key.as_str()) {
                Some(c) => *c,
                None => 0,
            };
            assert(current <= i);
            out.insert(key.clone(), current + 1);
            proof {
                assert forall|k: Seq<char>| #[trigger] out@.contains_key(k) <==> (before.contains_key(
                    k,
                ) || exists|q: int| 0 <= q < j + 1 && item.attrs.pairs()[q].0 == k) by {
                    if k == kv {
                        assert(item.attrs.pairs()[j as int].0 == k);
                    }
                    if exists|q: int| 0 <= q < j + 1 && item.attrs.pairs()[q].0 == k {
                        let q = choose|q: int| 0 <= q < j + 1 && item.attrs.pairs()[q].0 == k;
                        if q == j {
                            assert(k == kv);
                        }
                    }
                }
                assert forall|k: Seq<char>| #[trigger] out@.contains_key(k) implies out@[k] == (if before.contains_key(k) {
                    before[k] as int
                } else {
                    0
                }) + if exists|q: int| 0 <= q < j + 1 && item.attrs.pairs()[q].0 == k {
                    1int
                } else {
                    0int
                } by {
                    if k == kv {
                        assert(item.attrs.pairs()[j as int].0 == k);
                        assert(!exists|q: int| 0 <= q < j && item.attrs.pairs()[q].0 == k);
                    } else {
                        if exists|q: int| 0 <= q < j + 1 && item.attrs.pairs()[q].0 == k {
                            let q = choose|q: int| 0 <= q < j + 1 && item.attrs.pairs()[q].0 == k;
                            assert(q != j);
                            assert(exists|q2: int| 0 <= q2 < j && item.attrs.pairs()[q2].0 == k);
                        }
                    }
                }
            }
            j += 1;
        }
        proof {
            let vs0 = views(items@.take(i as int));
            let vs1 = views(items@.take(i + 1));
            assert(vs1.drop_last() =~= vs0);
            assert(vs1.last() == item@);
            assert forall|k: Seq<char>| #[trigger] item@.attrs.contains_key(k) == (exists|q: int|
                0 <= q < n && item.attrs.pairs()[q].0 == k) by {
                if exists|q: int| 0 <= q < n && item.attrs.pairs()[q].0 == k {
                    let q = choose|q: int| 0 <= q < n && item.attrs.pairs()[q].0 == k;
                    crate::strmap::lemma_value_of_index(item.attrs.pairs(), q);
                }
                if item@.attrs.contains_key(k) {
                    let q = crate::strmap::key_index(item.attrs.pairs(), k);
                    assert(0 <= q < n && item.attrs.pairs()[q].0 == k);
                }
            }
            assert forall|k: Seq<char>| #[trigger] key_count(vs1, k) <= i + 1 by {
                assert(key_count(vs0, k) <= i);
            }
        }
        i += 1;
    }
    proof {
        assert(items@.take(items.len() as int) =~= items@);
    }
    out
}

/// Every attribute key in use with its entry count, in key order.
#[verifier::rlimit(50)]
pub fn all_attr_keys(items: &Vec<Meta>) -> (r: Vec<(String, usize)>)
    requires
        all_wf(items@),
    ensures
        forall|i: int, j: int| 0 <= i < j < r.len() ==> crate::text::lex_lt(#[trigger] r@[i].0@, #[trigger] r@[j].0@),
        forall|i: int| 0 <= i < r.len() ==> #[trigger] r@[i].1 == key_count(views(items@), r@[i].0@)
            && r@[i].1 > 0,
        forall|k: Seq<char>|
            key_count(views(items@), k) > 0 ==> exists|i: int| 0 <= i < r.len() && #[trigger] r@[i].0@ == k,
{
    let index = build_attr_key_index(items);
    let n = index.len();
    let mut out: Vec<(String, usize)> = Vec::new();
    let mut i: usize = 0;
    while i < n
        invariant
            index.wf(),
            n == index.pairs().len(),
            i <= n,
            out.len() == i,
            forall|j: int| 0 <= j < i ==> #[trigger] out@[j].0@ == index.pairs()[j].0 && out@[j].1
                == index.pairs()[j].1,
        decreases n - i,
    {
        let k = index.key_at(i).clone();
        let v = *index.value_at(i);
        out.push((k, v));
        i += 1;
    }
    proof {
        let ps = index.pairs();
        assert forall|i: int| 0 <= i < out.len() implies #[trigger] out@[i].1 == key_count(
            views(items@),
            out@[i].0@,
        ) && out@[i].1 > 0 by {
            crate::strmap::lemma_value_of_index(ps, i);
            let k = ps[i].0;
            assert(out@[i].0@ == k);
            assert(index@ == crate::strmap::pairs_map(ps));
            assert(index@.contains_key(k));
            assert(index@[k] == ps[i].1);
            assert(index@[k] == key_count(views(items@), k));
        }
        assert forall|k: Seq<char>| key_count(views(items@), k) > 0 implies exists|i: int|
            0 <= i < out.len() && #[trigger] out@[i].0@ == k by {
            assert(index@.contains_key(k));
            let c = crate::strmap::key_index(ps, k);
            assert(out@[c].0@ == k);
        }
    }
    out
}

// ---------------------------------------------------------------------------
// Positions in the entry list
// ---------------------------------------------------------------------------

/// The newest entry (the first of the list).
#[verifier::rlimit(50)]
pub fn newest(items: &Vec<Meta>) -> (r: Result<Meta, StoreError>)
    requires
        all_wf(items@),
    ensures
        match r {
            Ok(m) => items@.len() > 0 && m@ == items@[0]@ && m.wf(),
            Err(e) => items@.len() == 0 && e == StoreError::StashEmpty,
        },
{
    if items.len() == 0 {
        Err(StoreError::StashEmpty)
    } else {
        Ok(items[0].copy())
    }
}

/// The `n`-th newest entry, counting from 1.
#[verifier::rlimit(50)]
pub fn nth_newest(items: &Vec<Meta>, n: usize) -> (r: Result<Meta, StoreError>)
    requires
        all_wf(items@),
    ensures
        match r {
            Ok(m) => 1 <= n <= items@.len() && m@ == items@[n - 1]@ && m.wf(),
            Err(e) => (n == 0 && e == StoreError::ZeroIndex) || (n > items@.len() && n >= 1 && e
                == StoreError::IndexOutOfRange),
        },
{
    if n == 0 {
        return Err(StoreError::ZeroIndex);
    }
    if n > items.len() {
        return Err(StoreError::IndexOutOfRange);
    }
    Ok(items[n - 1].copy())
}

/// Index of the first entry whose id is `id`.
#[verifier::rlimit(50)]
fn position_of(items: &Vec<Meta>, id: &str) -> (r: Option<usize>)
    ensures
        match r {
            Some(i) => i < items@.len() && items@[i as int].id@ == id@ && forall|j: int|
                0 <= j < i ==> (#[trigger] items@[j]).id@ != id@,
            None => forall|j: int| 0 <= j < items@.len() ==> (#[trigger] items@[j]).id@ != id@,
        },
{
    let mut i: usize = 0;
    while i < items.len()
        invariant
            i <= items.len(),
            forall|j: int| 0 <= j < i ==> (#[trigger] items@[j]).id@ != id@,
        decreases items.len() - i,
    {
        if str_eq(items[i].id.as_str(), id) {
            return Some(i);
        }
        i += 1;
    }
    None
}

/// The ids of the entries in `items[lo..hi]`.
#[verifier::rlimit(50)]
fn ids_in(items: &Vec<Meta>, lo: usize, hi: usize) -> (r: Vec<String>)
    requires
        lo <= hi <= items.len(),
    ensures
        r@.len() == hi - lo,
        forall|j: int| 0 <= j < hi - lo ==> (#[trigger] r@[j])@ == items@[lo + j].id@,
{
    let mut out: Vec<String> = Vec::new();
    let mut i: usize = lo;
    while i < hi
        invariant
            lo <= i <= hi <= items.len(),
            out@.len() == i - lo,
            forall|j: int| 0 <= j < i - lo ==> (#[trigger] out@[j])@ == items@[lo + j].id@,
        decreases hi - i,
    {
        out.push(items[i].id.clone());
        i += 1;
    }
    out
}

/// The first position of `id` in the list, if any.
pub open spec fn first_pos(items: Seq<Meta>, id: Seq<char>) -> int {
    choose|i: int|
        0 <= i < items.len() && items[i].id@ == id && forall|j: int|
            0 <= j < i ==> (#[trigger] items[j]).id@ != id
}

/// Whether some entry has id `id`.
pub open spec fn has_id(items: Seq<Meta>, id: Seq<char>) -> bool {
    exists|i: int| 0 <= i < items.len() && (#[trigger] items[i]).id@ == id
}

/// The ids of a listing, in its order.
pub open spec fn listing_ids(items: Seq<Meta>) -> Seq<Seq<char>> {
    items.map_values(|m: Meta| m.id@)
}

/// In a listing whose ids are distinct (as the store lists them), the
/// entry at `i` is the one its id names: the ids newer than it (which
/// `newer_than_ids` gives) are those before `i`, the older ones (which
/// `older_than_ids` gives) those after, and together with the id itself
/// they make up the whole listing.
#[verifier::rlimit(50)]
pub proof fn lemma_id_ranges_split(items: Seq<Meta>, i: int)
    requires
        0 <= i < items.len(),
        forall|a: int, b: int| 0 <= a < b < items.len() ==> (#[trigger] items[a]).id@ != (#[trigger] items[b]).id@,
    ensures
        has_id(items, items[i].id@),
        first_pos(items, items[i].id@) == i,
        listing_ids(items).take(i) + seq![items[i].id@] + listing_ids(items).skip(i + 1) == listing_ids(items),
{
    assert forall|j: int| 0 <= j < i implies (#[trigger] items[j]).id@ != items[i].id@ by {
        assert(items[j].id@ != items[i].id@);
    }
    lemma_first_pos(items, items[i].id@, i);
    let l = listing_ids(items);
    assert(l[i] == items[i].id@);
    assert(l.take(i) + seq![l[i]] + l.skip(i + 1) =~= l);
}

/// The ids of all entries older than the entry `id` (after it in the list).
#[verifier::rlimit(50)]
pub fn older_than_ids(items: &Vec<Meta>, id: &str) -> (r: Result<Vec<String>, StoreError>)
    ensures
        match r {
            Ok(ids) => has_id(items@, id@) && {
                let p = first_pos(items@, id@);
                &&& ids@.len() == items@.len() - p - 1
                &&& forall|j: int| 0 <= j < ids@.len() ==> (#[trigger] ids@[j])@ == items@[p + 1 + j].id@
            },
            Err(e) => !has_id(items@, id@) && e == StoreError::EntryNotFound,
        },
{
    match position_of(items, id) {
        Some(p) => {
            proof {
                lemma_first_pos(items@, id@, p as int);
            }
            assert(p < items.len());
            Ok(ids_in(items, p + 1, items.len()))
        },
        None => Err(StoreError::EntryNotFound),
    }
}

/// The ids of all entries newer than the entry `id` (before it in the list).
#[verifier::rlimit(50)]
pub fn newer_than_ids(items: &Vec<Meta>, id: &str) -> (r: Result<Vec<String>, StoreError>)
    ensures
        match r {
            Ok(ids) => has_id(items@, id@) && {
                let p = first_pos(items@, id@);
                &&& ids@.len() == p
                &&& forall|j: int| 0 <= j < ids@.len() ==> (#[trigger] ids@[j])@ == items@[j].id@
            },
            Err(e) => !has_id(items@, id@) && e == StoreError::EntryNotFound,
        },
{
    match position_of(items, id) {
        Some(p) => {
            proof {
                lemma_first_pos(items@, id@, p as int);
            }
            Ok(ids_in(items, 0, p))
        },
        None => Err(StoreError::EntryNotFound),
    }
}

#[verifier::rlimit(50)]
proof fn lemma_first_pos(items: Seq<Meta>, id: Seq<char>, p: int)
    requires
        0 <= p < items.len(),
        items[p].id@ == id,
        forall|j: int| 0 <= j < p ==> (#[trigger] items[j]).id@ != id,
    ensures
        has_id(items, id),
        first_pos(items, id) == p,
{
    let q = first_pos(items, id);
    assert(has_id(items, id));
    if q < p {
        assert(items[q].id@ != id);
    } else if q > p {
        assert(items[p].id@ != id);
    }
}

// ---------------------------------------------------------------------------
// Resolving entry references
// ---------------------------------------------------------------------------

/// The ids of `ids` that start with `p`, in order.
pub open spec fn prefix_matches(ids: Seq<Seq<char>>, p: Seq<char>) -> Seq<Seq<char>>
    decreases ids.len(),
{
    if ids.len() == 0 {
        Seq::empty()
    } else {
        prefix_matches(ids.drop_last(), p) + if p.is_prefix_of(ids.last()) {
            seq![ids.last()]
        } else {
            Seq::empty()
        }
    }
}

/// The ids of `ids` that end with `p`, in order.
pub open spec fn suffix_matches(ids: Seq<Seq<char>>, p: Seq<char>) -> Seq<Seq<char>>
    decreases ids.len(),
{
    if ids.len() == 0 {
        Seq::empty()
    } else {
        suffix_matches(ids.drop_last(), p) + if p.is_suffix_of(ids.last()) {
            seq![ids.last()]
        } else {
            Seq::empty()
        }
    }
}

/// Whether every character is an ASCII digit.
pub open spec fn ascii_digits_only(s: Seq<char>) -> bool {
    forall|i: int| 0 <= i < s.len() ==> '0' <= #[trigger] s[i] && s[i] <= '9'
}

/// Whether `ids` holds `x`.
pub open spec fn seq_has(ids: Seq<Seq<char>>, x: Seq<char>) -> bool {
    exists|i: int| 0 <= i < ids.len() && ids[i] == x
}

/// What `resolve` gives for a reference: an empty reference is the newest
/// entry; `@n` and a plain number are the `n`-th newest; otherwise the
/// lower-cased reference must be at least six bytes long and is looked up
/// as an exact id, then as a unique id prefix, then as a unique id suffix.
pub open spec fn resolve_spec(input: Seq<char>, ids: Seq<Seq<char>>, items: Seq<Meta>) -> Result<
    Seq<char>,
    StoreError,
> {
    let raw = trim(input);
    if raw.len() == 0 {
        if items.len() == 0 {
            Err(StoreError::StashEmpty)
        } else {
            Ok(items[0].id@)
        }
    } else if raw[0] == '@' {
        match parse_usize_spec(raw.drop_first()) {
            None => Err(StoreError::InvalidStackRef),
            Some(n) => nth_spec(items, n as int),
        }
    } else {
        let lower = lower_seq(raw);
        if ascii_digits_only(lower) {
            match parse_usize_spec(lower) {
                None => Err(StoreError::InvalidIndex),
                Some(n) => nth_spec(items, n as int),
            }
        } else if encode_utf8(lower).len() < MIN_ID_LEN {
            Err(StoreError::IdTooShort)
        } else {
            lookup_id_spec(lower, ids)
        }
    }
}

/// Looks up a lower-cased id reference among the entry ids: an exact id,
/// then a unique prefix, then a unique suffix.
pub open spec fn lookup_id_spec(lower: Seq<char>, ids: Seq<Seq<char>>) -> Result<
    Seq<char>,
    StoreError,
> {
    if ids.len() == 0 {
        Err(StoreError::NoEntryIds)
    } else if seq_has(ids, lower) {
        Ok(lower)
    } else if prefix_matches(ids, lower).len() == 1 {
        Ok(prefix_matches(ids, lower)[0])
    } else if prefix_matches(ids, lower).len() > 1 {
        Err(StoreError::AmbiguousId)
    } else if suffix_matches(ids, lower).len() == 1 {
        Ok(suffix_matches(ids, lower)[0])
    } else if suffix_matches(ids, lower).len() > 1 {
        Err(StoreError::AmbiguousId)
    } else {
        Err(StoreError::EntryNotFound)
    }
}

/// The id of the `n`-th newest entry.
pub open spec fn nth_spec(items: Seq<Meta>, n: int) -> Result<Seq<char>, StoreError> {
    if n == 0 {
        Err(StoreError::ZeroIndex)
    } else if n > items.len() {
        Err(StoreError::IndexOutOfRange)
    } else {
        Ok(items[n - 1].id@)
    }
}

/// Number of UTF-8 bytes of `c`.
pub open spec fn utf8_width(c: char) -> nat {
    if (c as u32) < 0x80 {
        1
    } else if (c as u32) < 0x800 {
        2
    } else if (c as u32) < 0x10000 {
        3
    } else {
        4
    }
}

#[verifier::rlimit(50)]
proof fn lemma_encode_len(s: Seq<char>)
    ensures
        encode_utf8(s).len() >= s.len(),
        s.len() > 0 ==> encode_utf8(s).len() == utf8_width(s[0]) + encode_utf8(s.drop_first()).len(),
    decreases s.len(),
{
    if s.len() > 0 {
        lemma_encode_len(s.drop_first());
        vstd::utf8::char_is_scalar(s[0]);
    }
}

/// Whether the UTF-8 length of `v` is below `limit` (between 1 and 6).
#[verifier::rlimit(50)]
fn utf8_len_below(v: &Vec<char>, limit: usize) -> (r: bool)
    requires
        1 <= limit <= 6,
    ensures
        r == (encode_utf8(v@).len() < limit),
{
    let mut total: usize = 0;
    let mut i: usize = v.len();
    // walk from the end so that the remaining prefix is a plain drop
    proof {
        assert(v@.skip(v.len() as int) =~= Seq::<char>::empty());
    }
    while i > 0
        invariant
            i <= v.len(),
            total == encode_utf8(v@.skip(i as int)).len(),
            total < limit,
            1 <= limit <= 6,
        decreases i,
    {
        let c = v[i - 1];
        let u = c as u32;
        let w: usize = if u < 0x80 {
            1
        } else if u < 0x800 {
            2
        } else if u < 0x10000 {
            3
        } else {
            4
        };
        proof {
            let t = v@.skip(i - 1);
            assert(t.drop_first() =~= v@.skip(i as int));
            assert(t[0] == c);
            lemma_encode_len(t);
        }
        total = total + w;
        i -= 1;
        if total >= limit {
            proof {
                lemma_encode_prefix_len(v@, i as int);
            }
            return false;
        }
    }
    assert(v@.skip(0) =~= v@);
    true
}

#[verifier::rlimit(50)]
proof fn lemma_encode_prefix_len(s: Seq<char>, i: int)
    requires
        0 <= i <= s.len(),
    ensures
        encode_utf8(s).len() >= encode_utf8(s.skip(i)).len(),
    decreases i,
{
    if i > 0 {
        lemma_encode_prefix_len(s.drop_first(), i - 1);
        assert(s.drop_first().skip(i - 1) =~= s.skip(i));
        lemma_encode_len(s);
        assert(encode_utf8(s).len() == utf8_width(s[0]) + encode_utf8(s.drop_first()).len());
    } else {
        assert(s.skip(0) =~= s);
    }
}

/// Resolves an entry reference (an id, an id prefix or suffix, a position
/// `n` or `@n`, or nothing for the newest entry) against the entry ids
/// (`ids`, newest first) and the entry list (`items`, newest first).
#[verifier::rlimit(50)]
pub fn resolve(input: &str, ids: &Vec<String>, items: &Vec<Meta>) -> (r: Result<String, StoreError>)
    ensures
        match r {
            Ok(s) => resolve_spec(input@, ids@.map_values(|x: String| x@), items@) == Ok::<
                Seq<char>,
                StoreError,
            >(s@),
            Err(e) => resolve_spec(input@, ids@.map_values(|x: String| x@), items@) == Err::<
                Seq<char>,
                StoreError,
            >(e),
        },
{
    let ghost idv = ids@.map_values(|x: String| x@);
    let v = chars_of(input);
    let (a, b) = trim_bounds(&v, 0, v.len());
    assert(v@.subrange(0, v@.len() as int) == v@);
    let ghost raw = v@.subrange(a as int, b as int);
    if a == b {
        if items.len() == 0 {
            return Err(StoreError::StashEmpty);
        }
        return Ok(items[0].id.clone());
    }
    if v[a] == '@' {
        assert(raw.drop_first() =~= v@.subrange(a + 1, b as int));
        match parse_usize_range(&v, a + 1, b) {
            None => return Err(StoreError::InvalidStackRef),
            Some(n) => return nth_id(items, n),
        }
    }
    // lower-case the reference
    let mut lower: Vec<char> = Vec::new();
    let mut i: usize = a;
    while i < b
        invariant
            a <= i <= b <= v.len(),
            lower@ == lower_seq(v@.subrange(a as int, i as int)),
        decreases b - i,
    {
        let c = crate::text::char_to_lower(v[i]);
        lower.push(c);
        assert(lower_seq(v@.subrange(a as int, i + 1)) =~= lower_seq(v@.subrange(a as int, i as int)).push(c));
        i += 1;
    }
    let ghost lw = lower@;
    assert(lw == lower_seq(raw));
    let mut digits = true;
    let mut j: usize = 0;
    while j < lower.len()
        invariant
            j <= lower.len(),
            digits == forall|q: int| 0 <= q < j ==> '0' <= #[trigger] lower@[q] && lower@[q] <= '9',
        decreases lower.len() - j,
    {
        if !('0' <= lower[j] && lower[j] <= '9') {
            digits = false;
        }
        j += 1;
    }
    if digits {
        assert(lower@.subrange(0, lower@.len() as int) == lower@);
        match parse_usize_range(&lower, 0, lower.len()) {
            None => return Err(StoreError::InvalidIndex),
            Some(n) => return nth_id(items, n),
        }
    }
    if utf8_len_below(&lower, MIN_ID_LEN) {
        return Err(StoreError::IdTooShort);
    }
    if ids.len() == 0 {
        return Err(StoreError::NoEntryIds);
    }
    assert(resolve_spec(input@, idv, items@) == lookup_id_spec(lw, idv));
    // exact match
    let mut k: usize = 0;
    while k < ids.len()
        invariant
            k <= ids.len(),
            idv == ids@.map_values(|x: String| x@),
            lower@ == lw,
            ids.len() > 0,
            resolve_spec(input@, idv, items@) == lookup_id_spec(lw, idv),
            forall|q: int| 0 <= q < k ==> idv[q] != lw,
        decreases ids.len() - k,
    {
        let cand = chars_of(ids[k].as_str());
        assert(idv[k as int] == ids@[k as int]@);
        if range_eq(&cand, 0, cand.len(), &lower) {
            assert(cand@.subrange(0, cand@.len() as int) == cand@);
            proof {
                assert(cand@ == lw);
                assert(idv[k as int] == lw);
            }
            return Ok(ids[k].clone());
        }
        assert(cand@.subrange(0, cand@.len() as int) == cand@);
        k += 1;
    }
    // prefix and suffix matches
    let mut prefix_first: Option<usize> = None;
    let mut prefix_many = false;
    let mut suffix_first: Option<usize> = None;
    let mut suffix_many = false;
    let mut k: usize = 0;
    while k < ids.len()
        invariant
            k <= ids.len(),
            idv == ids@.map_values(|x: String| x@),
            lower@ == lw,
            ids.len() > 0,
            resolve_spec(input@, idv, items@) == lookup_id_spec(lw, idv),
            forall|q: int| 0 <= q < ids.len() ==> idv[q] != lw,
            match prefix_first {
                None => prefix_matches(idv.take(k as int), lw).len() == 0,
                Some(f) => f < k && prefix_matches(idv.take(k as int), lw).len() >= 1
                    && prefix_matches(idv.take(k as int), lw)[0] == idv[f as int] && prefix_many
                    == (prefix_matches(idv.take(k as int), lw).len() > 1),
            },
            prefix_first is None ==> !prefix_many,
            match suffix_first {
                None => suffix_matches(idv.take(k as int), lw).len() == 0,
                Some(f) => f < k && suffix_matches(idv.take(k as int), lw).len() >= 1
                    && suffix_matches(idv.take(k as int), lw)[0] == idv[f as int] && suffix_many
                    == (suffix_matches(idv.take(k as int), lw).len() > 1),
            },
            suffix_first is None ==> !suffix_many,
        decreases ids.len() - k,
    {
        let cand = chars_of(ids[k].as_str());
        assert(idv[k as int] == ids@[k as int]@);
        let ghost t0 = idv.take(k as int);
        let ghost t1 = idv.take(k + 1);
        assert(t1.drop_last() =~= t0);
        assert(t1.last() == cand@);
        let is_prefix = lower.len() <= cand.len() && range_eq(&cand, 0, lower.len(), &lower);
        let is_suffix = lower.len() <= cand.len() && range_eq(
            &cand,
            cand.len() - lower.len(),
            cand.len(),
            &lower,
        );
        proof {
            assert(is_prefix == lw.is_prefix_of(cand@)) by {
                if lower.len() <= cand.len() {
                    if lw.is_prefix_of(cand@) {
                        assert(cand@.subrange(0, lower.len() as int) =~= lw);
                    }
                }
            }
            assert(is_suffix == lw.is_suffix_of(cand@)) by {
                if lower.len() <= cand.len() {
                    let d = cand.len() - lower.len();
                    if lw.is_suffix_of(cand@) {
                        assert(cand@.subrange(d as int, cand.len() as int) =~= lw);
                    }
                    if is_suffix {
                        assert(cand@.subrange(d as int, cand.len() as int) == lw);
                    }
                }
            }
        }
        if is_prefix {
            if prefix_first.is_some() {
                prefix_many = true;
            } else {
                prefix_first = Some(k);
            }
        }
        if is_suffix {
            if suffix_first.is_some() {
                suffix_many = true;
            } else {
                suffix_first = Some(k);
            }
        }
        k += 1;
    }
    proof {
        assert(idv.take(ids.len() as int) =~= idv);
        assert(!seq_has(idv, lw)) by {
            if seq_has(idv, lw) {
                let q = choose|q: int| 0 <= q < idv.len() && idv[q] == lw;
                assert(idv[q] != lw);
            }
        }
        assert(!ascii_digits_only(lw));
    }
    match prefix_first {
        Some(f) => {
            if !prefix_many {
                return Ok(ids[f].clone());
            }
            return Err(StoreError::AmbiguousId);
        },
        None => {},
    }
    match suffix_first {
        Some(f) => {
            if !suffix_many {
                return Ok(ids[f].clone());
            }
            return Err(StoreError::AmbiguousId);
        },
        None => {},
    }
    Err(StoreError::EntryNotFound)
}

/// The id of the `n`-th newest entry.
#[verifier::rlimit(50)]
fn nth_id(items: &Vec<Meta>, n: usize) -> (r: Result<String, StoreError>)
    ensures
        match r {
            Ok(s) => nth_spec(items@, n as int) == Ok::<Seq<char>, StoreError>(s@),
            Err(e) => nth_spec(items@, n as int) == Err::<Seq<char>, StoreError>(e),
        },
{
    if n == 0 {
        return Err(StoreError::ZeroIndex);
    }
    if n > items.len() {
        return Err(StoreError::IndexOutOfRange);
    }
    Ok(items[n - 1].id.clone())
}

// ---------------------------------------------------------------------------
// Listing the store
// ---------------------------------------------------------------------------

/// No string of `s` is smaller than one after it (newest first, as ULIDs
/// sort by time).
pub open spec fn sorted_desc(s: Seq<Seq<char>>) -> bool {
    forall|i: int, j: int| 0 <= i < j < s.len() ==> !lex_lt(#[trigger] s[i], #[trigger] s[j])
}

/// The names of the attribute files, largest first: the entry ids, newest
/// first.
#[verifier::rlimit(50)]
pub fn sort_ids_desc(names: &Vec<String>) -> (r: Vec<String>)
    ensures
        strs(r@).to_multiset() == strs(names@).to_multiset(),
        sorted_desc(strs(r@)),
{
    let mut out: Vec<String> = Vec::new();
    let mut i: usize = 0;
    assert(strs(names@).take(0) =~= strs(out@));
    while i < names.len()
        invariant
            i <= names.len(),
            strs(out@).to_multiset() == strs(names@).take(i as int).to_multiset(),
            sorted_desc(strs(out@)),
        decreases names.len() - i,
    {
        let x = names[i].clone();
        let mut p: usize = 0;
        while p < out.len() && !str_lt(out[p].as_str(), x.as_str())
            invariant
                p <= out.len(),
                forall|q: int| 0 <= q < p ==> !lex_lt(#[trigger] strs(out@)[q], x@),
            decreases out.len() - p,
        {
            p += 1;
        }
        let ghost s = strs(out@);
        proof {
            assert forall|j: int| p <= j < s.len() implies lex_lt(#[trigger] s[j], x@) by {
                if j > p {
                    lemma_lex_trichotomy(s[j], s[p as int]);
                    if lex_lt(s[j], s[p as int]) {
                        lemma_lex_trans(s[j], s[p as int], x@);
                    }
                }
            }
        }
        out.insert(p, x);
        proof {
            let t = strs(out@);
            assert(t =~= s.insert(p as int, x@));
            assert forall|a: int, b: int| 0 <= a < b < t.len() implies !lex_lt(
                #[trigger] t[a],
                #[trigger] t[b],
            ) by {
                if b == p {
                    assert(t[a] == s[a]);
                } else if a == p {
                    assert(t[b] == s[b - 1]);
                    lemma_lex_trichotomy(x@, s[b - 1]);
                } else if a > p {
                    assert(t[a] == s[a - 1] && t[b] == s[b - 1]);
                } else if b > p {
                    assert(t[a] == s[a] && t[b] == s[b - 1]);
                    if lex_lt(s[a], s[b - 1]) {
                        assert(!lex_lt(s[a], x@));
                        lemma_lex_trans(s[a], s[b - 1], x@);
                    }
                } else {
                    assert(t[a] == s[a] && t[b] == s[b]);
                }
            }
            assert(strs(names@).take(i + 1) =~= strs(names@).take(i as int).push(names@[i as int]@));
            vstd::seq_lib::to_multiset_insert(s, p as int, x@);
            vstd::seq_lib::to_multiset_build(strs(names@).take(i as int), names@[i as int]@);
        }
        i += 1;
    }
    assert(strs(names@).take(names.len() as int) =~= strs(names@));
    out
}

/// The entries whose attribute files parse, in the order given; `files`
/// holds each file's text, `None` for one that could not be read.
pub open spec fn listed(files: Seq<Option<Seq<char>>>) -> Seq<MetaView>
    decreases files.len(),
{
    if files.len() == 0 {
        Seq::empty()
    } else {
        let rest = listed(files.drop_last());
        match files.last() {
            Some(t) => match parse_attr_spec(t) {
                Ok(m) => rest.push(m),
                Err(_) => rest,
            },
            None => rest,
        }
    }
}

/// The texts of files as values.
pub open spec fn file_texts(files: Seq<Option<String>>) -> Seq<Option<Seq<char>>> {
    files.map_values(|f: Option<String>|
        match f {
            Some(t) => Some(t@),
            None => None,
        })
}

/// The entry list from the attribute files of the entries, newest first:
/// the entries whose files parse (see [`listed`]).
#[verifier::rlimit(50)]
pub fn list(files: &Vec<Option<String>>) -> (r: Vec<Meta>)
    ensures
        views(r@) == listed(file_texts(files@)),
        all_wf(r@),
{
    let ghost fs = file_texts(files@);
    let mut out: Vec<Meta> = Vec::new();
    let mut i: usize = 0;
    assert(fs.take(0) =~= Seq::<Option<Seq<char>>>::empty());
    while i < files.len()
        invariant
            i <= files.len(),
            fs == file_texts(files@),
            views(out@) == listed(fs.take(i as int)),
            all_wf(out@),
        decreases files.len() - i,
    {
        proof {
            assert(fs.take(i + 1).drop_last() =~= fs.take(i as int));
        }
        match &files[i] {
            Some(text) => match parse_attr_file(text.as_str()) {
                Ok(m) => {
                    let ghost before = out@;
                    out.push(m);
                    assert(views(out@) =~= views(before).push(m@));
                },
                Err(_) => {},
            },
            None => {},
        }
        i += 1;
    }
    assert(fs.take(files.len() as int) =~= fs);
    out
}

/// Where the `/`-separated segment that ends at `end` starts: just after
/// the last `/` before `end`, or 0 when there is none.
pub open spec fn segment_start(path: Seq<char>, end: int) -> int
    decreases end,
{
    if end <= 0 {
        0
    } else if path[end - 1] == '/' {
        end
    } else {
        segment_start(path, end - 1)
    }
}

/// A segment starts within `0..=end`, just after a `/`, and holds no `/`.
pub proof fn lemma_segment_start_bounds(path: Seq<char>, end: int)
    requires
        0 <= end,
    ensures
        0 <= segment_start(path, end) <= end,
        segment_start(path, end) > 0 ==> path[segment_start(path, end) - 1] == '/',
        forall|k: int| segment_start(path, end) <= k < end ==> path[k] != '/',
    decreases end,
{
    if end > 0 && path[end - 1] != '/' {
        lemma_segment_start_bounds(path, end - 1);
    }
}

/// The file name of the Unix path `path[0..end]`: its last `/`-separated
/// segment once empty segments and `.` segments are skipped; none when no
/// segment is left or when that segment is `..`.
pub open spec fn file_name_before(path: Seq<char>, end: int) -> Option<Seq<char>>
    decreases end,
{
    if end < 0 {
        None
    } else {
        let start = segment_start(path, end);
        let seg = path.subrange(start, end);
        if seg.len() == 0 || seg == seq!['.'] {
            if start <= 0 {
                None
            } else {
                proof {
                    lemma_segment_start_bounds(path, end);
                }
                file_name_before(path, start - 1)
            }
        } else if seg == seq!['.', '.'] {
            None
        } else {
            Some(seg)
        }
    }
}

/// The file name of a Unix path, as `std::path::Path::file_name` defines
/// it: the last component when that is a normal name.
pub open spec fn file_name_spec(path: Seq<char>) -> Option<Seq<char>> {
    file_name_before(path, path.len() as int)
}

/// The file name of `path` (see `file_name_spec`).
pub fn file_name(path: &str) -> (r: Option<String>)
    ensures
        match r {
            Some(n) => file_name_spec(path@) == Some(n@),
            None => file_name_spec(path@) is None,
        },
{
    let v = chars_of(path);
    let mut end: usize = v.len();
    loop
        invariant
            v@ == path@,
            end <= v.len(),
            file_name_spec(path@) == file_name_before(v@, end as int),
        decreases end,
    {
        let mut start: usize = end;
        while start > 0 && v[start - 1] != '/'
            invariant
                start <= end <= v.len(),
                segment_start(v@, end as int) == segment_start(v@, start as int),
            decreases start,
        {
            start -= 1;
        }
        proof {
            lemma_segment_start_bounds(v@, end as int);
        }
        assert(segment_start(v@, end as int) == start);
        let ghost seg = v@.subrange(start as int, end as int);
        if end - start == 0 || (end - start == 1 && v[start] == '.') {
            assert(seg.len() == 0 || seg =~= seq!['.']);
            if start == 0 {
                return None;
            }
            end = start - 1;
        } else if end - start == 2 && v[start] == '.' && v[start + 1] == '.' {
            assert(seg =~= seq!['.', '.']);
            return None;
        } else {
            assert(seg.len() != 0);
            assert(seg != seq!['.']) by {
                if seg == seq!['.'] {
                    assert(seg.len() == 1 && seg[0] == v@[start as int]);
                }
            }
            assert(seg != seq!['.', '.']) by {
                if seg == seq!['.', '.'] {
                    assert(seg[0] == v@[start as int] && seg[1] == v@[start + 1]);
                }
            }
            return Some(string_of_range(&v, start, end));
        }
    }
}

/// Records the name of the file `path` as the `filename` attribute, when
/// the path has one.
#[verifier::rlimit(50)]
pub fn add_filename_attr(path: &str, attrs: &mut AttrMap)
    requires
        old(attrs).wf(),
    ensures
        final(attrs).wf(),
        match file_name_spec(path@) {
            Some(n) => final(attrs)@ == old(attrs)@.insert("filename"@, n),
            None => final(attrs)@ == old(attrs)@,
        },
{
    match file_name(path) {
        Some(name) => attrs.insert("filename".to_owned(), name),
        None => {},
    }
}

/// Reading an attribute after `attr KEY=VALUE`: a user attribute that was
/// set reads back as the value written, and every other field or attribute
/// reads as it did before.
pub proof fn lemma_set_then_read(
    m: MetaView,
    written: Map<Seq<char>, Seq<char>>,
    key: Seq<char>,
    with_preview: bool,
)
    ensures
        writable_key(key) && written.contains_key(key) ==> attr_value_spec(
            with_attrs(m, m.attrs.union_prefer_right(written)),
            key,
            with_preview,
        ) == Some(written[key]),
        !written.contains_key(key) ==> attr_value_spec(
            with_attrs(m, m.attrs.union_prefer_right(written)),
            key,
            with_preview,
        ) == attr_value_spec(m, key, with_preview),
{
}

/// Reading an attribute after `attr --unset KEY`: a user attribute that was
/// removed reads as missing, and every other field or attribute reads as it
/// did before.
pub proof fn lemma_unset_then_read(m: MetaView, removed: Set<Seq<char>>, key: Seq<char>, with_preview: bool)
    ensures
        writable_key(key) && removed.contains(key) ==> attr_value_spec(
            with_attrs(m, m.attrs.remove_keys(removed)),
            key,
            with_preview,
        ) is None,
        !removed.contains(key) ==> attr_value_spec(
            with_attrs(m, m.attrs.remove_keys(removed)),
            key,
            with_preview,
        ) == attr_value_spec(m, key, with_preview),
{
}

} // verus!
