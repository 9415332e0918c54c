//! The decisions of the command-line commands: reading `key=value`
//! arguments and attribute filters, what `attr`, `rm` and `path` do with
//! their arguments, and the texts they show.
use vstd::prelude::*;

use crate::meta::{AttrMap, Meta, MetaView};
use crate::selection::{matches_meta, strs, MetaSelection};
use crate::strmap::StrMap;
use crate::display::{attr_value, attr_value_spec, esc_out, escape_attr_output, is_writable_attr_key, opt_str_view, writable_key};
use crate::paths::{attr_dir, data_dir, entry_attr_path, entry_data_path, join_spec};
use crate::text::{chars_of, dec_int, dec_nat, i64_to_dec, lower_seq, push_str, str_eq, string_of_range, to_lower, trim, trim_bounds, trim_string, usize_to_dec};

verus! {

// ---------------------------------------------------------------------------
// Splitting at a character
// ---------------------------------------------------------------------------

/// The position of the first `c` in `s`, if any.
pub open spec fn first_index(s: Seq<char>, c: char) -> Option<int> {
    if s.contains(c) {
        Some(choose|i: int| 0 <= i < s.len() && s[i] == c && forall|j: int| 0 <= j < i ==> s[j] != c)
    } else {
        None
    }
}

/// `s` cut at its first `c`: the part before and the part after.
pub open spec fn split_once_spec(s: Seq<char>, c: char) -> Option<(Seq<char>, Seq<char>)> {
    match first_index(s, c) {
        Some(i) => Some((s.take(i), s.skip(i + 1))),
        None => None,
    }
}

/// `s` cut at its first `c` (see [`split_once_spec`]).
#[verifier::rlimit(50)]
pub fn split_once_char(s: &str, c: char) -> (r: Option<(String, String)>)
    ensures
        match r {
            Some(p) => split_once_spec(s@, c) == Some((p.0@, p.1@)),
            None => split_once_spec(s@, c) is None,
        },
{
    let v = chars_of(s);
    let mut i: usize = 0;
    while i < v.len()
        invariant
            i <= v.len(),
            v@ == s@,
            forall|j: int| 0 <= j < i ==> v@[j] != c,
        decreases v.len() - i,
    {
        if v[i] == c {
            proof {
                let k = choose|k: int| 0 <= k < s@.len() && s@[k] == c && forall|j: int| 0 <= j < k ==> s@[j] != c;
                assert(0 <= i < s@.len() && s@[i as int] == c);
                if k < i {
                    assert(v@[k] != c);
                } else if k > i {
                    assert(s@[i as int] != c);
                }
            }
            let a = string_of_range(&v, 0, i);
            let b = string_of_range(&v, i + 1, v.len());
            assert(a@ =~= s@.take(i as int));
            assert(b@ =~= s@.skip(i + 1));
            return Some((a, b));
        }
        i += 1;
    }
    None
}

// ---------------------------------------------------------------------------
// `key=value` arguments
// ---------------------------------------------------------------------------

/// Why command-line values were refused.
#[derive(Clone, Copy, Debug, PartialEq, Eq, Structural)]
pub enum ArgError {
    /// An attribute to set has no `=`.
    AttributeNotKeyValue,
    /// `--print` names no known target.
    InvalidPrintTarget,
    /// An attribute filter is blank or holds `,`.
    InvalidAttrFilter,
}

impl ArgError {
    /// The message that reports this error.
    #[verifier::rlimit(50)]
    pub fn message(&self) -> (r: &'static str)
        ensures
            r@ == (match *self {
                ArgError::AttributeNotKeyValue => "attribute must be key=value"@,
                ArgError::InvalidPrintTarget => "--print must be stdout, stderr, null, 1, 2, or 0"@,
                ArgError::InvalidAttrFilter => "--attr accepts name or name=value and is repeatable"@,
            }),
    {
        match self {
            ArgError::AttributeNotKeyValue => "attribute must be key=value",
            ArgError::InvalidPrintTarget => "--print must be stdout, stderr, null, 1, 2, or 0",
            ArgError::InvalidAttrFilter => "--attr accepts name or name=value and is repeatable",
        }
    }
}

/// The attributes that `key=value` values set, later values winning; `None`
/// when one of them has no `=`.
pub open spec fn flags_spec(values: Seq<Seq<char>>) -> Option<Map<Seq<char>, Seq<char>>>
    decreases values.len(),
{
    if values.len() == 0 {
        Some(Map::empty())
    } else {
        match (flags_spec(values.drop_last()), split_once_spec(values.last(), '=')) {
            (Some(m), Some(kv)) => Some(m.insert(kv.0, kv.1)),
            _ => None,
        }
    }
}

/// The attributes set by `key=value` values (see [`flags_spec`]).
#[verifier::rlimit(50)]
pub fn parse_meta_flags(values: &Vec<String>) -> (r: Result<AttrMap, ArgError>)
    ensures
        match r {
            Ok(m) => m.wf() && flags_spec(strs(values@)) == Some(m@),
            Err(e) => flags_spec(strs(values@)) is None && e == ArgError::AttributeNotKeyValue,
        },
{
    let ghost vs = strs(values@);
    let mut attrs: AttrMap = StrMap::new();
    let mut i: usize = 0;
    proof {
        assert(vs.take(0) =~= Seq::<Seq<char>>::empty());
    }
    while i < values.len()
        invariant
            i <= values.len(),
            vs == strs(values@),
            attrs.wf(),
            flags_spec(vs.take(i as int)) == Some(attrs@),
        decreases values.len() - i,
    {
        proof {
            assert(vs.take(i + 1).drop_last() =~= vs.take(i as int));
            assert(vs.take(i + 1).last() == values@[i as int]@);
        }
        match split_once_char(values[i].as_str(), '=') {
            Some((k, v)) => {
                attrs.insert(k, v);
            },
            None => {
                proof {
                    lemma_flags_none_sticks(vs, (i + 1) as int);
                }
                return Err(ArgError::AttributeNotKeyValue);
            },
        }
        i += 1;
    }
    proof {
        assert(vs.take(values.len() as int) =~= vs);
    }
    Ok(attrs)
}

#[verifier::rlimit(50)]
proof fn lemma_flags_none_sticks(vs: Seq<Seq<char>>, k: int)
    requires
        0 <= k <= vs.len(),
        flags_spec(vs.take(k)) is None,
    ensures
        flags_spec(vs) is None,
    decreases vs.len() - k,
{
    if k < vs.len() {
        assert(vs.take(k + 1).drop_last() =~= vs.take(k));
        lemma_flags_none_sticks(vs, k + 1);
    } else {
        assert(vs.take(k) =~= vs);
    }
}

/// Where the id of a new entry is printed.
#[derive(Clone, Copy, Debug, PartialEq, Eq, Structural)]
pub enum PrintTarget {
    Stdout,
    Stderr,
    Null,
}

/// The target that a `--print` value names: `stdout` or `1`, `stderr` or
/// `2`, `null` or `0`.
pub open spec fn print_target_spec(v: Seq<char>) -> Option<PrintTarget> {
    if v == "stdout"@ || v == "1"@ {
        Some(PrintTarget::Stdout)
    } else if v == "stderr"@ || v == "2"@ {
        Some(PrintTarget::Stderr)
    } else if v == "null"@ || v == "0"@ {
        Some(PrintTarget::Null)
    } else {
        None
    }
}

/// The target that a `--print` value names (see [`print_target_spec`]).
#[verifier::rlimit(50)]
pub fn parse_print_target(value: &str) -> (r: Result<PrintTarget, ArgError>)
    ensures
        match r {
            Ok(t) => print_target_spec(value@) == Some(t),
            Err(e) => print_target_spec(value@) is None && e == ArgError::InvalidPrintTarget,
        },
{
    if str_eq(value, "stdout") || str_eq(value, "1") {
        Ok(PrintTarget::Stdout)
    } else if str_eq(value, "stderr") || str_eq(value, "2") {
        Ok(PrintTarget::Stderr)
    } else if str_eq(value, "null") || str_eq(value, "0") {
        Ok(PrintTarget::Null)
    } else {
        Err(ArgError::InvalidPrintTarget)
    }
}

// ---------------------------------------------------------------------------
// Attribute filters (`rm --attr`, `cat --attr`)
// ---------------------------------------------------------------------------

/// An attribute an entry must have, with the value it must have if given.
pub struct AttrMatchFilter {
    pub key: String,
    pub value: Option<String>,
}

/// The mathematical value of a filter.
pub open spec fn filter_view(f: AttrMatchFilter) -> (Seq<char>, Option<Seq<char>>) {
    (
        f.key@,
        match f.value {
            Some(v) => Some(v@),
            None => None,
        },
    )
}

/// The filter that one value gives: `name=value` (cut at the first `=`)
/// or `name`; `None` when the value is blank or holds `,`.
pub open spec fn filter_of(v: Seq<char>) -> Option<(Seq<char>, Option<Seq<char>>)> {
    if trim(v).len() == 0 || v.contains(',') {
        None
    } else {
        match split_once_spec(v, '=') {
            Some(kv) => Some((kv.0, Some(kv.1))),
            None => Some((v, None)),
        }
    }
}

/// The filters that `name` and `name=value` values give (cut at the first
/// `=`); `None` when a value is blank or holds `,`.
pub open spec fn filters_spec(values: Seq<Seq<char>>) -> Option<Seq<(Seq<char>, Option<Seq<char>>)>>
    decreases values.len(),
{
    if values.len() == 0 {
        Some(Seq::empty())
    } else {
        match filters_spec(values.drop_last()) {
            None => None,
            Some(fs) => match filter_of(values.last()) {
                Some(f) => Some(fs.push(f)),
                None => None,
            },
        }
    }
}

/// The views of a list of filters.
pub open spec fn filter_views(fs: Seq<AttrMatchFilter>) -> Seq<(Seq<char>, Option<Seq<char>>)> {
    fs.map_values(|f: AttrMatchFilter| filter_view(f))
}

/// The filter of one `--attr` value (see [`filter_of`]).
#[verifier::rlimit(50)]
fn parse_one_filter(value: &String) -> (r: Option<AttrMatchFilter>)
    ensures
        match r {
            Some(f) => filter_of(value@) == Some(filter_view(f)),
            None => filter_of(value@) is None,
        },
{
    let v = chars_of(value.as_str());
    let (a, b) = trim_bounds(&v, 0, v.len());
    assert(v@.subrange(0, v@.len() as int) == v@);
    let mut comma = false;
    let mut j: usize = 0;
    while j < v.len()
        invariant
            j <= v.len(),
            comma == exists|q: int| 0 <= q < j && v@[q] == ',',
        decreases v.len() - j,
    {
        if v[j] == ',' {
            comma = true;
        }
        j += 1;
    }
    proof {
        if v@.contains(',') {
            let q = choose|q: int| 0 <= q < v@.len() && v@[q] == ',';
            assert(comma);
        }
        if comma {
            let q = choose|q: int| 0 <= q < j && v@[q] == ',';
            assert(v@.contains(','));
        }
    }
    if a == b || comma {
        return None;
    }
    match split_once_char(value.as_str(), '=') {
        Some((k, val)) => Some(AttrMatchFilter { key: k, value: Some(val) }),
        None => Some(AttrMatchFilter { key: value.clone(), value: None }),
    }
}

/// The filters of `--attr` values (see [`filters_spec`]).
#[verifier::rlimit(50)]
pub fn parse_attr_match_filters(values: &Vec<String>) -> (r: Result<Vec<AttrMatchFilter>, ArgError>)
    ensures
        match r {
            Ok(fs) => filters_spec(strs(values@)) == Some(filter_views(fs@)),
            Err(e) => filters_spec(strs(values@)) is None && e == ArgError::InvalidAttrFilter,
        },
{
    let ghost vs = strs(values@);
    let mut out: Vec<AttrMatchFilter> = Vec::new();
    let mut i: usize = 0;
    proof {
        assert(vs.take(0) =~= Seq::<Seq<char>>::empty());
        assert(filter_views(out@) =~= Seq::<(Seq<char>, Option<Seq<char>>)>::empty());
    }
    while i < values.len()
        invariant
            i <= values.len(),
            vs == strs(values@),
            filters_spec(vs.take(i as int)) == Some(filter_views(out@)),
        decreases values.len() - i,
    {
        proof {
            assert(vs.take(i + 1).drop_last() =~= vs.take(i as int));
            assert(vs.take(i + 1).last() == values@[i as int]@);
        }
        match parse_one_filter(&values[i]) {
            Some(f) => {
                let ghost before = out@;
                out.push(f);
                proof {
                    assert(filter_views(out@) =~= filter_views(before).push(filter_view(out@.last())));
                }
            },
            None => {
                proof {
                    lemma_filters_none_sticks(vs, (i + 1) as int);
                }
                return Err(ArgError::InvalidAttrFilter);
            },
        }
        i += 1;
    }
    proof {
        assert(vs.take(values.len() as int) =~= vs);
    }
    Ok(out)
}

#[verifier::rlimit(50)]
proof fn lemma_filters_none_sticks(vs: Seq<Seq<char>>, k: int)
    requires
        0 <= k <= vs.len(),
        filters_spec(vs.take(k)) is None,
    ensures
        filters_spec(vs) is None,
    decreases vs.len() - k,
{
    if k < vs.len() {
        assert(vs.take(k + 1).drop_last() =~= vs.take(k));
        lemma_filters_none_sticks(vs, k + 1);
    } else {
        assert(vs.take(k) =~= vs);
    }
}

/// Whether attributes `attrs` pass filter `f`.
pub open spec fn passes(attrs: Map<Seq<char>, Seq<char>>, f: (Seq<char>, Option<Seq<char>>)) -> bool {
    match f.1 {
        Some(v) => attrs.contains_key(f.0) && attrs[f.0] == v,
        None => attrs.contains_key(f.0),
    }
}

/// Whether attributes pass every filter.
#[verifier::rlimit(50)]
pub fn matches_attr_match_filters(attrs: &AttrMap, filters: &Vec<AttrMatchFilter>) -> (r: bool)
    requires
        attrs.wf(),
    ensures
        r == forall|i: int| 0 <= i < filters@.len() ==> passes(attrs@, #[trigger] filter_view(filters@[i])),
{
    let mut i: usize = 0;
    while i < filters.len()
        invariant
            attrs.wf(),
            i <= filters.len(),
            forall|j: int| 0 <= j < i ==> passes(attrs@, #[trigger] filter_view(filters@[j])),
        decreases filters.len() - i,
    {
        let f = &filters[i];
        let ok = match &f.value {
            Some(v) => match attrs.get(f.key.as_str()) {
                Some(have) => str_eq(have.as_str(), v.as_str()),
                None => false,
            },
            None => attrs.contains_key(f.key.as_str()),
        };
        if !ok {
            assert(!passes(attrs@, filter_view(filters@[i as int])));
            return false;
        }
        i += 1;
    }
    true
}

/// The attribute that `cat --pocket` filters on.
pub const POCKET_ATTR: &'static str = "pocket";

/// The `--attr` values followed by `pocket=VALUE` for each `--pocket` value.
#[verifier::rlimit(50)]
pub fn merged_pocket_filters(attrs: &Vec<String>, pockets: &Vec<String>) -> (r: Vec<String>)
    ensures
        strs(r@) == strs(attrs@) + strs(pockets@).map_values(|p: Seq<char>| "pocket="@ + p),
{
    let mut out: Vec<String> = Vec::new();
    let mut i: usize = 0;
    while i < attrs.len()
        invariant
            i <= attrs.len(),
            strs(out@) == strs(attrs@).take(i as int),
        decreases attrs.len() - i,
    {
        let ghost before = out@;
        let a = attrs[i].clone();
        out.push(a);
        proof {
            assert(out@ == before.push(a));
            assert(strs(out@) =~= strs(before).push(a@));
            assert(strs(attrs@)[i as int] == a@);
            assert(strs(attrs@).take(i + 1) =~= strs(attrs@).take(i as int).push(a@));
        }
        i += 1;
    }
    let mut j: usize = 0;
    while j < pockets.len()
        invariant
            j <= pockets.len(),
            strs(out@) == strs(attrs@) + strs(pockets@).map_values(|p: Seq<char>| "pocket="@ + p).take(
                j as int,
            ),
        decreases pockets.len() - j,
    {
        let ghost before = out@;
        let mut s = String::new();
        push_str(&mut s, "pocket=");
        push_str(&mut s, pockets[j].as_str());
        out.push(s);
        proof {
            let pm = strs(pockets@).map_values(|p: Seq<char>| "pocket="@ + p);
            assert(strs(out@) =~= strs(before).push(s@));
            assert(pm[j as int] == s@);
            assert(pm.take(j + 1) =~= pm.take(j as int).push(s@));
            assert(strs(out@) =~= strs(attrs@) + pm.take(j + 1));
        }
        j += 1;
    }
    assert(strs(attrs@).take(attrs.len() as int) =~= strs(attrs@));
    assert(strs(pockets@).map_values(|p: Seq<char>| "pocket="@ + p).take(pockets.len() as int)
        =~= strs(pockets@).map_values(|p: Seq<char>| "pocket="@ + p));
    out
}

// ---------------------------------------------------------------------------
// Listing
// ---------------------------------------------------------------------------

/// The views of a list of entries.
pub open spec fn metas(items: Seq<Meta>) -> Seq<MetaView> {
    items.map_values(|m: Meta| m@)
}

/// The entries that carry every filtering attribute of `sel`, in order.
pub open spec fn selected(items: Seq<MetaView>, filter: Seq<Seq<char>>) -> Seq<MetaView>
    decreases items.len(),
{
    if items.len() == 0 {
        Seq::empty()
    } else {
        let prev = selected(items.drop_last(), filter);
        if forall|i: int| 0 <= i < filter.len() ==> items.last().attrs.contains_key(#[trigger] filter[i]) {
            prev.push(items.last())
        } else {
            prev
        }
    }
}

/// The entries a listing shows: those passing the filter of `sel`, in
/// reverse order when asked, cut to `limit` entries when it is not 0.
pub open spec fn collected(items: Seq<MetaView>, filter: Seq<Seq<char>>, reverse: bool, limit: nat) -> Seq<
    MetaView,
> {
    let s = selected(items, filter);
    let o = if reverse {
        s.reverse()
    } else {
        s
    };
    if limit > 0 && o.len() > limit {
        o.take(limit as int)
    } else {
        o
    }
}

/// The entries in reverse order.
#[verifier::rlimit(50)]
fn reversed(items: Vec<Meta>) -> (r: Vec<Meta>)
    ensures
        r@ == items@.reverse(),
{
    let ghost orig = items@;
    let mut rest = items;
    let mut out: Vec<Meta> = Vec::new();
    while rest.len() > 0
        invariant
            rest@ == orig.take(rest@.len() as int),
            out@ == orig.reverse().take(orig.len() - rest@.len()),
            rest@.len() <= orig.len(),
        decreases rest.len(),
    {
        let ghost n = rest@.len();
        match rest.pop() {
            Some(m) => {
                proof {
                    assert(m == orig[n - 1]);
                }
                out.push(m);
                assert(rest@ =~= orig.take(n - 1));
                assert(out@ =~= orig.reverse().take(orig.len() - (n - 1)));
            },
            None => {},
        }
    }
    assert(out@ =~= orig.reverse());
    out
}

/// Filters, orders and limits the entry list for `ls` and `log` (see
/// [`collected`]).
#[verifier::rlimit(50)]
pub fn collect_entries(items: Vec<Meta>, sel: &MetaSelection, reverse: bool, limit: usize) -> (r: Vec<
    Meta,
>)
    requires
        forall|i: int| 0 <= i < items@.len() ==> (#[trigger] items@[i]).wf(),
    ensures
        metas(r@) == collected(metas(items@), strs(sel.filter_tags@), reverse, limit as nat),
        forall|i: int| 0 <= i < r@.len() ==> (#[trigger] r@[i]).wf(),
{
    let ghost all = metas(items@);
    let ghost fl = strs(sel.filter_tags@);
    let mut kept: Vec<Meta> = Vec::new();
    let mut rest = items;
    let ghost mut i: int = 0;
    proof {
        assert(all.take(0) =~= Seq::<MetaView>::empty());
        assert(metas(kept@) =~= Seq::<MetaView>::empty());
        assert(metas(rest@) =~= all.skip(0));
    }
    while rest.len() > 0
        invariant
            0 <= i <= all.len(),
            metas(rest@) == all.skip(i),
            metas(kept@) == selected(all.take(i), fl),
            fl == strs(sel.filter_tags@),
            forall|j: int| 0 <= j < rest@.len() ==> (#[trigger] rest@[j]).wf(),
            forall|j: int| 0 <= j < kept@.len() ==> (#[trigger] kept@[j]).wf(),
        decreases rest.len(),
    {
        let ghost old_rest = rest@;
        proof {
            assert(metas(old_rest).len() == old_rest.len());
        }
        let m = rest.remove(0);
        proof {
            assert forall|j: int| 0 <= j < rest@.len() implies #[trigger] metas(rest@)[j] == all.skip(i + 1)[j] by {
                assert(rest@[j] == old_rest[j + 1]);
                assert(all.skip(i + 1)[j] == all.skip(i)[j + 1]);
            }
            assert(metas(rest@) =~= all.skip(i + 1));
            assert(metas(old_rest)[0] == all.skip(i)[0]);
            assert(all.take(i + 1).drop_last() =~= all.take(i));
            assert(all.take(i + 1).last() == m@);
            assert forall|j: int| 0 <= j < rest@.len() implies (#[trigger] rest@[j]).wf() by {
                assert(rest@[j] == old_rest[j + 1]);
            }
            assert(old_rest[0].wf());
        }
        let ghost before = kept@;
        let ok = matches_meta(&m.attrs, sel);
        proof {
            if ok {
                assert forall|q: int| 0 <= q < fl.len() implies m@.attrs.contains_key(#[trigger] fl[q]) by {
                    assert(fl[q] == sel.filter_tags@[q]@);
                    assert(m.attrs@.contains_key(sel.filter_tags@[q]@));
                }
            } else {
                let w = choose|w: int| 0 <= w < sel.filter_tags@.len() && !m.attrs@.contains_key(
                    #[trigger] sel.filter_tags@[w]@,
                );
                assert(fl[w] == sel.filter_tags@[w]@);
            }
        }
        if ok {
            kept.push(m);
            assert(metas(kept@) =~= metas(before).push(m@));
        }
        proof {
            i = i + 1;
        }
    }
    proof {
        assert(all.skip(i).len() == 0);
        assert(all.take(i) =~= all);
    }
    if reverse {
        kept = reversed(kept);
    }
    if limit > 0 && kept.len() > limit {
        let ghost before = kept@;
        kept.truncate(limit);
        assert(metas(kept@) =~= metas(before).take(limit as int));
    }
    kept
}

// ---------------------------------------------------------------------------
// `attr`
// ---------------------------------------------------------------------------

/// What `stash attr` was asked to do.
pub enum AttrPlan {
    /// Remove these attributes.
    Unset(Vec<String>),
    /// Set these attributes.
    Assign(AttrMap),
    /// Show attributes.
    Read,
}

/// Why `stash attr` refused its arguments or could not answer.
#[derive(Clone, Debug, PartialEq, Eq)]
pub enum AttrCommandError {
    /// `--unset` together with keys or pairs.
    UnsetWithItems,
    /// Keys to read together with pairs to write.
    MixedReadsWrites,
    /// A key that users may not set (the fixed fields, or a badly formed
    /// name).
    NotWritable(String),
    /// A key asked for that the entry does not have (named when several
    /// keys were asked for).
    NotFound(Option<String>),
}

/// The contracts' view of an `attr` error.
pub enum AttrErrView {
    UnsetWithItems,
    MixedReadsWrites,
    NotWritable(Seq<char>),
    NotFound(Option<Seq<char>>),
}

/// The view of an `attr` error.
pub open spec fn attr_err_view(e: AttrCommandError) -> AttrErrView {
    match e {
        AttrCommandError::UnsetWithItems => AttrErrView::UnsetWithItems,
        AttrCommandError::MixedReadsWrites => AttrErrView::MixedReadsWrites,
        AttrCommandError::NotWritable(k) => AttrErrView::NotWritable(k@),
        AttrCommandError::NotFound(k) => AttrErrView::NotFound(opt_str_view(k)),
    }
}

/// The shape of what `stash attr` does: `Unset` with the keys, `Assign` with
/// the attributes, or `Read`.
pub enum PlanView {
    Unset(Seq<Seq<char>>),
    Assign(Map<Seq<char>, Seq<char>>),
    Read,
}

/// The view of a plan.
pub open spec fn plan_view(p: AttrPlan) -> PlanView {
    match p {
        AttrPlan::Unset(keys) => PlanView::Unset(strs(keys@)),
        AttrPlan::Assign(m) => PlanView::Assign(m@),
        AttrPlan::Read => PlanView::Read,
    }
}

/// The first key of `keys` that may not be set, if any.
pub open spec fn first_unwritable(keys: Seq<Seq<char>>) -> Option<Seq<char>>
    decreases keys.len(),
{
    if keys.len() == 0 {
        None
    } else {
        match first_unwritable(keys.drop_last()) {
            Some(k) => Some(k),
            None => if writable_key(keys.last()) {
                None
            } else {
                Some(keys.last())
            },
        }
    }
}

/// The key of a `key=value` item.
pub open spec fn pair_key(p: Seq<char>) -> Seq<char> {
    match split_once_spec(p, '=') {
        Some(kv) => kv.0,
        None => p,
    }
}

/// What `stash attr` does with its keys or pairs (`items`) and `--unset`
/// keys: `--unset` alone removes those keys (all must be settable);
/// pairs alone (items with `=`) set attributes (cut at the first `=`, keys
/// settable, later pairs winning); keys alone or nothing shows attributes;
/// any mix is refused.
pub open spec fn attr_plan_spec(items: Seq<Seq<char>>, unset: Seq<Seq<char>>) -> Result<
    PlanView,
    AttrErrView,
> {
    if unset.len() > 0 {
        if items.len() > 0 {
            Err(AttrErrView::UnsetWithItems)
        } else {
            match first_unwritable(unset) {
                Some(k) => Err(AttrErrView::NotWritable(k)),
                None => Ok(PlanView::Unset(unset)),
            }
        }
    } else {
        let has_writes = exists|i: int| 0 <= i < items.len() && (#[trigger] items[i]).contains('=');
        let has_reads = exists|i: int| 0 <= i < items.len() && !(#[trigger] items[i]).contains('=');
        if has_writes && has_reads {
            Err(AttrErrView::MixedReadsWrites)
        } else if has_writes {
            match first_unwritable(items.map_values(|p: Seq<char>| pair_key(p))) {
                Some(k) => Err(AttrErrView::NotWritable(k)),
                None => Ok(PlanView::Assign(flags_spec(items).unwrap())),
            }
        } else {
            Ok(PlanView::Read)
        }
    }
}

/// The first unsettable key of `keys[..n]`, scanning in order.
#[verifier::rlimit(50)]
fn find_unwritable(keys: &Vec<String>) -> (r: Option<usize>)
    ensures
        match r {
            Some(i) => i < keys@.len() && first_unwritable(strs(keys@)) == Some(keys@[i as int]@),
            None => first_unwritable(strs(keys@)) is None,
        },
{
    let ghost ks = strs(keys@);
    let mut i: usize = 0;
    assert(ks.take(0) =~= Seq::<Seq<char>>::empty());
    while i < keys.len()
        invariant
            i <= keys.len(),
            ks == strs(keys@),
            first_unwritable(ks.take(i as int)) is None,
        decreases keys.len() - i,
    {
        proof {
            assert(ks.take(i + 1).drop_last() =~= ks.take(i as int));
            assert(ks.take(i + 1).last() == keys@[i as int]@);
        }
        if !is_writable_attr_key(keys[i].as_str()) {
            proof {
                lemma_first_unwritable_prefix(ks, (i + 1) as int);
            }
            return Some(i);
        }
        i += 1;
    }
    assert(ks.take(keys.len() as int) =~= ks);
    None
}

#[verifier::rlimit(50)]
proof fn lemma_first_unwritable_prefix(ks: Seq<Seq<char>>, k: int)
    requires
        0 <= k <= ks.len(),
        first_unwritable(ks.take(k)) is Some,
    ensures
        first_unwritable(ks) == first_unwritable(ks.take(k)),
    decreases ks.len() - k,
{
    if k < ks.len() {
        assert(ks.take(k + 1).drop_last() =~= ks.take(k));
        lemma_first_unwritable_prefix(ks, k + 1);
    } else {
        assert(ks.take(k) =~= ks);
    }
}

/// Whether `s` holds `=`.
#[verifier::rlimit(50)]
fn has_eq(s: &str) -> (r: bool)
    ensures
        r == s@.contains('='),
{
    let v = chars_of(s);
    let mut i: usize = 0;
    while i < v.len()
        invariant
            i <= v.len(),
            v@ == s@,
            forall|j: int| 0 <= j < i ==> v@[j] != '=',
        decreases v.len() - i,
    {
        if v[i] == '=' {
            return true;
        }
        i += 1;
    }
    false
}

/// Decides what `stash attr` does (see [`attr_plan_spec`]).
#[verifier::rlimit(50)]
pub fn plan_attr_command(items: &Vec<String>, unset: &Vec<String>) -> (r: Result<AttrPlan, AttrCommandError>)
    ensures
        match r {
            Ok(p) => attr_plan_spec(strs(items@), strs(unset@)) == Ok::<PlanView, AttrErrView>(plan_view(p))
                && (p matches AttrPlan::Assign(m) ==> m.wf()),
            Err(e) => attr_plan_spec(strs(items@), strs(unset@)) == Err::<PlanView, AttrErrView>(
                attr_err_view(e),
            ),
        },
{
    let ghost is = strs(items@);
    if unset.len() > 0 {
        if items.len() > 0 {
            return Err(AttrCommandError::UnsetWithItems);
        }
        return match find_unwritable(unset) {
            Some(i) => Err(AttrCommandError::NotWritable(unset[i].clone())),
            None => {
                let mut keys: Vec<String> = Vec::new();
                let mut j: usize = 0;
                while j < unset.len()
                    invariant
                        j <= unset.len(),
                        strs(keys@) == strs(unset@).take(j as int),
                    decreases unset.len() - j,
                {
                    let ghost before = keys@;
                    let k = unset[j].clone();
                    keys.push(k);
                    proof {
                        assert(strs(keys@) =~= strs(before).push(k@));
                        assert(strs(unset@).take(j + 1) =~= strs(unset@).take(j as int).push(k@));
                    }
                    j += 1;
                }
                assert(strs(unset@).take(unset.len() as int) =~= strs(unset@));
                Ok(AttrPlan::Unset(keys))
            },
        };
    }
    let mut writes = false;
    let mut reads = false;
    let mut i: usize = 0;
    while i < items.len()
        invariant
            i <= items.len(),
            is == strs(items@),
            writes == exists|q: int| 0 <= q < i && (#[trigger] is[q]).contains('='),
            reads == exists|q: int| 0 <= q < i && !(#[trigger] is[q]).contains('='),
        decreases items.len() - i,
    {
        assert(is[i as int] == items@[i as int]@);
        if has_eq(items[i].as_str()) {
            writes = true;
        } else {
            reads = true;
        }
        i += 1;
    }
    if writes && reads {
        return Err(AttrCommandError::MixedReadsWrites);
    }
    if !writes {
        return Ok(AttrPlan::Read);
    }
    // every item holds `=`
    let mut keys: Vec<String> = Vec::new();
    let mut i: usize = 0;
    while i < items.len()
        invariant
            i <= items.len(),
            is == strs(items@),
            !(exists|q: int| 0 <= q < items@.len() && !(#[trigger] is[q]).contains('=')),
            strs(keys@) == is.map_values(|p: Seq<char>| pair_key(p)).take(i as int),
        decreases items.len() - i,
    {
        assert(is[i as int] == items@[i as int]@);
        assert(is[i as int].contains('='));
        let k = match split_once_char(items[i].as_str(), '=') {
            Some(kv) => kv.0,
            None => items[i].clone(),
        };
        let ghost before = keys@;
        keys.push(k);
        proof {
            let pk = is.map_values(|p: Seq<char>| pair_key(p));
            assert(pk[i as int] == k@);
            assert(strs(keys@) =~= strs(before).push(k@));
            assert(pk.take(i + 1) =~= pk.take(i as int).push(k@));
        }
        i += 1;
    }
    proof {
        assert(is.map_values(|p: Seq<char>| pair_key(p)).take(items.len() as int) =~= is.map_values(
            |p: Seq<char>| pair_key(p),
        ));
    }
    match find_unwritable(&keys) {
        Some(j) => {
            return Err(AttrCommandError::NotWritable(keys[j].clone()));
        },
        None => {},
    }
    match parse_meta_flags(items) {
        Ok(m) => Ok(AttrPlan::Assign(m)),
        Err(_) => {
            proof {
                lemma_flags_some(is);
            }
            Ok(AttrPlan::Read)
        },
    }
}

/// Values that all hold `=` always give attributes.
#[verifier::rlimit(50)]
proof fn lemma_flags_some(vs: Seq<Seq<char>>)
    requires
        forall|q: int| 0 <= q < vs.len() ==> (#[trigger] vs[q]).contains('='),
    ensures
        flags_spec(vs) is Some,
    decreases vs.len(),
{
    if vs.len() > 0 {
        assert forall|q: int| 0 <= q < vs.drop_last().len() implies (#[trigger] vs.drop_last()[q]).contains('=') by {
            assert(vs.drop_last()[q] == vs[q]);
        }
        lemma_flags_some(vs.drop_last());
        assert(vs[vs.len() - 1].contains('='));
    }
}

/// The lines `key<sep>value` for the keys asked for, in order; the first
/// key the entry lacks is reported.
pub open spec fn keyed_lines(m: MetaView, keys: Seq<Seq<char>>, sep: Seq<char>, preview: bool) -> Result<
    Seq<Seq<char>>,
    AttrErrView,
>
    decreases keys.len(),
{
    if keys.len() == 0 {
        Ok(Seq::empty())
    } else {
        match keyed_lines(m, keys.drop_last(), sep, preview) {
            Err(e) => Err(e),
            Ok(ls) => match attr_value_spec(m, keys.last(), preview) {
                Some(v) => Ok(ls.push(keys.last() + sep + esc_out(v))),
                None => Err(AttrErrView::NotFound(Some(keys.last()))),
            },
        }
    }
}

/// The lines `key<sep>value` for the keys asked for, up to (not including)
/// the first key the entry lacks: what is shown before that key is
/// reported.
pub open spec fn lines_before_missing(m: MetaView, keys: Seq<Seq<char>>, sep: Seq<char>, preview: bool) -> Seq<
    Seq<char>,
>
    decreases keys.len(),
{
    if keys.len() == 0 {
        Seq::empty()
    } else {
        match keyed_lines(m, keys.drop_last(), sep, preview) {
            Ok(ls) => match attr_value_spec(m, keys.last(), preview) {
                Some(v) => ls.push(keys.last() + sep + esc_out(v)),
                None => ls,
            },
            Err(_) => lines_before_missing(m, keys.drop_last(), sep, preview),
        }
    }
}

/// The lines `key<sep>value` for every attribute, in key order.
pub open spec fn attr_pair_lines(ps: Seq<(Seq<char>, Seq<char>)>, sep: Seq<char>) -> Seq<Seq<char>> {
    ps.map_values(|p: (Seq<char>, Seq<char>)| p.0 + sep + esc_out(p.1))
}

/// What `stash attr` shows (not as JSON): with one key, its value alone;
/// with several, a `key<sep>value` line each; with none, the fixed fields,
/// every attribute, and the preview when asked for and not empty.  Values
/// are shown with [`esc_out`]; a key the entry lacks is an error.
pub open spec fn attr_lines_spec(
    m: MetaView,
    pairs: Seq<(Seq<char>, Seq<char>)>,
    items: Seq<Seq<char>>,
    sep: Seq<char>,
    preview: bool,
) -> Result<Seq<Seq<char>>, AttrErrView> {
    if items.len() == 1 {
        match attr_value_spec(m, items[0], preview) {
            Some(v) => Ok(seq![esc_out(v)]),
            None => Err(AttrErrView::NotFound(None)),
        }
    } else if items.len() > 1 {
        keyed_lines(m, items, sep, preview)
    } else {
        let fixed = seq![
            "id"@ + sep + lower_seq(m.id),
            "ts"@ + sep + m.ts,
            "size"@ + sep + dec_int(m.size as int),
        ];
        let all = fixed + attr_pair_lines(pairs, sep);
        if preview && m.preview.len() > 0 {
            Ok(all.push("preview"@ + sep + esc_out(m.preview)))
        } else {
            Ok(all)
        }
    }
}

/// The line `key<sep>value` with the value escaped for display.
#[verifier::rlimit(50)]
fn keyed_line(key: &str, sep: &str, value: &str) -> (r: String)
    ensures
        r@ == key@ + sep@ + esc_out(value@),
{
    let mut out = String::new();
    push_str(&mut out, key);
    push_str(&mut out, sep);
    let v = escape_attr_output(value);
    push_str(&mut out, v.as_str());
    out
}

/// What `stash attr` shows for an entry (see [`attr_lines_spec`]).
#[verifier::rlimit(50)]
pub fn attr_read_lines(meta: &Meta, items: &Vec<String>, separator: &str, preview: bool) -> (r: Result<
    Vec<String>,
    (Vec<String>, AttrCommandError),
>)
    requires
        meta.wf(),
    ensures
        match r {
            Ok(ls) => attr_lines_spec(meta@, meta.attrs.pairs(), strs(items@), separator@, preview)
                == Ok::<Seq<Seq<char>>, AttrErrView>(strs(ls@)),
            Err((ls, e)) => attr_lines_spec(meta@, meta.attrs.pairs(), strs(items@), separator@, preview)
                == Err::<Seq<Seq<char>>, AttrErrView>(attr_err_view(e)) && strs(ls@) == (if items@.len()
                > 1 {
                lines_before_missing(meta@, strs(items@), separator@, preview)
            } else {
                Seq::<Seq<char>>::empty()
            }),
        },
{
    let ghost is = strs(items@);
    if items.len() == 1 {
        assert(is[0] == items@[0]@);
        return match attr_value(meta, items[0].as_str(), preview) {
            Some(v) => {
                let line = escape_attr_output(v.as_str());
                let out = vec![line];
                assert(strs(out@) =~= seq![esc_out(v@)]);
                Ok(out)
            },
            None => {
                let none: Vec<String> = Vec::new();
                assert(strs(none@) =~= Seq::<Seq<char>>::empty());
                Err((none, AttrCommandError::NotFound(None)))
            },
        };
    }
    let mut out: Vec<String> = Vec::new();
    if items.len() > 1 {
        let mut i: usize = 0;
        assert(is.take(0) =~= Seq::<Seq<char>>::empty());
        assert(strs(out@) =~= Seq::<Seq<char>>::empty());
        while i < items.len()
            invariant
                meta.wf(),
                i <= items.len(),
                items.len() > 1,
                is == strs(items@),
                keyed_lines(meta@, is.take(i as int), separator@, preview) == Ok::<
                    Seq<Seq<char>>,
                    AttrErrView,
                >(strs(out@)),
            decreases items.len() - i,
        {
            proof {
                assert(is.take(i + 1).drop_last() =~= is.take(i as int));
                assert(is.take(i + 1).last() == items@[i as int]@);
            }
            match attr_value(meta, items[i].as_str(), preview) {
                Some(v) => {
                    let line = keyed_line(items[i].as_str(), separator, v.as_str());
                    let ghost before = out@;
                    out.push(line);
                    assert(strs(out@) =~= strs(before).push(line@));
                },
                None => {
                    proof {
                        lemma_keyed_err_sticks(meta@, is, separator@, preview, (i + 1) as int);
                        lemma_before_missing_sticks(meta@, is, separator@, preview, (i + 1) as int);
                    }
                    return Err((out, AttrCommandError::NotFound(Some(items[i].clone()))));
                },
            }
            i += 1;
        }
        assert(is.take(items.len() as int) =~= is);
        return Ok(out);
    }
    proof {
        reveal_strlit("id");
        reveal_strlit("ts");
        reveal_strlit("size");
        reveal_strlit("preview");
    }
    let id = meta.display_id();
    let l0 = keyed_plain("id", separator, id.as_str());
    let l1 = keyed_plain("ts", separator, meta.ts.as_str());
    let size = i64_to_dec(meta.size);
    let l2 = keyed_plain("size", separator, size.as_str());
    out.push(l0);
    out.push(l1);
    out.push(l2);
    let ghost fixed = strs(out@);
    assert(fixed =~= seq![
        "id"@ + separator@ + lower_seq(meta@.id),
        "ts"@ + separator@ + meta@.ts,
        "size"@ + separator@ + dec_int(meta@.size as int),
    ]);
    let n = meta.attrs.len();
    let mut j: usize = 0;
    while j < n
        invariant
            meta.wf(),
            n == meta.attrs.pairs().len(),
            j <= n,
            strs(out@) == fixed + attr_pair_lines(meta.attrs.pairs().take(j as int), separator@),
        decreases n - j,
    {
        let line = keyed_line(meta.attrs.key_at(j).as_str(), separator, meta.attrs.value_at(j).as_str());
        let ghost before = out@;
        out.push(line);
        proof {
            meta.attrs.lemma_values();
            assert(strs(out@) =~= strs(before).push(line@));
            assert(attr_pair_lines(meta.attrs.pairs().take(j + 1), separator@) =~= attr_pair_lines(
                meta.attrs.pairs().take(j as int),
                separator@,
            ).push(line@));
        }
        j += 1;
    }
    assert(meta.attrs.pairs().take(n as int) =~= meta.attrs.pairs());
    if preview && !meta.preview.as_str().is_empty() {
        let line = keyed_line("preview", separator, meta.preview.as_str());
        let ghost before = out@;
        out.push(line);
        assert(strs(out@) =~= strs(before).push(line@));
    }
    Ok(out)
}

/// The line `key<sep>value` with the value as it is.
#[verifier::rlimit(50)]
fn keyed_plain(key: &str, sep: &str, value: &str) -> (r: String)
    ensures
        r@ == key@ + sep@ + value@,
{
    let mut out = String::new();
    push_str(&mut out, key);
    push_str(&mut out, sep);
    push_str(&mut out, value);
    out
}

#[verifier::rlimit(50)]
proof fn lemma_keyed_err_sticks(m: MetaView, ks: Seq<Seq<char>>, sep: Seq<char>, preview: bool, k: int)
    requires
        0 <= k <= ks.len(),
        keyed_lines(m, ks.take(k), sep, preview) is Err,
    ensures
        keyed_lines(m, ks, sep, preview) == keyed_lines(m, ks.take(k), sep, preview),
    decreases ks.len() - k,
{
    if k < ks.len() {
        assert(ks.take(k + 1).drop_last() =~= ks.take(k));
        lemma_keyed_err_sticks(m, ks, sep, preview, k + 1);
    } else {
        assert(ks.take(k) =~= ks);
    }
}

#[verifier::rlimit(50)]
proof fn lemma_before_missing_sticks(m: MetaView, ks: Seq<Seq<char>>, sep: Seq<char>, preview: bool, k: int)
    requires
        1 <= k <= ks.len(),
        keyed_lines(m, ks.take(k - 1), sep, preview) is Ok,
        attr_value_spec(m, ks[k - 1], preview) is None,
    ensures
        lines_before_missing(m, ks, sep, preview) == keyed_lines(m, ks.take(k - 1), sep, preview)->Ok_0,
    decreases ks.len() - k,
{
    assert(ks.take(k).drop_last() =~= ks.take(k - 1));
    assert(ks.take(k).last() == ks[k - 1]);
    assert(keyed_lines(m, ks.take(k), sep, preview) is Err);
    assert(lines_before_missing(m, ks.take(k), sep, preview) == keyed_lines(m, ks.take(k - 1), sep, preview)->Ok_0);
    if k < ks.len() {
        lemma_before_missing_sticks_from(m, ks, sep, preview, k, ks.len() as int);
    } else {
        assert(ks.take(k) =~= ks);
    }
}

#[verifier::rlimit(50)]
proof fn lemma_before_missing_sticks_from(
    m: MetaView,
    ks: Seq<Seq<char>>,
    sep: Seq<char>,
    preview: bool,
    k: int,
    j: int,
)
    requires
        1 <= k < j <= ks.len(),
        keyed_lines(m, ks.take(k), sep, preview) is Err,
        lines_before_missing(m, ks.take(k), sep, preview) == keyed_lines(m, ks.take(k - 1), sep, preview)->Ok_0,
    ensures
        lines_before_missing(m, ks.take(j), sep, preview) == keyed_lines(m, ks.take(k - 1), sep, preview)->Ok_0,
        keyed_lines(m, ks.take(j), sep, preview) is Err,
        j == ks.len() ==> lines_before_missing(m, ks, sep, preview) == keyed_lines(m, ks.take(k - 1), sep, preview)->Ok_0,
    decreases j - k,
{
    if j > k + 1 {
        lemma_before_missing_sticks_from(m, ks, sep, preview, k, j - 1);
    }
    assert(ks.take(j).drop_last() =~= ks.take(j - 1));
    if j == ks.len() {
        assert(ks.take(j) =~= ks);
    }
}

// ---------------------------------------------------------------------------
// `rm`
// ---------------------------------------------------------------------------

/// What `stash rm` was asked to remove.
pub enum RmPlan {
    /// The entries that pass these attribute filters.
    ByAttr(Vec<AttrMatchFilter>),
    /// The entries older than this reference.
    Before(String),
    /// The entries newer than this reference.
    After(String),
    /// The entries these references name.
    Refs,
}

/// Why `stash rm` refused its arguments.
#[derive(Clone, Copy, Debug, PartialEq, Eq, Structural)]
pub enum RmError {
    /// Both `--before` and `--after`.
    BeforeAndAfter,
    /// `--attr` with references, `--before` or `--after`.
    AttrWithOthers,
    /// References with `--before` or `--after`.
    RefsWithRange,
    /// Nothing to remove was named.
    NoRef,
    /// An attribute filter is blank or holds `,`.
    InvalidFilter,
}

impl RmError {
    /// The message that reports this error.
    #[verifier::rlimit(50)]
    pub fn message(&self) -> (r: &'static str)
        ensures
            r@ == (match *self {
                RmError::BeforeAndAfter => "rm accepts at most one of --before or --after"@,
                RmError::AttrWithOthers => "rm accepts either <ref>..., --before, --after, or --attr"@,
                RmError::RefsWithRange => "rm accepts either <ref>..., --before, or --after"@,
                RmError::NoRef => "rm requires at least one ref"@,
                RmError::InvalidFilter => "--attr accepts name or name=value and is repeatable"@,
            }),
    {
        match self {
            RmError::BeforeAndAfter => "rm accepts at most one of --before or --after",
            RmError::AttrWithOthers => "rm accepts either <ref>..., --before, --after, or --attr",
            RmError::RefsWithRange => "rm accepts either <ref>..., --before, or --after",
            RmError::NoRef => "rm requires at least one ref",
            RmError::InvalidFilter => "--attr accepts name or name=value and is repeatable",
        }
    }
}

/// The shape of an `rm` plan.
pub enum RmPlanView {
    ByAttr(Seq<(Seq<char>, Option<Seq<char>>)>),
    Before(Seq<char>),
    After(Seq<char>),
    Refs,
}

/// The view of an `rm` plan.
pub open spec fn rm_plan_view(p: RmPlan) -> RmPlanView {
    match p {
        RmPlan::ByAttr(fs) => RmPlanView::ByAttr(filter_views(fs@)),
        RmPlan::Before(r) => RmPlanView::Before(r@),
        RmPlan::After(r) => RmPlanView::After(r@),
        RmPlan::Refs => RmPlanView::Refs,
    }
}

/// What `stash rm` removes: the entries passing `--attr` filters, or those
/// older than `--before`, or newer than `--after`, or the ones the
/// references name; these ways may not be combined, and one must be used.
pub open spec fn rm_plan_spec(
    refs: Seq<Seq<char>>,
    before: Option<Seq<char>>,
    after: Option<Seq<char>>,
    attr: Seq<Seq<char>>,
) -> Result<RmPlanView, RmError> {
    if before is Some && after is Some {
        Err(RmError::BeforeAndAfter)
    } else if attr.len() > 0 {
        if refs.len() > 0 || before is Some || after is Some {
            Err(RmError::AttrWithOthers)
        } else {
            match filters_spec(attr) {
                Some(fs) => Ok(RmPlanView::ByAttr(fs)),
                None => Err(RmError::InvalidFilter),
            }
        }
    } else if before is Some {
        if refs.len() > 0 {
            Err(RmError::RefsWithRange)
        } else {
            Ok(RmPlanView::Before(before.unwrap()))
        }
    } else if after is Some {
        if refs.len() > 0 {
            Err(RmError::RefsWithRange)
        } else {
            Ok(RmPlanView::After(after.unwrap()))
        }
    } else if refs.len() == 0 {
        Err(RmError::NoRef)
    } else {
        Ok(RmPlanView::Refs)
    }
}

/// Decides what `stash rm` removes (see [`rm_plan_spec`]).
#[verifier::rlimit(50)]
pub fn plan_rm(refs: &Vec<String>, before: Option<String>, after: Option<String>, attr: &Vec<String>) -> (r:
    Result<RmPlan, RmError>)
    ensures
        match r {
            Ok(p) => rm_plan_spec(strs(refs@), opt_str_view(before), opt_str_view(after), strs(attr@))
                == Ok::<RmPlanView, RmError>(rm_plan_view(p)),
            Err(e) => rm_plan_spec(strs(refs@), opt_str_view(before), opt_str_view(after), strs(attr@))
                == Err::<RmPlanView, RmError>(e),
        },
{
    if before.is_some() && after.is_some() {
        return Err(RmError::BeforeAndAfter);
    }
    if attr.len() > 0 {
        if refs.len() > 0 || before.is_some() || after.is_some() {
            return Err(RmError::AttrWithOthers);
        }
        return match parse_attr_match_filters(attr) {
            Ok(fs) => Ok(RmPlan::ByAttr(fs)),
            Err(_) => Err(RmError::InvalidFilter),
        };
    }
    match before {
        Some(b) => {
            if refs.len() > 0 {
                return Err(RmError::RefsWithRange);
            }
            return Ok(RmPlan::Before(b));
        },
        None => {},
    }
    match after {
        Some(a) => {
            if refs.len() > 0 {
                return Err(RmError::RefsWithRange);
            }
            return Ok(RmPlan::After(a));
        },
        None => {},
    }
    if refs.len() == 0 {
        return Err(RmError::NoRef);
    }
    Ok(RmPlan::Refs)
}

/// The ids of `ids` without repeats, each where it first occurs.
pub open spec fn first_occurrences(ids: Seq<Seq<char>>) -> Seq<Seq<char>>
    decreases ids.len(),
{
    if ids.len() == 0 {
        Seq::empty()
    } else {
        crate::selection::push_new(first_occurrences(ids.drop_last()), ids.last())
    }
}

/// The resolved ids without repeats, in the order first named.
#[verifier::rlimit(50)]
pub fn unique_ids(ids: &Vec<String>) -> (r: Vec<String>)
    ensures
        strs(r@) == first_occurrences(strs(ids@)),
{
    let ghost is = strs(ids@);
    let mut out: Vec<String> = Vec::new();
    let mut i: usize = 0;
    assert(is.take(0) =~= Seq::<Seq<char>>::empty());
    assert(strs(out@) =~= Seq::<Seq<char>>::empty());
    while i < ids.len()
        invariant
            i <= ids.len(),
            is == strs(ids@),
            strs(out@) == first_occurrences(is.take(i as int)),
        decreases ids.len() - i,
    {
        proof {
            assert(is.take(i + 1).drop_last() =~= is.take(i as int));
            assert(is.take(i + 1).last() == ids@[i as int]@);
        }
        let mut seen = false;
        let mut j: usize = 0;
        while j < out.len()
            invariant
                j <= out.len(),
                i < ids.len(),
                seen == exists|q: int| 0 <= q < j && out@[q]@ == ids@[i as int]@,
            decreases out.len() - j,
        {
            if str_eq(out[j].as_str(), ids[i].as_str()) {
                seen = true;
            }
            j += 1;
        }
        proof {
            if strs(out@).contains(ids@[i as int]@) {
                let q = choose|q: int| 0 <= q < strs(out@).len() && strs(out@)[q] == ids@[i as int]@;
                assert(out@[q]@ == ids@[i as int]@);
            }
            if seen {
                let q = choose|q: int| 0 <= q < j && out@[q]@ == ids@[i as int]@;
                assert(strs(out@)[q] == ids@[i as int]@);
            }
        }
        if !seen {
            let ghost before = out@;
            let k = ids[i].clone();
            out.push(k);
            assert(strs(out@) =~= strs(before).push(k@));
        }
        i += 1;
    }
    assert(is.take(ids.len() as int) =~= is);
    out
}

/// The question `rm --before` / `--after` asks: `Remove 1 entry older than
/// REF? [y/N] ` or `Remove N entries older than REF? [y/N] ` (`newer`
/// for `--after`).
pub open spec fn range_prompt_spec(older: bool, reference: Seq<char>, count: nat) -> Seq<char> {
    let what = if count == 1 {
        "Remove 1 entry "@
    } else {
        "Remove "@ + dec_nat(count) + " entries "@
    };
    what + (if older {
        "older than "@
    } else {
        "newer than "@
    }) + reference + "? [y/N] "@
}

/// The question `rm --before` (`older`) or `--after` asks (see
/// [`range_prompt_spec`]).
#[verifier::rlimit(50)]
pub fn range_prompt(older: bool, reference: &str, count: usize) -> (r: String)
    ensures
        r@ == range_prompt_spec(older, reference@, count as nat),
{
    let mut out = String::new();
    if count == 1 {
        push_str(&mut out, "Remove 1 entry ");
    } else {
        push_str(&mut out, "Remove ");
        let n = usize_to_dec(count);
        push_str(&mut out, n.as_str());
        push_str(&mut out, " entries ");
    }
    if older {
        push_str(&mut out, "older than ");
    } else {
        push_str(&mut out, "newer than ");
    }
    push_str(&mut out, reference);
    push_str(&mut out, "? [y/N] ");
    out
}

/// Whether a reply to a question means yes: `y` or `yes` in any case,
/// around white space.
pub open spec fn is_yes_spec(reply: Seq<char>) -> bool {
    lower_seq(trim(reply)) == "y"@ || lower_seq(trim(reply)) == "yes"@
}

/// Whether a reply to a question means yes (see [`is_yes_spec`]).
#[verifier::rlimit(50)]
pub fn is_yes(reply: &str) -> (r: bool)
    ensures
        r == is_yes_spec(reply@),
{
    let t = trim_string(reply);
    let l = to_lower(t.as_str());
    str_eq(l.as_str(), "y") || str_eq(l.as_str(), "yes")
}

/// The listing `rm` shows before removing several entries: a header
/// `Remove N entry|entries REASON:`, then for each entry its short id, its
/// timestamp and, if it has one, its file name, each after two spaces.
pub open spec fn rm_list_spec(reason: Seq<char>, shorts: Seq<Seq<char>>, entries: Seq<MetaView>) -> Seq<
    Seq<char>,
> {
    let n = entries.len();
    let head = "Remove "@ + dec_nat(n) + (if n == 1 {
        " entry "@
    } else {
        " entries "@
    }) + reason + ":"@;
    seq![head] + Seq::new(
        n,
        |i: int|
            if entries[i].attrs.contains_key("filename"@) {
                "  "@ + shorts[i] + "  "@ + entries[i].ts + "  "@ + entries[i].attrs["filename"@]
            } else {
                "  "@ + shorts[i] + "  "@ + entries[i].ts
            },
    )
}

/// The listing `rm` shows before removing several entries (see
/// [`rm_list_spec`]), given the entries' short ids.
#[verifier::rlimit(50)]
pub fn rm_list_lines(reason: &str, entries: &Vec<Meta>, shorts: &Vec<String>) -> (r: Vec<String>)
    requires
        shorts@.len() == entries@.len(),
        forall|i: int| 0 <= i < entries@.len() ==> (#[trigger] entries@[i]).wf(),
    ensures
        strs(r@) == rm_list_spec(reason@, strs(shorts@), metas(entries@)),
{
    let ghost spec_lines = rm_list_spec(reason@, strs(shorts@), metas(entries@));
    let mut head = String::new();
    push_str(&mut head, "Remove ");
    let n = usize_to_dec(entries.len());
    push_str(&mut head, n.as_str());
    if entries.len() == 1 {
        push_str(&mut head, " entry ");
    } else {
        push_str(&mut head, " entries ");
    }
    push_str(&mut head, reason);
    push_str(&mut head, ":");
    let mut out: Vec<String> = Vec::new();
    out.push(head);
    let mut i: usize = 0;
    while i < entries.len()
        invariant
            i <= entries.len(),
            shorts@.len() == entries@.len(),
            forall|q: int| 0 <= q < entries@.len() ==> (#[trigger] entries@[q]).wf(),
            spec_lines == rm_list_spec(reason@, strs(shorts@), metas(entries@)),
            strs(out@) == spec_lines.take(i + 1),
        decreases entries.len() - i,
    {
        let e = &entries[i];
        assert(e.wf());
        let mut line = String::new();
        push_str(&mut line, "  ");
        push_str(&mut line, shorts[i].as_str());
        push_str(&mut line, "  ");
        push_str(&mut line, e.ts.as_str());
        match e.attrs.get("filename") {
            Some(name) => {
                push_str(&mut line, "  ");
                push_str(&mut line, name.as_str());
            },
            None => {},
        }
        let ghost before = out@;
        out.push(line);
        proof {
            assert(strs(out@) =~= strs(before).push(line@));
            assert(spec_lines[i + 1] == line@);
            assert(spec_lines.take(i + 2) =~= spec_lines.take(i + 1).push(line@));
        }
        i += 1;
    }
    assert(spec_lines.take(entries.len() + 1) =~= spec_lines);
    out
}

// ---------------------------------------------------------------------------
// `path`
// ---------------------------------------------------------------------------

/// The path `stash path` prints: with no entry, the base directory
/// (`--dir`), the attribute directory (`--attr`) or the data directory;
/// for an entry, its directory (attribute or data, with `--dir`) or its
/// attribute or data file.
pub open spec fn path_for_spec(base: Seq<char>, id: Option<Seq<char>>, dir: bool, attr: bool) -> Seq<char> {
    match id {
        None => if dir {
            base
        } else if attr {
            join_spec(base, "attr"@)
        } else {
            join_spec(base, "data"@)
        },
        Some(i) => if dir {
            if attr {
                join_spec(base, "attr"@)
            } else {
                join_spec(base, "data"@)
            }
        } else if attr {
            join_spec(join_spec(base, "attr"@), lower_seq(i))
        } else {
            join_spec(join_spec(base, "data"@), lower_seq(i))
        },
    }
}

/// The path `stash path` prints (see [`path_for_spec`]).
#[verifier::rlimit(50)]
pub fn path_for(base: &str, id: Option<&str>, dir: bool, attr: bool) -> (r: String)
    ensures
        r@ == path_for_spec(
            base@,
            match id {
                Some(i) => Some(i@),
                None => None,
            },
            dir,
            attr,
        ),
{
    match id {
        None => {
            if dir {
                base.to_owned()
            } else if attr {
                attr_dir(base)
            } else {
                data_dir(base)
            }
        },
        Some(i) => {
            if dir {
                if attr {
                    attr_dir(base)
                } else {
                    data_dir(base)
                }
            } else if attr {
                entry_attr_path(base, i)
            } else {
                entry_data_path(base, i)
            }
        },
    }
}

/// The references read from standard input: each line trimmed, blank ones
/// skipped.
pub open spec fn stdin_refs_spec(lines: Seq<Seq<char>>) -> Seq<Seq<char>>
    decreases lines.len(),
{
    if lines.len() == 0 {
        Seq::empty()
    } else {
        let prev = stdin_refs_spec(lines.drop_last());
        if trim(lines.last()).len() > 0 {
            prev.push(trim(lines.last()))
        } else {
            prev
        }
    }
}

/// The references in lines read from standard input (see
/// [`stdin_refs_spec`]).
#[verifier::rlimit(50)]
pub fn stdin_refs(lines: &Vec<String>) -> (r: Vec<String>)
    ensures
        strs(r@) == stdin_refs_spec(strs(lines@)),
{
    let ghost ls = strs(lines@);
    let mut out: Vec<String> = Vec::new();
    let mut i: usize = 0;
    assert(ls.take(0) =~= Seq::<Seq<char>>::empty());
    assert(strs(out@) =~= Seq::<Seq<char>>::empty());
    while i < lines.len()
        invariant
            i <= lines.len(),
            ls == strs(lines@),
            strs(out@) == stdin_refs_spec(ls.take(i as int)),
        decreases lines.len() - i,
    {
        proof {
            assert(ls.take(i + 1).drop_last() =~= ls.take(i as int));
            assert(ls.take(i + 1).last() == lines@[i as int]@);
        }
        let t = trim_string(lines[i].as_str());
        if !t.as_str().is_empty() {
            let ghost before = out@;
            out.push(t);
            assert(strs(out@) =~= strs(before).push(t@));
        }
        i += 1;
    }
    assert(ls.take(lines.len() as int) =~= ls);
    out
}

/// What a listing shows, described by position: with `reverse` the `j`-th
/// entry shown is the `j`-th oldest matching entry (the reversal comes
/// before the limit, so `ls -r -n N` shows the N oldest, oldest first);
/// without it, the `j`-th newest.  The limit cuts to `limit` entries when
/// it is not 0, and nothing else is dropped.
#[verifier::rlimit(50)]
pub proof fn lemma_collected_positions(items: Seq<MetaView>, filter: Seq<Seq<char>>, reverse: bool, limit: nat)
    ensures
        ({
            let s = selected(items, filter);
            let r = collected(items, filter, reverse, limit);
            &&& r.len() == (if limit > 0 && s.len() > limit { limit as int } else { s.len() as int })
            &&& forall|j: int| 0 <= j < r.len() ==> #[trigger] r[j] == (if reverse { s[s.len() - 1 - j] } else { s[j] })
        }),
{
}

/// Every entry a filter keeps carries all the filtering attributes, comes
/// from the listing, and every entry of the listing that carries them all
/// is kept.
#[verifier::rlimit(50)]
pub proof fn lemma_selected_members(items: Seq<MetaView>, filter: Seq<Seq<char>>)
    ensures
        forall|j: int| 0 <= j < selected(items, filter).len() ==> items.contains(#[trigger] selected(items, filter)[j])
            && forall|t: int| 0 <= t < filter.len() ==> selected(items, filter)[j].attrs.contains_key(#[trigger] filter[t]),
        forall|i: int|
            0 <= i < items.len() && (forall|t: int| 0 <= t < filter.len() ==> (#[trigger] items[i]).attrs.contains_key(
                #[trigger] filter[t],
            )) ==> selected(items, filter).contains(items[i]),
    decreases items.len(),
{
    if items.len() > 0 {
        let p = items.drop_last();
        lemma_selected_members(p, filter);
        let s = selected(items, filter);
        let sp = selected(p, filter);
        assert forall|j: int| 0 <= j < s.len() implies items.contains(#[trigger] s[j]) && forall|t: int|
            0 <= t < filter.len() ==> s[j].attrs.contains_key(#[trigger] filter[t]) by {
            if j < sp.len() {
                assert(s[j] == sp[j]);
                let k = choose|k: int| 0 <= k < p.len() && p[k] == sp[j];
                assert(items[k] == p[k]);
            } else {
                assert(s[j] == items.last());
                assert(items[items.len() - 1] == items.last());
            }
        }
        assert forall|i: int|
            0 <= i < items.len() && (forall|t: int| 0 <= t < filter.len() ==> (#[trigger] items[i]).attrs.contains_key(
                #[trigger] filter[t],
            )) implies s.contains(items[i]) by {
            if i < p.len() {
                assert(items[i] == p[i]);
                assert forall|t: int| 0 <= t < filter.len() implies p[i].attrs.contains_key(#[trigger] filter[t]) by {
                    assert(items[i].attrs.contains_key(filter[t]));
                }
                let k = choose|k: int| 0 <= k < sp.len() && sp[k] == p[i];
                assert(s[k] == sp[k]);
            } else {
                assert(items[i] == items.last());
                assert forall|t: int| 0 <= t < filter.len() implies items.last().attrs.contains_key(#[trigger] filter[t]) by {
                    assert(items[i].attrs.contains_key(filter[t]));
                }
                assert(s[s.len() - 1] == items.last());
            }
        }
    }
}

/// Whether an entry carries every attribute of `filter`.
pub open spec fn has_all_tags(m: MetaView, filter: Seq<Seq<char>>) -> bool {
    forall|t: int| 0 <= t < filter.len() ==> m.attrs.contains_key(#[trigger] filter[t])
}

/// A filter keeps, in their order, exactly the entries that carry all its
/// attributes.
#[verifier::rlimit(50)]
pub proof fn lemma_selected_is_filter(items: Seq<MetaView>, filter: Seq<Seq<char>>)
    ensures
        selected(items, filter) == items.filter(|m: MetaView| has_all_tags(m, filter)),
    decreases items.len(),
{
    reveal(Seq::filter);
    if items.len() > 0 {
        lemma_selected_is_filter(items.drop_last(), filter);
    }
}

} // verus!
