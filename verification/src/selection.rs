//! Which attributes a listing shows as columns and which ones an entry
//! must carry to be listed, from the `--attr` values `name`, `+name` and
//! `++name`.
use vstd::prelude::*;

use crate::meta::AttrMap;
use crate::text::{chars_of, string_of_range, str_eq, trim, trim_bounds};

verus! {

/// The attributes a listing shows and filters on.
pub struct MetaSelection {
    /// Show every attribute.
    pub show_all: bool,
    /// Attributes shown as columns, in the order first named.
    pub display_tags: Vec<String>,
    /// Attributes an entry must have to be listed, in the order first named.
    pub filter_tags: Vec<String>,
}

/// Why `--attr` values were refused.
#[derive(Clone, Copy, Debug, PartialEq, Eq, Structural)]
pub enum SelectionError {
    /// A value holds `,` or `=`, or is blank.
    InvalidAttrValue,
    /// `++` with no name after it.
    EmptyFilterDisplay,
    /// `+` with no name after it.
    EmptyFilter,
}

impl SelectionError {
    /// The message that reports this error.
    #[verifier::rlimit(50)]
    pub fn message(&self) -> (r: &'static str)
        ensures
            r@ == (match *self {
                SelectionError::InvalidAttrValue => "--attr accepts name, +name, or ++name and is repeatable"@,
                SelectionError::EmptyFilterDisplay => "--attr filter+display must be ++name"@,
                SelectionError::EmptyFilter => "--attr filter must be +name"@,
            }),
    {
        match self {
            SelectionError::InvalidAttrValue => "--attr accepts name, +name, or ++name and is repeatable",
            SelectionError::EmptyFilterDisplay => "--attr filter+display must be ++name",
            SelectionError::EmptyFilter => "--attr filter must be +name",
        }
    }
}

/// `l` with `k` added at the end unless it is already there.
pub open spec fn push_new(l: Seq<Seq<char>>, k: Seq<char>) -> Seq<Seq<char>> {
    if l.contains(k) {
        l
    } else {
        l.push(k)
    }
}

/// One `--attr` value added to the shown and filtering lists: `++name`
/// both shows and filters on `name`, `+name` shows it, and a plain `name`
/// filters on it; each list keeps the first naming of an attribute.  A
/// value that holds `,` or `=`, is blank, or names no attribute after `+`
/// or `++` is refused.
pub open spec fn selection_step(lists: (Seq<Seq<char>>, Seq<Seq<char>>), v: Seq<char>) -> Result<
    (Seq<Seq<char>>, Seq<Seq<char>>),
    SelectionError,
> {
    let d = lists.0;
    let f = lists.1;
    if v.contains(',') || v.contains('=') || trim(v).len() == 0 {
        Err(SelectionError::InvalidAttrValue)
    } else if v.len() >= 2 && v[0] == '+' && v[1] == '+' {
        let k = v.skip(2);
        if k.len() == 0 {
            Err(SelectionError::EmptyFilterDisplay)
        } else {
            Ok((push_new(d, k), push_new(f, k)))
        }
    } else if v.len() >= 1 && v[0] == '+' {
        let k = v.skip(1);
        if k.len() == 0 {
            Err(SelectionError::EmptyFilter)
        } else {
            Ok((push_new(d, k), f))
        }
    } else {
        Ok((d, push_new(f, v)))
    }
}

/// The shown and filtering attributes named by `values`, taken in turn
/// (see [`selection_step`]); the first refused value decides the error.
pub open spec fn selection_spec(values: Seq<Seq<char>>) -> Result<
    (Seq<Seq<char>>, Seq<Seq<char>>),
    SelectionError,
>
    decreases values.len(),
{
    if values.len() == 0 {
        Ok((Seq::empty(), Seq::empty()))
    } else {
        match selection_spec(values.drop_last()) {
            Err(e) => Err(e),
            Ok(lists) => selection_step(lists, values.last()),
        }
    }
}

/// The views of a list of strings.
pub open spec fn strs(v: Seq<String>) -> Seq<Seq<char>> {
    v.map_values(|s: String| s@)
}

/// Adds `k` to `l` unless it is already there.
#[verifier::rlimit(50)]
fn push_unique(l: &mut Vec<String>, k: String)
    ensures
        strs(final(l)@) == push_new(strs(old(l)@), k@),
{
    let mut i: usize = 0;
    while i < l.len()
        invariant
            i <= l.len(),
            forall|j: int| 0 <= j < i ==> l@[j]@ != k@,
        decreases l.len() - i,
    {
        if str_eq(l[i].as_str(), k.as_str()) {
            assert(strs(l@)[i as int] == k@);
            return;
        }
        i += 1;
    }
    proof {
        if strs(l@).contains(k@) {
            let j = choose|j: int| 0 <= j < strs(l@).len() && strs(l@)[j] == k@;
            assert(l@[j]@ == k@);
        }
    }
    let ghost before = l@;
    l.push(k);
    assert(strs(l@) =~= strs(before).push(k@));
}

/// Whether `v` holds the character `c`.
#[verifier::rlimit(50)]
fn has_char(v: &Vec<char>, c: char) -> (r: bool)
    ensures
        r == v@.contains(c),
{
    let mut i: usize = 0;
    while i < v.len()
        invariant
            i <= v.len(),
            forall|j: int| 0 <= j < i ==> v@[j] != c,
        decreases v.len() - i,
    {
        if v[i] == c {
            return true;
        }
        i += 1;
    }
    false
}

/// Adds one `--attr` value to the lists (see [`selection_step`]).
#[verifier::rlimit(50)]
fn add_selection_value(display: &mut Vec<String>, filter: &mut Vec<String>, value: &String) -> (r:
    Result<(), SelectionError>)
    ensures
        match r {
            Ok(_) => selection_step((strs(old(display)@), strs(old(filter)@)), value@) == Ok::<
                (Seq<Seq<char>>, Seq<Seq<char>>),
                SelectionError,
            >((strs(final(display)@), strs(final(filter)@))),
            Err(e) => selection_step((strs(old(display)@), strs(old(filter)@)), value@) == Err::<
                (Seq<Seq<char>>, Seq<Seq<char>>),
                SelectionError,
            >(e),
        },
{
    let v = chars_of(value.as_str());
    let (a, b) = trim_bounds(&v, 0, v.len());
    assert(v@.subrange(0, v@.len() as int) == v@);
    if has_char(&v, ',') || has_char(&v, '=') || a == b {
        return Err(SelectionError::InvalidAttrValue);
    }
    if v.len() >= 2 && v[0] == '+' && v[1] == '+' {
        if v.len() == 2 {
            return Err(SelectionError::EmptyFilterDisplay);
        }
        let key = string_of_range(&v, 2, v.len());
        assert(key@ =~= v@.skip(2));
        push_unique(display, key.clone());
        push_unique(filter, key);
    } else if v.len() >= 1 && v[0] == '+' {
        if v.len() == 1 {
            return Err(SelectionError::EmptyFilter);
        }
        let key = string_of_range(&v, 1, v.len());
        assert(key@ =~= v@.skip(1));
        push_unique(display, key);
    } else {
        push_unique(filter, value.clone());
    }
    Ok(())
}

/// The attributes shown and filtered on, from the `--attr` values (see
/// [`selection_spec`]); `show_all` asks for every attribute.
#[verifier::rlimit(50)]
pub fn parse_meta_selection(values: &Vec<String>, show_all: bool) -> (r: Result<
    MetaSelection,
    SelectionError,
>)
    ensures
        match r {
            Ok(sel) => sel.show_all == show_all && selection_spec(strs(values@)) == Ok::<
                (Seq<Seq<char>>, Seq<Seq<char>>),
                SelectionError,
            >((strs(sel.display_tags@), strs(sel.filter_tags@))),
            Err(e) => selection_spec(strs(values@)) == Err::<
                (Seq<Seq<char>>, Seq<Seq<char>>),
                SelectionError,
            >(e),
        },
{
    let ghost vs = strs(values@);
    let mut display: Vec<String> = Vec::new();
    let mut filter: Vec<String> = Vec::new();
    let mut i: usize = 0;
    proof {
        assert(vs.take(0) =~= Seq::<Seq<char>>::empty());
        assert(strs(display@) =~= Seq::<Seq<char>>::empty());
        assert(strs(filter@) =~= Seq::<Seq<char>>::empty());
    }
    while i < values.len()
        invariant
            i <= values.len(),
            vs == strs(values@),
            selection_spec(vs.take(i as int)) == Ok::<
                (Seq<Seq<char>>, Seq<Seq<char>>),
                SelectionError,
            >((strs(display@), strs(filter@))),
        decreases values.len() - i,
    {
        proof {
            assert(vs.take(i + 1).drop_last() =~= vs.take(i as int));
            assert(vs.take(i + 1).last() == values@[i as int]@);
        }
        match add_selection_value(&mut display, &mut filter, &values[i]) {
            Ok(_) => {},
            Err(e) => {
                proof {
                    lemma_selection_error_sticks(vs, (i + 1) as int);
                }
                return Err(e);
            },
        }
        i += 1;
    }
    proof {
        assert(vs.take(values.len() as int) =~= vs);
    }
    Ok(MetaSelection { show_all, display_tags: display, filter_tags: filter })
}

/// An error on a prefix of the values is the error on all of them.
#[verifier::rlimit(50)]
proof fn lemma_selection_error_sticks(vs: Seq<Seq<char>>, k: int)
    requires
        0 <= k <= vs.len(),
        selection_spec(vs.take(k)) is Err,
    ensures
        selection_spec(vs) == selection_spec(vs.take(k)),
    decreases vs.len() - k,
{
    if k < vs.len() {
        assert(vs.take(k + 1).drop_last() =~= vs.take(k));
        lemma_selection_error_sticks(vs, k + 1);
    } else {
        assert(vs.take(k) =~= vs);
    }
}

/// Whether an entry with attributes `attrs` passes the filter of `sel`:
/// it carries every filtering attribute.
#[verifier::rlimit(50)]
pub fn matches_meta(attrs: &AttrMap, sel: &MetaSelection) -> (r: bool)
    requires
        attrs.wf(),
    ensures
        r == forall|i: int|
            0 <= i < sel.filter_tags@.len() ==> attrs@.contains_key(#[trigger] sel.filter_tags@[i]@),
{
    let mut i: usize = 0;
    while i < sel.filter_tags.len()
        invariant
            attrs.wf(),
            i <= sel.filter_tags.len(),
            forall|j: int| 0 <= j < i ==> attrs@.contains_key(#[trigger] sel.filter_tags@[j]@),
        decreases sel.filter_tags.len() - i,
    {
        if !attrs.contains_key(sel.filter_tags[i].as_str()) {
            return false;
        }
        i += 1;
    }
    true
}

} // verus!
