//! Entries made ready for display (`ls` and `log`): the id in the chosen
//! form, sizes, the date, the preview and the attributes shown, and the
//! `log` output with and without a `--format` template.
use vstd::prelude::*;

use crate::dates::{date_mode_spec, date_spec, format_date, ts_month_ok};
use crate::display::{
    colorized, esc_out, escape_attr_output, opt_str_view, preview_snippet, push_colorized,
    snippet_spec,
};
use crate::meta::{short_id_ok, short_id_spec, AttrMap, Meta, MetaView};
use crate::selection::{strs, MetaSelection};
use crate::size::{human_size, human_size_spec};
use crate::store::{ascii_digits_only, resolve_spec, StoreError};
use crate::text::{
    chars_of, dec_int, dec_nat, i64_to_dec, is_digit, is_ws, lemma_dec_nat_digits, lower_seq,
    parse_usize_spec, push_char, push_str, range_eq, str_eq, string_of_range, trim, trim_bounds,
    trim_end, trim_start, usize_to_dec,
};

verus! {

// ---------------------------------------------------------------------------
// Ids
// ---------------------------------------------------------------------------

/// The id of the entry at position `idx` in id mode `mode`: the full id
/// (lower-cased) for `full`, the 1-based position for `pos`, the short id
/// otherwise.
pub open spec fn display_id_spec(m: MetaView, idx: nat, mode: Seq<char>) -> Seq<char> {
    if mode == "full"@ {
        lower_seq(m.id)
    } else if mode == "pos"@ {
        dec_nat(idx + 1)
    } else {
        short_id_spec(m.id)
    }
}

/// The id shown for an entry (see [`display_id_spec`]).
#[verifier::rlimit(50)]
pub fn display_id(item: &Meta, idx: usize, mode: &str) -> (r: String)
    requires
        idx < usize::MAX,
        !(mode@ == "full"@ || mode@ == "pos"@) ==> short_id_ok(item.id@),
    ensures
        r@ == display_id_spec(item@, idx as nat, mode@),
{
    if str_eq(mode, "full") {
        item.display_id()
    } else if str_eq(mode, "pos") {
        usize_to_dec(idx + 1)
    } else {
        item.short_id()
    }
}

// ---------------------------------------------------------------------------
// Decorated entries
// ---------------------------------------------------------------------------

/// An entry ready for display.
pub struct DecoratedEntry {
    pub id: String,
    pub size_bytes: String,
    pub size_human: String,
    pub date: String,
    pub preview: String,
    pub filename: Option<String>,
    pub meta_vals: Vec<String>,
    pub meta_inline: String,
    pub log_attr_lines: Vec<(String, String)>,
}

/// The mathematical value of a [`DecoratedEntry`].
pub struct DecoratedView {
    pub id: Seq<char>,
    pub size_bytes: Seq<char>,
    pub size_human: Seq<char>,
    pub date: Seq<char>,
    pub preview: Seq<char>,
    pub filename: Option<Seq<char>>,
    pub meta_vals: Seq<Seq<char>>,
    pub meta_inline: Seq<char>,
    pub log_attr_lines: Seq<(Seq<char>, Seq<char>)>,
}

impl View for DecoratedEntry {
    type V = DecoratedView;

    open spec fn view(&self) -> DecoratedView {
        DecoratedView {
            id: self.id@,
            size_bytes: self.size_bytes@,
            size_human: self.size_human@,
            date: self.date@,
            preview: self.preview@,
            filename: match self.filename {
                Some(f) => Some(f@),
                None => None,
            },
            meta_vals: strs(self.meta_vals@),
            meta_inline: self.meta_inline@,
            log_attr_lines: self.log_attr_lines@.map_values(|p: (String, String)| (p.0@, p.1@)),
        }
    }
}

/// The strings of `ss` joined by `sep`.
pub open spec fn join(ss: Seq<Seq<char>>, sep: Seq<char>) -> Seq<char>
    decreases ss.len(),
{
    if ss.len() == 0 {
        Seq::empty()
    } else if ss.len() == 1 {
        ss[0]
    } else {
        join(ss.drop_last(), sep) + sep + ss.last()
    }
}

/// The attribute columns: the value of each shown attribute (escaped for
/// display), or a single space where the entry lacks it.
pub open spec fn meta_vals_spec(attrs: Map<Seq<char>, Seq<char>>, tags: Seq<Seq<char>>) -> Seq<Seq<char>> {
    tags.map_values(
        |t: Seq<char>|
            if attrs.contains_key(t) {
                esc_out(attrs[t])
            } else {
                " "@
            },
    )
}

/// The shown attributes an entry has, with their escaped values, in the
/// order named.
pub open spec fn tag_lines(attrs: Map<Seq<char>, Seq<char>>, tags: Seq<Seq<char>>) -> Seq<(Seq<char>, Seq<char>)>
    decreases tags.len(),
{
    if tags.len() == 0 {
        Seq::empty()
    } else {
        let prev = tag_lines(attrs, tags.drop_last());
        if attrs.contains_key(tags.last()) {
            prev.push((tags.last(), esc_out(attrs[tags.last()])))
        } else {
            prev
        }
    }
}

/// An entry at position `idx` made ready for display: the id in `id_mode`,
/// its size in bytes and for humans, its date in `date_mode`, its preview
/// cut to `chars`, its `filename` attribute, the shown attribute columns,
/// all attribute values on one line (when every attribute is shown), and
/// the attribute lines of `log` (all attributes, or the shown ones the
/// entry has).  `pairs` are the entry's attributes in key order.
pub open spec fn decorate_spec(
    m: MetaView,
    pairs: Seq<(Seq<char>, Seq<char>)>,
    idx: nat,
    id_mode: Seq<char>,
    date_mode: Seq<char>,
    chars: nat,
    show_all: bool,
    tags: Seq<Seq<char>>,
    now: Option<i64>,
) -> DecoratedView {
    DecoratedView {
        id: display_id_spec(m, idx, id_mode),
        size_bytes: dec_int(m.size as int),
        size_human: human_size_spec(m.size as int),
        date: date_spec(m.ts, date_mode, now),
        preview: if m.preview.len() == 0 {
            Seq::empty()
        } else {
            snippet_spec(m.preview, chars)
        },
        filename: if m.attrs.contains_key("filename"@) {
            Some(m.attrs["filename"@])
        } else {
            None
        },
        meta_vals: meta_vals_spec(m.attrs, tags),
        meta_inline: if show_all && pairs.len() > 0 {
            join(pairs.map_values(|p: (Seq<char>, Seq<char>)| esc_out(p.1)), "  "@)
        } else {
            Seq::empty()
        },
        log_attr_lines: if show_all {
            pairs.map_values(|p: (Seq<char>, Seq<char>)| (p.0, esc_out(p.1)))
        } else {
            tag_lines(m.attrs, tags)
        },
    }
}

/// The entry can be shown in these modes without the failures the display
/// code cannot handle: a short id cut inside a character, or a timestamp
/// whose month is not a month in the `ls` date format.
pub open spec fn decorate_ok(m: MetaView, id_mode: Seq<char>, date_mode: Seq<char>) -> bool {
    &&& !(id_mode == "full"@ || id_mode == "pos"@) ==> short_id_ok(m.id)
    &&& date_mode_spec(date_mode) == Some("ls"@) ==> ts_month_ok(m.ts)
}

/// An entry made ready for display (see [`decorate_spec`]); `now_secs` is
/// the current time, if the clock could be read.
#[verifier::rlimit(50)]
pub fn decorate_entry(
    item: &Meta,
    idx: usize,
    id_mode: &str,
    date_mode: &str,
    preview_chars: usize,
    meta_sel: &MetaSelection,
    now_secs: Option<i64>,
) -> (r: DecoratedEntry)
    requires
        item.wf(),
        idx < usize::MAX,
        decorate_ok(item@, id_mode@, date_mode@),
    ensures
        r@ == decorate_spec(
            item@,
            item.attrs.pairs(),
            idx as nat,
            id_mode@,
            date_mode@,
            preview_chars as nat,
            meta_sel.show_all,
            strs(meta_sel.display_tags@),
            now_secs,
        ),
{
    let ghost m = item@;
    let ghost tags = strs(meta_sel.display_tags@);
    let filename = match item.attrs.get("filename") {
        Some(f) => Some(f.clone()),
        None => None,
    };
    // attribute columns
    let mut meta_vals: Vec<String> = Vec::new();
    let mut i: usize = 0;
    while i < meta_sel.display_tags.len()
        invariant
            item.wf(),
            m == item@,
            tags == strs(meta_sel.display_tags@),
            i <= meta_sel.display_tags.len(),
            strs(meta_vals@) == meta_vals_spec(m.attrs, tags).take(i as int),
        decreases meta_sel.display_tags.len() - i,
    {
        let tag = meta_sel.display_tags[i].as_str();
        let v = match item.attrs.get(tag) {
            Some(value) => escape_attr_output(value.as_str()),
            None => " ".to_owned(),
        };
        let ghost before = meta_vals@;
        meta_vals.push(v);
        proof {
            reveal_strlit(" ");
            assert(tags[i as int] == tag@);
            assert(strs(meta_vals@) =~= strs(before).push(v@));
            assert(meta_vals_spec(m.attrs, tags).take(i + 1) =~= meta_vals_spec(m.attrs, tags).take(
                i as int,
            ).push(v@));
        }
        i += 1;
    }
    assert(meta_vals_spec(m.attrs, tags).take(meta_sel.display_tags.len() as int) =~= meta_vals_spec(
        m.attrs,
        tags,
    ));
    // all attribute values on one line
    let ghost ps = item.attrs.pairs();
    let ghost vals = ps.map_values(|p: (Seq<char>, Seq<char>)| esc_out(p.1));
    let n = item.attrs.len();
    let mut inline = String::new();
    if meta_sel.show_all && n > 0 {
        let mut j: usize = 0;
        while j < n
            invariant
                item.wf(),
                ps == item.attrs.pairs(),
                n == ps.len(),
                n > 0,
                vals == ps.map_values(|p: (Seq<char>, Seq<char>)| esc_out(p.1)),
                j <= n,
                inline@ == join(vals.take(j as int), "  "@),
            decreases n - j,
        {
            if j > 0 {
                push_str(&mut inline, "  ");
            }
            let v = escape_attr_output(item.attrs.value_at(j).as_str());
            push_str(&mut inline, v.as_str());
            proof {
                reveal_strlit("  ");
                item.attrs.lemma_values();
                assert(vals.take(j + 1).drop_last() =~= vals.take(j as int));
                assert(vals.take(j + 1).last() == v@);
                if j == 0 {
                    assert(vals.take(1) =~= seq![v@]);
                }
            }
            j += 1;
        }
        assert(vals.take(n as int) =~= vals);
    }
    // attribute lines of `log`
    let mut lines: Vec<(String, String)> = Vec::new();
    if meta_sel.show_all {
        let mut j: usize = 0;
        while j < n
            invariant
                item.wf(),
                ps == item.attrs.pairs(),
                n == ps.len(),
                j <= n,
                lines@.map_values(|p: (String, String)| (p.0@, p.1@)) == ps.map_values(
                    |p: (Seq<char>, Seq<char>)| (p.0, esc_out(p.1)),
                ).take(j as int),
            decreases n - j,
        {
            let k = item.attrs.key_at(j).clone();
            let v = escape_attr_output(item.attrs.value_at(j).as_str());
            let ghost before = lines@;
            lines.push((k, v));
            proof {
                item.attrs.lemma_values();
                assert(lines@.map_values(|p: (String, String)| (p.0@, p.1@)) =~= before.map_values(
                    |p: (String, String)| (p.0@, p.1@),
                ).push((k@, v@)));
                assert(ps.map_values(|p: (Seq<char>, Seq<char>)| (p.0, esc_out(p.1))).take(j + 1)
                    =~= ps.map_values(|p: (Seq<char>, Seq<char>)| (p.0, esc_out(p.1))).take(
                    j as int,
                ).push((k@, v@)));
            }
            j += 1;
        }
        assert(ps.map_values(|p: (Seq<char>, Seq<char>)| (p.0, esc_out(p.1))).take(n as int)
            =~= ps.map_values(|p: (Seq<char>, Seq<char>)| (p.0, esc_out(p.1))));
    } else {
        let mut j: usize = 0;
        assert(tags.take(0) =~= Seq::<Seq<char>>::empty());
        while j < meta_sel.display_tags.len()
            invariant
                item.wf(),
                m == item@,
                tags == strs(meta_sel.display_tags@),
                j <= meta_sel.display_tags.len(),
                lines@.map_values(|p: (String, String)| (p.0@, p.1@)) == tag_lines(
                    m.attrs,
                    tags.take(j as int),
                ),
            decreases meta_sel.display_tags.len() - j,
        {
            let tag = &meta_sel.display_tags[j];
            proof {
                assert(tags.take(j + 1).drop_last() =~= tags.take(j as int));
                assert(tags.take(j + 1).last() == tag@);
            }
            match item.attrs.get(tag.as_str()) {
                Some(value) => {
                    let v = escape_attr_output(value.as_str());
                    let ghost before = lines@;
                    lines.push((tag.clone(), v));
                    assert(lines@.map_values(|p: (String, String)| (p.0@, p.1@)) =~= before.map_values(
                        |p: (String, String)| (p.0@, p.1@),
                    ).push((tag@, v@)));
                },
                None => {},
            }
            j += 1;
        }
        assert(tags.take(meta_sel.display_tags.len() as int) =~= tags);
    }
    let preview = if item.preview.as_str().is_empty() {
        String::new()
    } else {
        preview_snippet(item.preview.as_str(), preview_chars)
    };
    let id = display_id(item, idx, id_mode);
    let size_bytes = i64_to_dec(item.size);
    let size_human = human_size(item.size);
    let date = format_date(item.ts.as_str(), date_mode, now_secs);
    DecoratedEntry {
        id,
        size_bytes,
        size_human,
        date,
        preview,
        filename,
        meta_vals,
        meta_inline: inline,
        log_attr_lines: lines,
    }
}

/// The entries made ready for display, each at its position (see
/// [`decorate_spec`]).
#[verifier::rlimit(50)]
pub fn decorate_entries(
    items: &Vec<Meta>,
    id_mode: &str,
    date_mode: &str,
    preview_chars: usize,
    meta_sel: &MetaSelection,
    now_secs: Option<i64>,
) -> (r: Vec<DecoratedEntry>)
    requires
        items@.len() < usize::MAX,
        forall|i: int|
            0 <= i < items@.len() ==> (#[trigger] items@[i]).wf() && decorate_ok(
                items@[i]@,
                id_mode@,
                date_mode@,
            ),
    ensures
        r@.len() == items@.len(),
        forall|i: int|
            0 <= i < items@.len() ==> (#[trigger] r@[i])@ == decorate_spec(
                items@[i]@,
                items@[i].attrs.pairs(),
                i as nat,
                id_mode@,
                date_mode@,
                preview_chars as nat,
                meta_sel.show_all,
                strs(meta_sel.display_tags@),
                now_secs,
            ),
{
    let mut out: Vec<DecoratedEntry> = Vec::new();
    let mut i: usize = 0;
    while i < items.len()
        invariant
            i <= items.len(),
            items@.len() < usize::MAX,
            out@.len() == i,
            forall|q: int|
                0 <= q < items@.len() ==> (#[trigger] items@[q]).wf() && decorate_ok(
                    items@[q]@,
                    id_mode@,
                    date_mode@,
                ),
            forall|q: int|
                0 <= q < i ==> (#[trigger] out@[q])@ == decorate_spec(
                    items@[q]@,
                    items@[q].attrs.pairs(),
                    q as nat,
                    id_mode@,
                    date_mode@,
                    preview_chars as nat,
                    meta_sel.show_all,
                    strs(meta_sel.display_tags@),
                    now_secs,
                ),
        decreases items.len() - i,
    {
        let d = decorate_entry(&items[i], i, id_mode, date_mode, preview_chars, meta_sel, now_secs);
        out.push(d);
        i += 1;
    }
    out
}

// ---------------------------------------------------------------------------
// `log --format`
// ---------------------------------------------------------------------------

/// The value of field `key` of the entry at position `idx` in a `log`
/// template: `id`, `short_id`, `stack_ref` (the 1-based position), `ts`,
/// `date`, `size`, `size_human`, and `preview` when not empty.
pub open spec fn template_value_spec(
    m: MetaView,
    idx: nat,
    date_mode: Seq<char>,
    chars: nat,
    key: Seq<char>,
    now: Option<i64>,
) -> Option<Seq<char>> {
    if key == "id"@ {
        Some(lower_seq(m.id))
    } else if key == "short_id"@ {
        Some(short_id_spec(m.id))
    } else if key == "stack_ref"@ {
        Some(dec_nat(idx + 1))
    } else if key == "ts"@ {
        Some(m.ts)
    } else if key == "date"@ {
        Some(date_spec(m.ts, date_mode, now))
    } else if key == "size"@ {
        Some(dec_int(m.size as int))
    } else if key == "size_human"@ {
        Some(human_size_spec(m.size as int))
    } else if key == "preview"@ {
        let p = snippet_spec(m.preview, chars);
        if p.len() > 0 {
            Some(p)
        } else {
            None
        }
    } else {
        None
    }
}

/// The field can be shown: a short id is cut at a character boundary, and
/// an `ls` date has a real month.
pub open spec fn template_key_ok(m: MetaView, date_mode: Seq<char>, key: Seq<char>) -> bool {
    &&& key == "short_id"@ ==> short_id_ok(m.id)
    &&& (key == "date"@ && date_mode_spec(date_mode) == Some("ls"@)) ==> ts_month_ok(m.ts)
}

/// The value of a template field (see [`template_value_spec`]).
#[verifier::rlimit(50)]
pub fn log_template_value(
    item: &Meta,
    idx: usize,
    date_mode: &str,
    chars: usize,
    key: &str,
    now_secs: Option<i64>,
) -> (r: Option<String>)
    requires
        idx < usize::MAX,
        template_key_ok(item@, date_mode@, key@),
    ensures
        crate::display::opt_str_view(r) == template_value_spec(
            item@,
            idx as nat,
            date_mode@,
            chars as nat,
            key@,
            now_secs,
        ),
{
    if str_eq(key, "id") {
        Some(item.display_id())
    } else if str_eq(key, "short_id") {
        Some(item.short_id())
    } else if str_eq(key, "stack_ref") {
        Some(usize_to_dec(idx + 1))
    } else if str_eq(key, "ts") {
        Some(item.ts.clone())
    } else if str_eq(key, "date") {
        Some(format_date(item.ts.as_str(), date_mode, now_secs))
    } else if str_eq(key, "size") {
        Some(i64_to_dec(item.size))
    } else if str_eq(key, "size_human") {
        Some(human_size(item.size))
    } else if str_eq(key, "preview") {
        let p = preview_snippet(item.preview.as_str(), chars);
        if p.as_str().is_empty() {
            None
        } else {
            Some(p)
        }
    } else {
        None
    }
}

/// The colour of a placeholder: ids in bold yellow, attributes in magenta.
pub open spec fn color_code_spec(expr: Seq<char>) -> Option<Seq<char>> {
    if expr == "id"@ || expr == "short_id"@ || expr == "stack_ref"@ {
        Some("1;33"@)
    } else if "attr:"@.is_prefix_of(expr) {
        Some("35"@)
    } else {
        None
    }
}

/// Whether `p` starts `s`.
#[verifier::rlimit(50)]
fn starts_with_str(s: &str, p: &str) -> (r: bool)
    ensures
        r == p@.is_prefix_of(s@),
{
    let v = chars_of(s);
    let w = chars_of(p);
    if w.len() > v.len() {
        return false;
    }
    let r = crate::text::range_eq(&v, 0, w.len(), &w);
    proof {
        if r {
            assert(w@ =~= v@.subrange(0, w@.len() as int));
        }
        if p@.is_prefix_of(s@) {
            assert(v@.subrange(0, w.len() as int) =~= w@);
        }
    }
    r
}

/// The colour of a placeholder (see [`color_code_spec`]).
#[verifier::rlimit(50)]
pub fn placeholder_color_code(expr: &str) -> (r: Option<&'static str>)
    ensures
        match r {
            Some(c) => color_code_spec(expr@) == Some(c@),
            None => color_code_spec(expr@) is None,
        },
{
    if str_eq(expr, "id") || str_eq(expr, "short_id") || str_eq(expr, "stack_ref") {
        Some("1;33")
    } else if starts_with_str(expr, "attr:") {
        Some("35")
    } else {
        None
    }
}

/// What a placeholder `{expr}` becomes: the value of attribute `key` for
/// `attr:key`, else of the field `expr`, coloured as
/// [`color_code_spec`] says; the placeholder itself when there is no value.
#[verifier::opaque]
pub open spec fn placeholder_spec(
    m: MetaView,
    idx: nat,
    date_mode: Seq<char>,
    chars: nat,
    color: bool,
    now: Option<i64>,
    expr: Seq<char>,
) -> Seq<char> {
    let value = if "attr:"@.is_prefix_of(expr) {
        let key = expr.skip(5);
        if m.attrs.contains_key(key) {
            Some(m.attrs[key])
        } else {
            None
        }
    } else {
        template_value_spec(m, idx, date_mode, chars, expr, now)
    };
    match value {
        Some(v) => match color_code_spec(expr) {
            Some(code) => colorized(v, code, color),
            None => v,
        },
        None => "{"@ + expr + "}"@,
    }
}

/// A `log` template filled in for one entry: each `{expr}` (with `expr`
/// trimmed) replaced as [`placeholder_spec`] says; text from a `{` without
/// a closing `}` is kept as it is.
#[verifier::opaque]
pub open spec fn template_spec(
    m: MetaView,
    idx: nat,
    date_mode: Seq<char>,
    chars: nat,
    color: bool,
    now: Option<i64>,
    rest: Seq<char>,
) -> Seq<char>
    decreases rest.len(),
{
    match find_char(rest, '{') {
        None => rest,
        Some(s) => {
            let after = rest.skip(s + 1);
            match find_char(after, '}') {
                None => rest,
                Some(e) => {
                    proof {
                        lemma_find_char_bounds(rest, '{');
                        lemma_find_char_bounds(after, '}');
                    }
                    rest.take(s) + placeholder_spec(m, idx, date_mode, chars, color, now, trim(after.take(e)))
                        + template_spec(m, idx, date_mode, chars, color, now, after.skip(e + 1))
                },
            }
        },
    }
}

/// The position of the first `c` in `s`, if any.
pub open spec fn find_char(s: Seq<char>, c: char) -> Option<int>
    decreases s.len(),
{
    if s.len() == 0 {
        None
    } else if s[0] == c {
        Some(0)
    } else {
        match find_char(s.drop_first(), c) {
            Some(i) => Some(i + 1),
            None => None,
        }
    }
}

#[verifier::rlimit(50)]
pub proof fn lemma_find_char_bounds(s: Seq<char>, c: char)
    ensures
        match find_char(s, c) {
            Some(i) => 0 <= i < s.len() && s[i] == c,
            None => true,
        },
    decreases s.len(),
{
    if s.len() > 0 && s[0] != c {
        lemma_find_char_bounds(s.drop_first(), c);
    }
}

/// The placeholders of a template can be filled in without the failures
/// the display code cannot handle (see [`template_key_ok`]).
#[verifier::opaque]
pub open spec fn template_ok(m: MetaView, date_mode: Seq<char>, rest: Seq<char>) -> bool
    decreases rest.len(),
{
    match find_char(rest, '{') {
        None => true,
        Some(s) => {
            let after = rest.skip(s + 1);
            match find_char(after, '}') {
                None => true,
                Some(e) => {
                    proof {
                        lemma_find_char_bounds(rest, '{');
                        lemma_find_char_bounds(after, '}');
                    }
                    let expr = trim(after.take(e));
                    (!"attr:"@.is_prefix_of(expr) ==> template_key_ok(m, date_mode, expr))
                        && template_ok(m, date_mode, after.skip(e + 1))
                },
            }
        },
    }
}

/// The position of the first `c` in `v[from..]`, counted from `from`.
#[verifier::rlimit(50)]
fn find_from(v: &Vec<char>, from: usize, c: char) -> (r: Option<usize>)
    requires
        from <= v.len(),
    ensures
        match r {
            Some(i) => from <= i < v.len() && find_char(v@.skip(from as int), c) == Some(i - from),
            None => find_char(v@.skip(from as int), c) is None,
        },
{
    let mut i: usize = from;
    while i < v.len()
        invariant
            from <= i <= v.len(),
            find_char(v@.skip(from as int), c) == match find_char(v@.skip(i as int), c) {
                Some(k) => Some(k + (i - from)),
                None => None,
            },
        decreases v.len() - i,
    {
        proof {
            assert(v@.skip(i as int)[0] == v@[i as int]);
            assert(v@.skip(i as int).drop_first() =~= v@.skip(i + 1));
        }
        if v[i] == c {
            return Some(i);
        }
        i += 1;
    }
    proof {
        assert(v@.skip(i as int).len() == 0);
    }
    None
}

/// The next complete placeholder from position `pos`: the positions of
/// its `{` and of the `}` that closes it.
#[verifier::rlimit(50)]
fn next_placeholder(v: &Vec<char>, pos: usize) -> (r: Option<(usize, usize)>)
    requires
        pos <= v.len(),
    ensures
        match r {
            Some(p) => pos <= p.0 < p.1 < v.len() && find_char(v@.skip(pos as int), '{') == Some(
                p.0 - pos,
            ) && find_char(v@.skip(pos as int).skip(p.0 - pos + 1), '}') == Some(p.1 - p.0 - 1),
            None => find_char(v@.skip(pos as int), '{') is None || find_char(
                v@.skip(pos as int).skip(find_char(v@.skip(pos as int), '{').unwrap() + 1),
                '}',
            ) is None,
        },
{
    let start = match find_from(v, pos, '{') {
        Some(s) => s,
        None => {
            return None;
        },
    };
    proof {
        assert(v@.skip(pos as int).skip(start - pos + 1) =~= v@.skip(start + 1));
    }
    match find_from(v, start + 1, '}') {
        Some(e) => Some((start, e)),
        None => None,
    }
}

/// One step of filling in a template from position `pos`: the text up to
/// and including the next placeholder, and where to go on (`None` when the
/// rest holds no complete placeholder and was taken as it is).
#[verifier::rlimit(50)]
fn template_step(
    item: &Meta,
    idx: usize,
    date_mode: &str,
    chars: usize,
    color: bool,
    now_secs: Option<i64>,
    v: &Vec<char>,
    pos: usize,
) -> (r: (String, Option<usize>))
    requires
        item.wf(),
        idx < usize::MAX,
        pos <= v.len(),
        template_ok(item@, date_mode@, v@.skip(pos as int)),
    ensures
        match r.1 {
            Some(next) => pos < next <= v.len() && r.0@ + template_spec(
                item@,
                idx as nat,
                date_mode@,
                chars as nat,
                color,
                now_secs,
                v@.skip(next as int),
            ) == template_spec(item@, idx as nat, date_mode@, chars as nat, color, now_secs, v@.skip(pos as int))
                && template_ok(item@, date_mode@, v@.skip(next as int)),
            None => r.0@ == template_spec(
                item@,
                idx as nat,
                date_mode@,
                chars as nat,
                color,
                now_secs,
                v@.skip(pos as int),
            ),
        },
{
    let ghost rest = v@.skip(pos as int);
    let ghost m = item@;
    let ghost dm = date_mode@;
    let mut out = String::new();
    match next_placeholder(v, pos) {
        None => {
            proof {
                lemma_template_plain(m, idx as nat, dm, chars as nat, color, now_secs, rest);
            }
            push_range_str(&mut out, v, pos, v.len());
            assert(v@.subrange(pos as int, v.len() as int) =~= rest);
            (out, None)
        },
        Some((start, end)) => {
            proof {
                lemma_template_unfold(
                    m,
                    idx as nat,
                    dm,
                    chars as nat,
                    color,
                    now_secs,
                    rest,
                    start - pos,
                    end - start - 1,
                );
                assert(rest.take(start - pos) =~= v@.subrange(pos as int, start as int));
                assert(rest.skip(start - pos + 1).take(end - start - 1) =~= v@.subrange(
                    start + 1,
                    end as int,
                ));
                assert(rest.skip(start - pos + 1).skip(end - start - 1 + 1) =~= v@.skip(end + 1));
            }
            push_range_str(&mut out, v, pos, start);
            let (a, b) = trim_bounds(v, start + 1, end);
            let expr = string_of_range(v, a, b);
            let piece = render_placeholder(item, idx, date_mode, chars, color, now_secs, expr.as_str());
            push_str(&mut out, piece.as_str());
            (out, Some(end + 1))
        },
    }
}

#[verifier::rlimit(50)]
proof fn lemma_template_plain(
    m: MetaView,
    idx: nat,
    dm: Seq<char>,
    chars: nat,
    color: bool,
    now: Option<i64>,
    rest: Seq<char>,
)
    requires
        find_char(rest, '{') is None || find_char(rest.skip(find_char(rest, '{').unwrap() + 1), '}') is None,
    ensures
        template_spec(m, idx, dm, chars, color, now, rest) == rest,
{
    reveal(template_spec);
}

#[verifier::rlimit(50)]
proof fn lemma_template_unfold(
    m: MetaView,
    idx: nat,
    dm: Seq<char>,
    chars: nat,
    color: bool,
    now: Option<i64>,
    rest: Seq<char>,
    s: int,
    e: int,
)
    requires
        find_char(rest, '{') == Some(s),
        find_char(rest.skip(s + 1), '}') == Some(e),
    ensures
        template_spec(m, idx, dm, chars, color, now, rest) == rest.take(s) + placeholder_spec(
            m,
            idx,
            dm,
            chars,
            color,
            now,
            trim(rest.skip(s + 1).take(e)),
        ) + template_spec(m, idx, dm, chars, color, now, rest.skip(s + 1).skip(e + 1)),
        template_ok(m, dm, rest) ==> template_ok(m, dm, rest.skip(s + 1).skip(e + 1)) && (
        !"attr:"@.is_prefix_of(trim(rest.skip(s + 1).take(e))) ==> template_key_ok(
            m,
            dm,
            trim(rest.skip(s + 1).take(e)),
        )),
{
    reveal(template_spec);
    reveal(template_ok);
}

/// Fills in a `log` template for the entry at position `idx` (see
/// [`template_spec`]).
#[verifier::rlimit(50)]
pub fn render_log_template(
    item: &Meta,
    idx: usize,
    date_mode: &str,
    chars: usize,
    format: &str,
    color: bool,
    now_secs: Option<i64>,
) -> (r: String)
    requires
        item.wf(),
        idx < usize::MAX,
        template_ok(item@, date_mode@, format@),
    ensures
        r@ == template_spec(item@, idx as nat, date_mode@, chars as nat, color, now_secs, format@),
{
    let v = chars_of(format);
    let ghost total = template_spec(item@, idx as nat, date_mode@, chars as nat, color, now_secs, format@);
    let mut out = String::new();
    let mut pos: usize = 0;
    assert(v@.skip(0) =~= v@);
    loop
        invariant_except_break
            pos <= v.len(),
            out@ + template_spec(item@, idx as nat, date_mode@, chars as nat, color, now_secs, v@.skip(pos as int))
                == total,
            template_ok(item@, date_mode@, v@.skip(pos as int)),
        invariant
            item.wf(),
            idx < usize::MAX,
            v@ == format@,
            total == template_spec(item@, idx as nat, date_mode@, chars as nat, color, now_secs, format@),
        ensures
            out@ == total,
        decreases v.len() - pos,
    {
        let (piece, next) = template_step(item, idx, date_mode, chars, color, now_secs, &v, pos);
        let ghost before = out@;
        push_str(&mut out, piece.as_str());
        match next {
            Some(n) => {
                assert(out@ + template_spec(item@, idx as nat, date_mode@, chars as nat, color, now_secs, v@.skip(n as int))
                    =~= before + (piece@ + template_spec(item@, idx as nat, date_mode@, chars as nat, color, now_secs, v@.skip(n as int))));
                pos = n;
            },
            None => {
                break;
            },
        }
    }
    out
}

/// Appends the characters `v[lo..hi]`.
#[verifier::rlimit(50)]
fn push_range_str(out: &mut String, v: &Vec<char>, lo: usize, hi: usize)
    requires
        lo <= hi <= v.len(),
    ensures
        final(out)@ == old(out)@ + v@.subrange(lo as int, hi as int),
{
    crate::text::push_range(out, v, lo, hi);
}

/// What a placeholder becomes (see [`placeholder_spec`]).
#[verifier::rlimit(50)]
fn render_placeholder(
    item: &Meta,
    idx: usize,
    date_mode: &str,
    chars: usize,
    color: bool,
    now_secs: Option<i64>,
    expr: &str,
) -> (r: String)
    requires
        item.wf(),
        idx < usize::MAX,
        !"attr:"@.is_prefix_of(expr@) ==> template_key_ok(item@, date_mode@, expr@),
    ensures
        r@ == placeholder_spec(item@, idx as nat, date_mode@, chars as nat, color, now_secs, expr@),
{
    proof {
        reveal_strlit("attr:");
        reveal(placeholder_spec);
    }
    let value = if starts_with_str(expr, "attr:") {
        let v = chars_of(expr);
        let key = string_of_range(&v, 5, v.len());
        assert(key@ =~= expr@.skip(5));
        match item.attrs.get(key.as_str()) {
            Some(x) => Some(x.clone()),
            None => None,
        }
    } else {
        log_template_value(item, idx, date_mode, chars, expr, now_secs)
    };
    match value {
        Some(v) => match placeholder_color_code(expr) {
            Some(code) => {
                let mut out = String::new();
                push_colorized(&mut out, v.as_str(), code, color);
                out
            },
            None => v,
        },
        None => {
            let mut out = String::new();
            push_char(&mut out, '{');
            push_str(&mut out, expr);
            push_char(&mut out, '}');
            proof {
                reveal_strlit("{");
                reveal_strlit("}");
            }
            assert(out@ =~= "{"@ + expr@ + "}"@);
            out
        },
    }
}

// ---------------------------------------------------------------------------
// `log`
// ---------------------------------------------------------------------------

/// The lines `log` prints for one entry: a blank line between entries,
/// `entry ID (SIZE)`, `date: DATE`, a `key: value` line per attribute shown,
/// and the preview indented by four spaces after a blank line.
pub open spec fn log_lines_spec(d: DecoratedView, first: bool, color: bool) -> Seq<Seq<char>> {
    let sep: Seq<Seq<char>> = if first {
        Seq::empty()
    } else {
        seq![Seq::empty()]
    };
    let head = seq![
        "entry "@ + colorized(d.id, "1;33"@, color) + " ("@ + d.size_human + ")"@,
        colorized("date: "@, "1"@, color) + d.date,
    ];
    let attrs = d.log_attr_lines.map_values(
        |p: (Seq<char>, Seq<char>)| colorized(p.0 + ": "@, "1"@, color) + colorized(p.1, "35"@, color),
    );
    let tail: Seq<Seq<char>> = if d.preview.len() > 0 {
        seq![Seq::empty(), "    "@ + d.preview]
    } else {
        Seq::empty()
    };
    sep + head + attrs + tail
}

/// The lines `log` prints for one entry (see [`log_lines_spec`]).
#[verifier::rlimit(50)]
pub fn log_entry_lines(row: &DecoratedEntry, first: bool, color: bool) -> (r: Vec<String>)
    ensures
        strs(r@) == log_lines_spec(row@, first, color),
{
    let ghost d = row@;
    let mut out: Vec<String> = Vec::new();
    if !first {
        out.push(String::new());
    }
    proof {
        reveal_strlit("entry ");
        reveal_strlit(" (");
        reveal_strlit(")");
        reveal_strlit("    ");
    }
    let mut l1 = String::new();
    push_str(&mut l1, "entry ");
    push_colorized(&mut l1, row.id.as_str(), "1;33", color);
    push_str(&mut l1, " (");
    push_str(&mut l1, row.size_human.as_str());
    push_str(&mut l1, ")");
    let mut l2 = String::new();
    push_colorized(&mut l2, "date: ", "1", color);
    push_str(&mut l2, row.date.as_str());
    out.push(l1.clone());
    out.push(l2.clone());
    let ghost before_attrs = strs(out@);
    proof {
        let sep: Seq<Seq<char>> = if first {
            Seq::empty()
        } else {
            seq![Seq::empty()]
        };
        let head = seq![
            "entry "@ + colorized(d.id, "1;33"@, color) + " ("@ + d.size_human + ")"@,
            colorized("date: "@, "1"@, color) + d.date,
        ];
        assert(l1@ =~= head[0]);
        assert(l2@ =~= head[1]);
        assert(before_attrs =~= sep + head);
    }
    let ghost attrs = d.log_attr_lines.map_values(
        |p: (Seq<char>, Seq<char>)| colorized(p.0 + ": "@, "1"@, color) + colorized(p.1, "35"@, color),
    );
    let mut i: usize = 0;
    while i < row.log_attr_lines.len()
        invariant
            i <= row.log_attr_lines.len(),
            d == row@,
            attrs == d.log_attr_lines.map_values(
                |p: (Seq<char>, Seq<char>)| colorized(p.0 + ": "@, "1"@, color) + colorized(p.1, "35"@, color),
            ),
            strs(out@) == before_attrs + attrs.take(i as int),
        decreases row.log_attr_lines.len() - i,
    {
        let (k, v) = &row.log_attr_lines[i];
        let mut key = String::new();
        push_str(&mut key, k.as_str());
        push_str(&mut key, ": ");
        let mut line = String::new();
        push_colorized(&mut line, key.as_str(), "1", color);
        push_colorized(&mut line, v.as_str(), "35", color);
        let ghost before = out@;
        out.push(line);
        proof {
            assert(attrs[i as int] == line@);
            assert(strs(out@) =~= strs(before).push(line@));
            assert(attrs.take(i + 1) =~= attrs.take(i as int).push(line@));
        }
        i += 1;
    }
    assert(attrs.take(row.log_attr_lines.len() as int) =~= attrs);
    let ghost mid = strs(out@);
    if !row.preview.as_str().is_empty() {
        out.push(String::new());
        let mut p = String::new();
        push_str(&mut p, "    ");
        push_str(&mut p, row.preview.as_str());
        out.push(p);
        assert(strs(out@) =~= mid + seq![Seq::<char>::empty(), "    "@ + d.preview]);
    } else {
        assert(strs(out@) =~= mid + Seq::<Seq<char>>::empty());
    }
    out
}

/// `key=value` for each attribute, in key order.
pub open spec fn kv_parts(pairs: Seq<(Seq<char>, Seq<char>)>) -> Seq<Seq<char>> {
    pairs.map_values(|p: (Seq<char>, Seq<char>)| p.0 + "="@ + p.1)
}

/// `tag=value` for each named tag the attributes have, in the order named.
pub open spec fn tag_kv_parts(attrs: Map<Seq<char>, Seq<char>>, tags: Seq<Seq<char>>) -> Seq<Seq<char>>
    decreases tags.len(),
{
    if tags.len() == 0 {
        Seq::empty()
    } else {
        let prev = tag_kv_parts(attrs, tags.drop_last());
        if attrs.contains_key(tags.last()) {
            prev.push(tags.last() + "="@ + attrs[tags.last()])
        } else {
            prev
        }
    }
}

/// The attribute line that `log` prints under an entry: `key=value` for
/// every attribute (all shown) or for each selected tag the entry has,
/// joined by two spaces; nothing when there is no such attribute.
pub open spec fn log_meta_spec(
    pairs: Seq<(Seq<char>, Seq<char>)>,
    attrs: Map<Seq<char>, Seq<char>>,
    show_all: bool,
    tags: Seq<Seq<char>>,
) -> Option<Seq<char>> {
    let parts = if show_all {
        kv_parts(pairs)
    } else {
        tag_kv_parts(attrs, tags)
    };
    if parts.len() == 0 {
        None
    } else {
        Some(join(parts, "  "@))
    }
}

/// Appends `part` to a line of parts joined by two spaces.
#[verifier::rlimit(50)]
fn push_part(line: &mut String, count: usize, part: &str)
    ensures
        final(line)@ == if count == 0 {
            old(line)@ + part@
        } else {
            old(line)@ + "  "@ + part@
        },
{
    if count > 0 {
        push_str(line, "  ");
    }
    push_str(line, part);
}

/// The attribute line of `log` (see [`log_meta_spec`]).
#[verifier::rlimit(50)]
pub fn format_log_meta(attrs: &AttrMap, sel: &MetaSelection) -> (r: Option<String>)
    requires
        attrs.wf(),
    ensures
        opt_str_view(r) == log_meta_spec(
            attrs.pairs(),
            attrs@,
            sel.show_all,
            strs(sel.display_tags@),
        ),
{
    let mut line = String::new();
    let mut count: usize = 0;
    let ghost ps = attrs.pairs();
    let ghost tags = strs(sel.display_tags@);
    let ghost parts = if sel.show_all {
        kv_parts(ps)
    } else {
        tag_kv_parts(attrs@, tags)
    };
    if sel.show_all {
        let n = attrs.len();
        let mut j: usize = 0;
        while j < n
            invariant
                attrs.wf(),
                ps == attrs.pairs(),
                parts == kv_parts(ps),
                n == ps.len(),
                j <= n,
                count == j,
                j == 0 ==> line@ == Seq::<char>::empty(),
                j > 0 ==> line@ == join(parts.take(j as int), "  "@),
            decreases n - j,
        {
            let mut kv = attrs.key_at(j).clone();
            push_char(&mut kv, '=');
            push_str(&mut kv, attrs.value_at(j).as_str());
            push_part(&mut line, count, kv.as_str());
            proof {
                reveal_strlit("  ");
                reveal_strlit("=");
                attrs.lemma_values();
                assert(parts.take(j + 1).drop_last() =~= parts.take(j as int));
                assert(kv@ =~= ps[j as int].0 + "="@ + ps[j as int].1);
                assert(parts.take(j + 1).last() == kv@);
                if j == 0 {
                    assert(parts.take(1) =~= seq![kv@]);
                    assert(line@ =~= kv@);
                }
            }
            count += 1;
            j += 1;
        }
        assert(parts.take(n as int) =~= parts);
    } else {
        let mut i: usize = 0;
        assert(tags.take(0) =~= Seq::<Seq<char>>::empty());
        while i < sel.display_tags.len()
            invariant
                attrs.wf(),
                tags == strs(sel.display_tags@),
                i <= sel.display_tags.len(),
                count == tag_kv_parts(attrs@, tags.take(i as int)).len(),
                count <= i,
                count == 0 ==> line@ == Seq::<char>::empty(),
                count > 0 ==> line@ == join(tag_kv_parts(attrs@, tags.take(i as int)), "  "@),
            decreases sel.display_tags.len() - i,
        {
            let tag = sel.display_tags[i].as_str();
            proof {
                reveal_strlit("  ");
                assert(tags.take(i + 1).drop_last() =~= tags.take(i as int));
                assert(tags.take(i + 1).last() == tag@);
            }
            match attrs.get(tag) {
                Some(v) => {
                    let mut kv = sel.display_tags[i].clone();
                    push_char(&mut kv, '=');
                    push_str(&mut kv, v.as_str());
                    let ghost prev = tag_kv_parts(attrs@, tags.take(i as int));
                    push_part(&mut line, count, kv.as_str());
                    proof {
                        reveal_strlit("=");
                        assert(kv@ =~= tag@ + "="@ + attrs@[tag@]);
                        assert(tag_kv_parts(attrs@, tags.take(i + 1)) == prev.push(kv@));
                        if count == 0 {
                            assert(prev.push(kv@) =~= seq![kv@]);
                            assert(line@ =~= kv@);
                        } else {
                            assert(prev.push(kv@).drop_last() =~= prev);
                        }
                    }
                    count += 1;
                },
                None => {},
            }
            i += 1;
        }
        assert(tags.take(sel.display_tags.len() as int) =~= tags);
    }
    if count == 0 {
        None
    } else {
        Some(line)
    }
}

/// The attribute key named by a template expression of the form
/// `index .Meta "key"` (blanks around the quoted key are allowed).
pub open spec fn index_meta_key_spec(expr: Seq<char>) -> Option<Seq<char>> {
    let prefix = "index .Meta "@;
    if expr.len() >= prefix.len() && expr.take(prefix.len() as int) == prefix {
        let rest = trim(expr.skip(prefix.len() as int));
        if rest.len() >= 2 && rest[0] == '"' && rest.last() == '"' {
            Some(rest.subrange(1, rest.len() - 1))
        } else {
            None
        }
    } else {
        None
    }
}

/// The key of an `index .Meta "key"` template expression (see
/// [`index_meta_key_spec`]).
#[verifier::rlimit(50)]
pub fn parse_index_meta_expr(expr: &str) -> (r: Option<String>)
    ensures
        opt_str_view(r) == index_meta_key_spec(expr@),
{
    let prefix = "index .Meta ";
    proof {
        reveal_strlit("index .Meta ");
    }
    let v = chars_of(expr);
    let p = chars_of(prefix);
    if v.len() < p.len() || !range_eq(&v, 0, p.len(), &p) {
        return None;
    }
    let (a, b) = trim_bounds(&v, p.len(), v.len());
    proof {
        assert(v@.take(p@.len() as int) =~= v@.subrange(0, p@.len() as int));
        assert(v@.skip(p@.len() as int) =~= v@.subrange(p@.len() as int, v@.len() as int));
    }
    if b - a >= 2 && v[a] == '"' && v[b - 1] == '"' {
        let out = string_of_range(&v, a + 1, b - 1);
        proof {
            assert(v@.subrange(a as int, b as int).subrange(1, (b - a) - 1) =~= v@.subrange(
                a + 1,
                b - 1,
            ));
        }
        Some(out)
    } else {
        None
    }
}

/// An entry's `log` lines end with its preview: when the preview shown is
/// not empty, the last two lines are an empty line and the preview
/// indented by four spaces; when it is empty, there is no line beyond the
/// separator, the two header lines and one line per attribute.
#[verifier::rlimit(50)]
pub proof fn lemma_log_lines_end_with_preview(d: DecoratedView, first: bool, color: bool)
    ensures
        ({
            let r = log_lines_spec(d, first, color);
            let base = (if first { 0int } else { 1int }) + 2 + d.log_attr_lines.len();
            &&& d.preview.len() > 0 ==> r.len() == base + 2 && r[r.len() - 2] == Seq::<char>::empty() && r[r.len()
                - 1] == "    "@ + d.preview
            &&& d.preview.len() == 0 ==> r.len() == base
        }),
{
}

/// In `pos` mode the id shown for the entry at index `i` of a listing is a
/// reference that resolves to that very entry.
#[verifier::rlimit(50)]
pub proof fn lemma_pos_id_resolves(items: Seq<Meta>, ids: Seq<Seq<char>>, i: int)
    requires
        0 <= i < items.len(),
        items.len() < usize::MAX,
    ensures
        resolve_spec(display_id_spec(items[i]@, i as nat, "pos"@), ids, items) == Ok::<Seq<char>, StoreError>(
            items[i].id@,
        ),
{
    reveal_strlit("pos");
    reveal_strlit("full");
    assert("pos"@.len() == 3 && "full"@.len() == 4);
    assert("pos"@ != "full"@);
    let n = (i + 1) as nat;
    let s = dec_nat(n);
    assert(display_id_spec(items[i]@, i as nat, "pos"@) == s);
    lemma_dec_nat_digits(n);
    assert(is_digit(s[0]));
    assert(is_digit(s.last())) by {
        assert(s.last() == s[s.len() - 1]);
    }
    assert(!is_ws(s[0]));
    assert(trim_start(s) == s);
    assert(trim_end(s) == s);
    assert(trim(s) == s);
    assert(s[0] != '@');
    assert(lower_seq(s) =~= s) by {
        assert forall|k: int| 0 <= k < s.len() implies lower_seq(s)[k] == s[k] by {
            assert(is_digit(s[k]));
        }
    }
    assert(ascii_digits_only(s)) by {
        assert forall|k: int| 0 <= k < s.len() implies '0' <= #[trigger] s[k] && s[k] <= '9' by {
            assert(is_digit(s[k]));
        }
    }
    assert(parse_usize_spec(s) == Some(n as usize));
}

} // verus!
