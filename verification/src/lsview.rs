//! The table `stash ls` prints: one cell per shown column for each entry,
//! columns padded to their widest cell (and header), the preview sized to
//! the terminal when no width was asked for, lines cut to the terminal
//! width, and every other line dimmed in striped mode.
use vstd::prelude::*;
use vstd::utf8::encode_utf8;
use vstd::string::StringSliceAdditionalSpecFns;

use crate::display::{
    colorized, pad_left, pad_right, padded_left, padded_right, preview_snippet, push_colorized,
    snippet_spec, trim_ansi_spec, trim_ansi_to_width,
};
use crate::listing::{DecoratedEntry, DecoratedView};
use crate::meta::{Meta, MetaView};
use crate::selection::strs;
use crate::text::{chars_of, dec_nat, push_str, str_eq, usize_to_dec};

verus! {

/// Which columns `ls` shows and how.
#[derive(Clone, Copy, Debug, PartialEq, Eq, Structural)]
pub struct LsLayout {
    pub has_size: bool,
    pub use_bytes: bool,
    pub has_date: bool,
    pub show_count: bool,
    pub show_flag: bool,
    pub show_name: bool,
    pub show_preview: bool,
    pub show_all_meta: bool,
    pub headers: bool,
    pub stripe: bool,
    pub style_color: bool,
    pub auto_preview: bool,
}

/// The cells of one row.
pub struct LsCells {
    pub id: Seq<char>,
    pub size: Seq<char>,
    pub date: Seq<char>,
    pub name: Seq<char>,
    pub attr_count: Seq<char>,
    pub attr_flag: Seq<char>,
    pub meta_vals: Seq<Seq<char>>,
    pub meta_inline: Seq<char>,
    pub preview: Seq<char>,
}

/// The cells of the row of a decorated entry `d` of entry `m` (before the
/// preview is sized to the terminal).
pub open spec fn cells_spec(d: DecoratedView, m: MetaView, l: LsLayout) -> LsCells {
    LsCells {
        id: d.id,
        size: if l.has_size {
            if l.use_bytes {
                d.size_bytes
            } else {
                d.size_human
            }
        } else {
            Seq::empty()
        },
        date: if l.has_date {
            d.date
        } else {
            Seq::empty()
        },
        name: if l.show_name {
            match d.filename {
                Some(f) => f,
                None => d.id,
            }
        } else {
            Seq::empty()
        },
        attr_count: if l.show_count {
            dec_nat(m.attrs.len())
        } else {
            Seq::empty()
        },
        attr_flag: if l.show_flag && m.attrs.len() > 0 {
            "*"@
        } else {
            Seq::empty()
        },
        meta_vals: d.meta_vals,
        meta_inline: d.meta_inline,
        preview: if l.show_preview {
            d.preview
        } else {
            Seq::empty()
        },
    }
}

/// Byte length of a string.
pub open spec fn blen(s: Seq<char>) -> nat {
    encode_utf8(s).len()
}

/// The larger of two widths.
pub open spec fn wmax(a: nat, b: nat) -> nat {
    if a >= b {
        a
    } else {
        b
    }
}

/// A column, for measuring.
#[derive(Clone, Copy, Debug, PartialEq, Eq, Structural)]
pub enum Col {
    Id,
    Size,
    Date,
    Name,
    AttrCount,
    AttrFlag,
    Inline,
    Meta(usize),
}

/// The width a cell needs in its column: ids, sizes, dates and counts in
/// bytes, the others in characters; 0 for a column not shown.
pub open spec fn cell_width(c: LsCells, k: Col, l: LsLayout) -> nat {
    match k {
        Col::Id => blen(c.id),
        Col::Size => if l.has_size {
            blen(c.size)
        } else {
            0
        },
        Col::Date => if l.has_date {
            blen(c.date)
        } else {
            0
        },
        Col::Name => if l.show_name {
            c.name.len()
        } else {
            0
        },
        Col::AttrCount => if l.show_count {
            blen(c.attr_count)
        } else {
            0
        },
        Col::AttrFlag => if c.attr_flag.len() > 0 {
            1
        } else {
            0
        },
        Col::Inline => if l.show_all_meta {
            c.meta_inline.len()
        } else {
            0
        },
        Col::Meta(i) => if i < c.meta_vals.len() {
            c.meta_vals[i as int].len()
        } else {
            0
        },
    }
}

/// The widest cell of column `k` (0 for no rows).
pub open spec fn col_max(rows: Seq<LsCells>, k: Col, l: LsLayout) -> nat
    decreases rows.len(),
{
    if rows.len() == 0 {
        0
    } else {
        wmax(col_max(rows.drop_last(), k, l), cell_width(rows.last(), k, l))
    }
}

/// Column widths.
pub struct LsWidths {
    pub id: nat,
    pub size: nat,
    pub date: nat,
    pub name: nat,
    pub attr_count: nat,
    pub attr_flag: nat,
    pub inline: nat,
    pub meta: Seq<nat>,
}

/// The width of each column: the widest cell, and with headers at least the
/// header's width.
pub open spec fn widths_spec(rows: Seq<LsCells>, tags: Seq<Seq<char>>, l: LsLayout) -> LsWidths {
    let h = l.headers;
    LsWidths {
        id: wmax(col_max(rows, Col::Id, l), if h { 2 } else { 0 }),
        size: wmax(col_max(rows, Col::Size, l), if h && l.has_size { 4 } else { 0 }),
        date: wmax(col_max(rows, Col::Date, l), if h && l.has_date { 4 } else { 0 }),
        name: wmax(col_max(rows, Col::Name, l), if h && l.show_name { 4 } else { 0 }),
        attr_count: wmax(col_max(rows, Col::AttrCount, l), if h && l.show_count { 5 } else { 0 }),
        attr_flag: wmax(col_max(rows, Col::AttrFlag, l), if h && l.show_flag { 5 } else { 0 }),
        inline: wmax(col_max(rows, Col::Inline, l), if h && l.show_all_meta { 5 } else { 0 }),
        meta: Seq::new(
            tags.len(),
            |i: int| wmax(col_max(rows, Col::Meta(i as usize), l), if h { tags[i].len() } else { 0 }),
        ),
    }
}

/// `"  "` followed by `s` when `on`; nothing otherwise.
pub open spec fn col(on: bool, s: Seq<char>) -> Seq<char> {
    if on {
        "  "@ + s
    } else {
        Seq::empty()
    }
}

/// The attribute columns of a row, each after two spaces.
pub open spec fn meta_cols(vals: Seq<Seq<char>>, widths: Seq<nat>, sc: bool) -> Seq<char>
    decreases vals.len(),
{
    if vals.len() == 0 {
        Seq::empty()
    } else {
        let i = vals.len() - 1;
        meta_cols(vals.drop_last(), widths, sc) + "  "@ + colorized(
            padded_right(vals[i], if i < widths.len() { widths[i] } else { 0 }),
            "36"@,
            sc,
        )
    }
}

/// The line of one row (before it is cut to the terminal width).
pub open spec fn row_line_spec(c: LsCells, w: LsWidths, sc: bool) -> Seq<char> {
    colorized(padded_right(c.id, w.id), "1;33"@, sc) + col(c.size.len() > 0, padded_left(c.size, w.size))
        + col(c.date.len() > 0, padded_left(c.date, w.date)) + col(
        c.attr_count.len() > 0,
        colorized(padded_left(c.attr_count, w.attr_count), "35"@, sc),
    ) + col(w.attr_flag > 0, colorized(padded_left(c.attr_flag, w.attr_flag), "1;35"@, sc)) + col(
        c.name.len() > 0,
        if c.name == c.id {
            padded_right(c.name, w.name)
        } else {
            colorized(padded_right(c.name, w.name), "1;36"@, sc)
        },
    ) + meta_cols(c.meta_vals, w.meta, sc) + col(
        c.meta_inline.len() > 0,
        colorized(padded_right(c.meta_inline, w.inline), "36"@, sc),
    ) + col(c.preview.len() > 0, c.preview)
}

/// The header columns for the shown attributes.
pub open spec fn header_meta_cols(tags: Seq<Seq<char>>, widths: Seq<nat>, sc: bool) -> Seq<char>
    decreases tags.len(),
{
    if tags.len() == 0 {
        Seq::empty()
    } else {
        let i = tags.len() - 1;
        header_meta_cols(tags.drop_last(), widths, sc) + "  "@ + colorized(
            padded_right(tags[i], if i < widths.len() { widths[i] } else { 0 }),
            "1"@,
            sc,
        )
    }
}

/// The header line (before it is cut to the terminal width).
pub open spec fn header_line_spec(tags: Seq<Seq<char>>, w: LsWidths, l: LsLayout) -> Seq<char> {
    let sc = l.style_color;
    colorized(padded_right("id"@, w.id), "1"@, sc) + col(l.has_size, colorized(padded_right("size"@, w.size), "1"@, sc))
        + col(l.has_date, colorized(padded_right("date"@, w.date), "1"@, sc)) + col(
        l.show_count,
        colorized(padded_right("attrs"@, w.attr_count), "1"@, sc),
    ) + col(l.show_flag, colorized(padded_right("attrs"@, w.attr_flag), "1"@, sc)) + col(
        l.show_name,
        colorized(padded_right("name"@, w.name), "1"@, sc),
    ) + header_meta_cols(tags, w.meta, sc) + col(
        l.show_all_meta,
        colorized(padded_right("attrs"@, w.inline), "1"@, sc),
    ) + col(l.show_preview, colorized("preview"@, "1"@, sc))
}

/// A line cut to the terminal width when there is one.
pub open spec fn fit(s: Seq<char>, width: Option<usize>) -> Seq<char> {
    match width {
        Some(w) => trim_ansi_spec(s, w as nat),
        None => s,
    }
}

/// A line shown dimmed.
pub open spec fn dimmed(s: Seq<char>) -> Seq<char> {
    seq!['\x1b', '[', '2', 'm'] + s + seq!['\x1b', '[', '0', 'm']
}

/// A line shown dimmed.
#[verifier::rlimit(50)]
pub fn dim_ansi_line(s: &str) -> (r: String)
    ensures
        r@ == dimmed(s@),
{
    let mut out = String::new();
    push_str(&mut out, "\x1b[2m");
    push_str(&mut out, s);
    push_str(&mut out, "\x1b[0m");
    proof {
        reveal_strlit("\x1b[2m");
        reveal_strlit("\x1b[0m");
    }
    assert(out@ =~= dimmed(s@));
    out
}

/// The lines of `ls` when only ids are shown and no header: each id in
/// bold yellow, or dimmed on every other line in striped mode.
pub open spec fn id_lines_spec(ids: Seq<Seq<char>>, stripe: bool, sc: bool) -> Seq<Seq<char>> {
    Seq::new(
        ids.len(),
        |i: int|
            if stripe && i % 2 == 1 {
                dimmed(ids[i])
            } else {
                colorized(ids[i], "1;33"@, sc)
            },
    )
}

/// The lines of `ls` when only ids are shown (see [`id_lines_spec`]).
#[verifier::rlimit(50)]
pub fn ls_id_lines(rows: &Vec<DecoratedEntry>, stripe: bool, style_color: bool) -> (r: Vec<String>)
    ensures
        strs(r@) == id_lines_spec(rows@.map_values(|d: DecoratedEntry| d.id@), stripe, style_color),
{
    let ghost ids = rows@.map_values(|d: DecoratedEntry| d.id@);
    let ghost spec_lines = id_lines_spec(ids, stripe, style_color);
    let mut out: Vec<String> = Vec::new();
    let mut i: usize = 0;
    while i < rows.len()
        invariant
            i <= rows.len(),
            ids == rows@.map_values(|d: DecoratedEntry| d.id@),
            spec_lines == id_lines_spec(ids, stripe, style_color),
            strs(out@) == spec_lines.take(i as int),
        decreases rows.len() - i,
    {
        let line = if stripe && i % 2 == 1 {
            dim_ansi_line(rows[i].id.as_str())
        } else {
            let mut l = String::new();
            push_colorized(&mut l, rows[i].id.as_str(), "1;33", style_color);
            l
        };
        let ghost before = out@;
        out.push(line);
        proof {
            assert(spec_lines[i as int] == line@);
            assert(strs(out@) =~= strs(before).push(line@));
            assert(spec_lines.take(i + 1) =~= spec_lines.take(i as int).push(line@));
        }
        i += 1;
    }
    assert(spec_lines.take(rows.len() as int) =~= spec_lines);
    out
}

/// One row of the table.
pub struct LsRow {
    pub id: String,
    pub size: String,
    pub date: String,
    pub name: String,
    pub attr_count: String,
    pub attr_flag: String,
    pub meta_vals: Vec<String>,
    pub meta_inline: String,
    pub preview: String,
}

impl View for LsRow {
    type V = LsCells;

    open spec fn view(&self) -> LsCells {
        LsCells {
            id: self.id@,
            size: self.size@,
            date: self.date@,
            name: self.name@,
            attr_count: self.attr_count@,
            attr_flag: self.attr_flag@,
            meta_vals: strs(self.meta_vals@),
            meta_inline: self.meta_inline@,
            preview: self.preview@,
        }
    }
}

/// A copy of a list of strings.
#[verifier::rlimit(50)]
fn copy_strs(v: &Vec<String>) -> (r: Vec<String>)
    ensures
        strs(r@) == strs(v@),
{
    let mut out: Vec<String> = Vec::new();
    let mut i: usize = 0;
    while i < v.len()
        invariant
            i <= v.len(),
            strs(out@) == strs(v@).take(i as int),
        decreases v.len() - i,
    {
        let ghost before = out@;
        out.push(v[i].clone());
        proof {
            assert(strs(out@) =~= strs(before).push(v@[i as int]@));
            assert(strs(v@).take(i + 1) =~= strs(v@).take(i as int).push(v@[i as int]@));
        }
        i += 1;
    }
    assert(strs(v@).take(v.len() as int) =~= strs(v@));
    out
}

/// The row of a decorated entry (see [`cells_spec`]).
#[verifier::rlimit(50)]
pub fn ls_cells(d: &DecoratedEntry, item: &Meta, l: LsLayout) -> (r: LsRow)
    requires
        item.wf(),
    ensures
        r@ == cells_spec(d@, item@, l),
{
    let ghost dv = d@;
    let id = d.id.clone();
    let size = if l.has_size {
        if l.use_bytes {
            d.size_bytes.clone()
        } else {
            d.size_human.clone()
        }
    } else {
        String::new()
    };
    let date = if l.has_date {
        d.date.clone()
    } else {
        String::new()
    };
    let name = if l.show_name {
        match &d.filename {
            Some(f) => f.clone(),
            None => id.clone(),
        }
    } else {
        String::new()
    };
    let n = item.attrs.len();
    let attr_count = if l.show_count {
        usize_to_dec(n)
    } else {
        String::new()
    };
    let attr_flag = if l.show_flag && n > 0 {
        "*".to_owned()
    } else {
        String::new()
    };
    let preview = if l.show_preview {
        d.preview.clone()
    } else {
        String::new()
    };
    proof {
        reveal_strlit("*");
    }
    LsRow {
        id,
        size,
        date,
        name,
        attr_count,
        attr_flag,
        meta_vals: copy_strs(&d.meta_vals),
        meta_inline: d.meta_inline.clone(),
        preview,
    }
}

/// Column widths as numbers.
pub struct LsColumnWidths {
    pub id: usize,
    pub size: usize,
    pub date: usize,
    pub name: usize,
    pub attr_count: usize,
    pub attr_flag: usize,
    pub inline: usize,
    pub meta: Vec<usize>,
}

impl View for LsColumnWidths {
    type V = LsWidths;

    open spec fn view(&self) -> LsWidths {
        LsWidths {
            id: self.id as nat,
            size: self.size as nat,
            date: self.date as nat,
            name: self.name as nat,
            attr_count: self.attr_count as nat,
            attr_flag: self.attr_flag as nat,
            inline: self.inline as nat,
            meta: self.meta@.map_values(|x: usize| x as nat),
        }
    }
}

/// Byte length of a string.
#[verifier::rlimit(50)]
fn byte_len(s: &String) -> (r: usize)
    ensures
        r == blen(s@),
{
    let t = s.as_str();
    assert(t.spec_bytes() == encode_utf8(t@));
    t.as_bytes().len()
}

/// Character length of a string.
#[verifier::rlimit(50)]
fn char_len(s: &String) -> (r: usize)
    ensures
        r == s@.len(),
{
    chars_of(s.as_str()).len()
}

/// The larger of two widths.
#[verifier::rlimit(50)]
fn umax(a: usize, b: usize) -> (r: usize)
    ensures
        r == wmax(a as nat, b as nat),
{
    if a >= b {
        a
    } else {
        b
    }
}

/// The views of the rows.
pub open spec fn row_views(rows: Seq<LsRow>) -> Seq<LsCells> {
    rows.map_values(|r: LsRow| r@)
}

/// The width of one cell in its column (see [`cell_width`]).
#[verifier::rlimit(50)]
fn cell_w(c: &LsRow, k: Col, l: LsLayout) -> (r: usize)
    ensures
        r == cell_width(c@, k, l),
{
    match k {
        Col::Id => byte_len(&c.id),
        Col::Size => if l.has_size {
            byte_len(&c.size)
        } else {
            0
        },
        Col::Date => if l.has_date {
            byte_len(&c.date)
        } else {
            0
        },
        Col::Name => if l.show_name {
            char_len(&c.name)
        } else {
            0
        },
        Col::AttrCount => if l.show_count {
            byte_len(&c.attr_count)
        } else {
            0
        },
        Col::AttrFlag => if c.attr_flag.as_str().is_empty() {
            0
        } else {
            1
        },
        Col::Inline => if l.show_all_meta {
            char_len(&c.meta_inline)
        } else {
            0
        },
        Col::Meta(i) => if i < c.meta_vals.len() {
            char_len(&c.meta_vals[i])
        } else {
            0
        },
    }
}

/// The widest cell of column `k` over the rows.
#[verifier::rlimit(50)]
fn column_max(rows: &Vec<LsRow>, k: Col, l: LsLayout) -> (r: usize)
    ensures
        r == col_max(row_views(rows@), k, l),
{
    let ghost vs = row_views(rows@);
    let mut m: usize = 0;
    let mut i: usize = 0;
    assert(vs.take(0) =~= Seq::<LsCells>::empty());
    while i < rows.len()
        invariant
            i <= rows.len(),
            vs == row_views(rows@),
            m == col_max(vs.take(i as int), k, l),
        decreases rows.len() - i,
    {
        let w = cell_w(&rows[i], k, l);
        proof {
            assert(vs.take(i + 1).drop_last() =~= vs.take(i as int));
            assert(vs.take(i + 1).last() == rows@[i as int]@);
        }
        m = umax(m, w);
        i += 1;
    }
    assert(vs.take(rows.len() as int) =~= vs);
    m
}

/// The column widths of the table (see [`widths_spec`]).
#[verifier::rlimit(50)]
pub fn ls_widths(rows: &Vec<LsRow>, tags: &Vec<String>, l: LsLayout) -> (r: LsColumnWidths)
    ensures
        r@ == widths_spec(row_views(rows@), strs(tags@), l),
{
    let h = l.headers;
    let id = umax(column_max(rows, Col::Id, l), if h { 2 } else { 0 });
    let size = umax(column_max(rows, Col::Size, l), if h && l.has_size { 4 } else { 0 });
    let date = umax(column_max(rows, Col::Date, l), if h && l.has_date { 4 } else { 0 });
    let name = umax(column_max(rows, Col::Name, l), if h && l.show_name { 4 } else { 0 });
    let attr_count = umax(column_max(rows, Col::AttrCount, l), if h && l.show_count { 5 } else { 0 });
    let attr_flag = umax(column_max(rows, Col::AttrFlag, l), if h && l.show_flag { 5 } else { 0 });
    let inline = umax(column_max(rows, Col::Inline, l), if h && l.show_all_meta { 5 } else { 0 });
    let ghost spec_w = widths_spec(row_views(rows@), strs(tags@), l);
    let mut meta: Vec<usize> = Vec::new();
    let mut i: usize = 0;
    while i < tags.len()
        invariant
            i <= tags.len(),
            h == l.headers,
            spec_w == widths_spec(row_views(rows@), strs(tags@), l),
            meta@.map_values(|x: usize| x as nat) == spec_w.meta.take(i as int),
        decreases tags.len() - i,
    {
        let tw = if h { char_len(&tags[i]) } else { 0 };
        let w = umax(column_max(rows, Col::Meta(i), l), tw);
        let ghost before = meta@;
        meta.push(w);
        proof {
            assert(strs(tags@)[i as int] == tags@[i as int]@);
            assert(spec_w.meta[i as int] == w as nat);
            assert(meta@.map_values(|x: usize| x as nat) =~= before.map_values(|x: usize| x as nat).push(
                w as nat,
            ));
            assert(spec_w.meta.take(i + 1) =~= spec_w.meta.take(i as int).push(w as nat));
        }
        i += 1;
    }
    assert(spec_w.meta.take(tags.len() as int) =~= spec_w.meta);
    let r = LsColumnWidths { id, size, date, name, attr_count, attr_flag, inline, meta };
    assert(r@.meta =~= spec_w.meta);
    r
}

/// Appends `"  "` and `s` when `on`.
#[verifier::rlimit(50)]
fn push_col(out: &mut String, on: bool, s: &str)
    ensures
        final(out)@ == old(out)@ + col(on, s@),
{
    if on {
        push_str(out, "  ");
        push_str(out, s);
        proof {
            reveal_strlit("  ");
        }
        assert(final(out)@ =~= old(out)@ + col(on, s@));
    } else {
        assert(final(out)@ =~= old(out)@ + col(on, s@));
    }
}

/// `s` coloured.
#[verifier::rlimit(50)]
fn colored(s: &str, code: &str, sc: bool) -> (r: String)
    ensures
        r@ == colorized(s@, code@, sc),
{
    let mut out = String::new();
    push_colorized(&mut out, s, code, sc);
    assert(out@ =~= colorized(s@, code@, sc));
    out
}

/// The line of one row (see [`row_line_spec`]).
#[verifier::rlimit(50)]
pub fn ls_row_line(c: &LsRow, w: &LsColumnWidths, sc: bool) -> (r: String)
    ensures
        r@ == row_line_spec(c@, w@, sc),
{
    let r = row_line_with(c, w, sc, c.preview.as_str());
    assert(with_preview(c@, c.preview@) =~= c@);
    r
}

/// The row `c` with preview `p`.
pub open spec fn with_preview(c: LsCells, p: Seq<char>) -> LsCells {
    LsCells { preview: p, ..c }
}

/// The line of row `c` shown with preview `p`.
#[verifier::rlimit(50)]
fn row_line_with(c: &LsRow, w: &LsColumnWidths, sc: bool, p: &str) -> (r: String)
    ensures
        r@ == row_line_spec(with_preview(c@, p@), w@, sc),
{
    let ghost cv = c@;
    let ghost wv = w@;
    let mut line = String::new();
    let id = pad_right(c.id.as_str(), w.id);
    push_colorized(&mut line, id.as_str(), "1;33", sc);
    let size = pad_left(c.size.as_str(), w.size);
    push_col(&mut line, !c.size.as_str().is_empty(), size.as_str());
    let date = pad_left(c.date.as_str(), w.date);
    push_col(&mut line, !c.date.as_str().is_empty(), date.as_str());
    let count = colored(pad_left(c.attr_count.as_str(), w.attr_count).as_str(), "35", sc);
    push_col(&mut line, !c.attr_count.as_str().is_empty(), count.as_str());
    let flag = colored(pad_left(c.attr_flag.as_str(), w.attr_flag).as_str(), "1;35", sc);
    push_col(&mut line, w.attr_flag > 0, flag.as_str());
    let padded = pad_right(c.name.as_str(), w.name);
    let name = if str_eq(c.name.as_str(), c.id.as_str()) {
        padded
    } else {
        colored(padded.as_str(), "1;36", sc)
    };
    push_col(&mut line, !c.name.as_str().is_empty(), name.as_str());
    let ghost head = line@;
    let mut i: usize = 0;
    while i < c.meta_vals.len()
        invariant
            i <= c.meta_vals.len(),
            cv == c@,
            wv == w@,
            line@ == head + meta_cols(cv.meta_vals.take(i as int), wv.meta, sc),
        decreases c.meta_vals.len() - i,
    {
        let mw: usize = if i < w.meta.len() {
            w.meta[i]
        } else {
            0
        };
        let cell = colored(pad_right(c.meta_vals[i].as_str(), mw).as_str(), "36", sc);
        let ghost before = line@;
        push_str(&mut line, "  ");
        push_str(&mut line, cell.as_str());
        proof {
            reveal_strlit("  ");
            let t = cv.meta_vals.take(i + 1);
            assert(t.drop_last() =~= cv.meta_vals.take(i as int));
            assert(t.last() == c.meta_vals@[i as int]@);
            assert(i < wv.meta.len() ==> wv.meta[i as int] == mw as nat);
            assert(line@ =~= head + meta_cols(t, wv.meta, sc));
        }
        i += 1;
    }
    assert(cv.meta_vals.take(c.meta_vals.len() as int) =~= cv.meta_vals);
    let inline = colored(pad_right(c.meta_inline.as_str(), w.inline).as_str(), "36", sc);
    push_col(&mut line, !c.meta_inline.as_str().is_empty(), inline.as_str());
    push_col(&mut line, !p.is_empty(), p);
    proof {
        reveal_strlit("1;33");
    }
    assert(line@ =~= row_line_spec(with_preview(cv, p@), wv, sc));
    line
}

/// The header line (see [`header_line_spec`]).
#[verifier::rlimit(50)]
pub fn ls_header_line(tags: &Vec<String>, w: &LsColumnWidths, l: LsLayout) -> (r: String)
    ensures
        r@ == header_line_spec(strs(tags@), w@, l),
{
    let ghost wv = w@;
    let ghost tv = strs(tags@);
    let sc = l.style_color;
    proof {
        reveal_strlit("id");
        reveal_strlit("size");
        reveal_strlit("date");
        reveal_strlit("attrs");
        reveal_strlit("name");
        reveal_strlit("preview");
        reveal_strlit("1");
        reveal_strlit("  ");
    }
    let mut line = colored(pad_right("id", w.id).as_str(), "1", sc);
    push_col(&mut line, l.has_size, colored(pad_right("size", w.size).as_str(), "1", sc).as_str());
    push_col(&mut line, l.has_date, colored(pad_right("date", w.date).as_str(), "1", sc).as_str());
    push_col(&mut line, l.show_count, colored(pad_right("attrs", w.attr_count).as_str(), "1", sc).as_str());
    push_col(&mut line, l.show_flag, colored(pad_right("attrs", w.attr_flag).as_str(), "1", sc).as_str());
    push_col(&mut line, l.show_name, colored(pad_right("name", w.name).as_str(), "1", sc).as_str());
    let ghost head = line@;
    let mut i: usize = 0;
    while i < tags.len()
        invariant
            i <= tags.len(),
            wv == w@,
            tv == strs(tags@),
            sc == l.style_color,
            line@ == head + header_meta_cols(tv.take(i as int), wv.meta, sc),
        decreases tags.len() - i,
    {
        let mw: usize = if i < w.meta.len() {
            w.meta[i]
        } else {
            0
        };
        let cell = colored(pad_right(tags[i].as_str(), mw).as_str(), "1", sc);
        push_str(&mut line, "  ");
        push_str(&mut line, cell.as_str());
        proof {
            let t = tv.take(i + 1);
            assert(t.drop_last() =~= tv.take(i as int));
            assert(t.last() == tags@[i as int]@);
            assert(i < wv.meta.len() ==> wv.meta[i as int] == mw as nat);
            assert(line@ =~= head + header_meta_cols(t, wv.meta, sc));
        }
        i += 1;
    }
    assert(tv.take(tags.len() as int) =~= tv);
    push_col(&mut line, l.show_all_meta, colored(pad_right("attrs", w.inline).as_str(), "1", sc).as_str());
    push_col(&mut line, l.show_preview, colored("preview", "1", sc).as_str());
    assert(line@ =~= header_line_spec(tv, wv, l));
    line
}

/// `2 + w` for each attribute column.
pub open spec fn meta_sum(ms: Seq<nat>) -> nat
    decreases ms.len(),
{
    if ms.len() == 0 {
        0
    } else {
        meta_sum(ms.drop_last()) + 2 + ms.last()
    }
}

/// `2 + w` when `w` is not 0.
pub open spec fn gap(w: nat) -> nat {
    if w > 0 {
        2 + w
    } else {
        0
    }
}

/// The width the columns other than the preview take.
pub open spec fn fixed_spec(w: LsWidths) -> nat {
    w.id + gap(w.size) + gap(w.date) + gap(w.name) + gap(w.attr_count) + gap(w.attr_flag) + meta_sum(
        w.meta,
    ) + gap(w.inline)
}

/// The preview length when it is sized to the terminal (80 columns when
/// the width is unknown): what the other columns leave, less two, and at
/// least 20.
pub open spec fn preview_chars_spec(w: LsWidths, width: Option<usize>) -> nat {
    let t: nat = match width {
        Some(x) => x as nat,
        None => 80,
    };
    let f = fixed_spec(w) + 2;
    let left: nat = if t > f {
        (t - f) as nat
    } else {
        0
    };
    wmax(left, 20)
}

/// `n`, or `usize::MAX` when it is larger.
pub open spec fn sat(n: nat) -> nat {
    if n > usize::MAX {
        usize::MAX as nat
    } else {
        n
    }
}

/// The preview length when it is sized to the terminal (see
/// [`preview_chars_spec`]).
#[verifier::rlimit(50)]
pub fn auto_ls_preview_chars(w: &LsColumnWidths, width: Option<usize>) -> (r: usize)
    ensures
        r == preview_chars_spec(w@, width),
{
    let fixed = fixed_width(w);
    let term: usize = match width {
        Some(x) => x,
        None => 80,
    };
    let f2 = fixed.saturating_add(2);
    let left: usize = if term > f2 {
        term - f2
    } else {
        0
    };
    umax(left, 20)
}

/// Adds `2 + x` to `f` when `x` is not 0, stopping at `usize::MAX`.
#[verifier::rlimit(50)]
fn add_gap(f: usize, x: usize) -> (r: usize)
    ensures
        r == sat((f + gap(x as nat)) as nat),
{
    if x > 0 {
        f.saturating_add(2).saturating_add(x)
    } else {
        f
    }
}

/// The width of the columns other than the preview, stopping at
/// `usize::MAX`.
#[verifier::rlimit(50)]
fn fixed_width(w: &LsColumnWidths) -> (r: usize)
    ensures
        r == sat(fixed_spec(w@)),
{
    let ghost wv = w@;
    let mut fixed: usize = w.id;
    fixed = add_gap(fixed, w.size);
    fixed = add_gap(fixed, w.date);
    fixed = add_gap(fixed, w.name);
    fixed = add_gap(fixed, w.attr_count);
    fixed = add_gap(fixed, w.attr_flag);
    let ghost base: nat = (w.id + gap(wv.size) + gap(wv.date) + gap(wv.name) + gap(wv.attr_count)
        + gap(wv.attr_flag)) as nat;
    assert(fixed == sat(base));
    let mut i: usize = 0;
    assert(wv.meta.take(0) =~= Seq::<nat>::empty());
    while i < w.meta.len()
        invariant
            i <= w.meta.len(),
            wv == w@,
            fixed == sat(base + meta_sum(wv.meta.take(i as int))),
        decreases w.meta.len() - i,
    {
        proof {
            assert(wv.meta.take(i + 1).drop_last() =~= wv.meta.take(i as int));
            assert(wv.meta.take(i + 1).last() == w.meta@[i as int] as nat);
        }
        fixed = fixed.saturating_add(2).saturating_add(w.meta[i]);
        i += 1;
    }
    assert(wv.meta.take(w.meta.len() as int) =~= wv.meta);
    add_gap(fixed, w.inline)
}

/// The rows of the table, before the preview is sized to the terminal.
pub open spec fn table_cells(decs: Seq<DecoratedView>, items: Seq<MetaView>, l: LsLayout) -> Seq<
    LsCells,
> {
    Seq::new(decs.len(), |i: int| cells_spec(decs[i], items[i], l))
}

/// The preview shown in row `i`: when the preview is sized to the
/// terminal, the entry's stored preview cut to `pc` characters (an entry
/// without one keeps its cell); otherwise the cell as decorated.
pub open spec fn shown_preview(c: LsCells, m: MetaView, l: LsLayout, pc: nat) -> Seq<char> {
    if l.auto_preview && m.preview.len() > 0 {
        snippet_spec(m.preview, pc)
    } else {
        c.preview
    }
}

/// Line `i` of the table body: cut to the terminal width, and dimmed on
/// every other line in striped mode.
pub open spec fn body_line(
    c: LsCells,
    m: MetaView,
    i: int,
    w: LsWidths,
    l: LsLayout,
    width: Option<usize>,
) -> Seq<char> {
    let pc = preview_chars_spec(w, width);
    let s = fit(row_line_spec(with_preview(c, shown_preview(c, m, l, pc)), w, l.style_color), width);
    if l.stripe && i % 2 == 1 {
        dimmed(s)
    } else {
        s
    }
}

/// The lines `ls` prints as a table: the header line when asked for, then
/// one line per entry.
pub open spec fn table_lines_spec(
    decs: Seq<DecoratedView>,
    items: Seq<MetaView>,
    tags: Seq<Seq<char>>,
    l: LsLayout,
    width: Option<usize>,
) -> Seq<Seq<char>> {
    let rows = table_cells(decs, items, l);
    let w = widths_spec(rows, tags, l);
    let body = Seq::new(rows.len(), |i: int| body_line(rows[i], items[i], i, w, l, width));
    if l.headers {
        seq![fit(header_line_spec(tags, w, l), width)] + body
    } else {
        body
    }
}

/// The views of decorated entries.
pub open spec fn dec_views(v: Seq<DecoratedEntry>) -> Seq<DecoratedView> {
    v.map_values(|d: DecoratedEntry| d@)
}

/// The views of entries.
pub open spec fn meta_views(v: Seq<Meta>) -> Seq<MetaView> {
    v.map_values(|m: Meta| m@)
}

/// A line cut to the terminal width when there is one.
#[verifier::rlimit(50)]
fn fit_line(s: String, width: Option<usize>) -> (r: String)
    ensures
        r@ == fit(s@, width),
{
    match width {
        Some(w) => trim_ansi_to_width(s.as_str(), w),
        None => s,
    }
}

/// The table `ls` prints (see [`table_lines_spec`]) for the decorated
/// entries `decorated` of `items`, the attribute columns `tags`, and the
/// terminal width `width`.
#[verifier::rlimit(50)]
pub fn ls_table_lines(
    decorated: &Vec<DecoratedEntry>,
    items: &Vec<Meta>,
    tags: &Vec<String>,
    l: LsLayout,
    width: Option<usize>,
) -> (r: Vec<String>)
    requires
        decorated@.len() == items@.len(),
        forall|i: int| 0 <= i < items@.len() ==> (#[trigger] items@[i]).wf(),
    ensures
        strs(r@) == table_lines_spec(dec_views(decorated@), meta_views(items@), strs(tags@), l, width),
{
    let ghost dv = dec_views(decorated@);
    let ghost mv = meta_views(items@);
    let ghost cells = table_cells(dv, mv, l);
    let mut rows: Vec<LsRow> = Vec::new();
    let mut i: usize = 0;
    while i < decorated.len()
        invariant
            i <= decorated.len(),
            decorated@.len() == items@.len(),
            forall|q: int| 0 <= q < items@.len() ==> (#[trigger] items@[q]).wf(),
            dv == dec_views(decorated@),
            mv == meta_views(items@),
            cells == table_cells(dv, mv, l),
            row_views(rows@) == cells.take(i as int),
        decreases decorated.len() - i,
    {
        let row = ls_cells(&decorated[i], &items[i], l);
        let ghost before = rows@;
        rows.push(row);
        proof {
            assert(row_views(rows@) =~= row_views(before).push(row@));
            assert(cells.take(i + 1) =~= cells.take(i as int).push(row@));
        }
        i += 1;
    }
    assert(cells.take(decorated.len() as int) =~= cells);
    let w = ls_widths(&rows, tags, l);
    let ghost wv = w@;
    let ghost tv = strs(tags@);
    let pc = auto_ls_preview_chars(&w, width);
    let ghost body = Seq::new(cells.len(), |q: int| body_line(cells[q], mv[q], q, wv, l, width));
    let mut out: Vec<String> = Vec::new();
    if l.headers {
        out.push(fit_line(ls_header_line(tags, &w, l), width));
    }
    let ghost head = strs(out@);
    let mut i: usize = 0;
    while i < rows.len()
        invariant
            i <= rows.len(),
            rows@.len() == items@.len(),
            mv == meta_views(items@),
            row_views(rows@) == cells,
            wv == w@,
            pc == preview_chars_spec(wv, width),
            body == Seq::new(cells.len(), |q: int| body_line(cells[q], mv[q], q, wv, l, width)),
            strs(out@) == head + body.take(i as int),
        decreases rows.len() - i,
    {
        let sized = l.auto_preview && !items[i].preview.as_str().is_empty();
        let line = if sized {
            let p = preview_snippet(items[i].preview.as_str(), pc);
            row_line_with(&rows[i], &w, l.style_color, p.as_str())
        } else {
            row_line_with(&rows[i], &w, l.style_color, rows[i].preview.as_str())
        };
        let fitted = fit_line(line, width);
        let shown = if l.stripe && i % 2 == 1 {
            dim_ansi_line(fitted.as_str())
        } else {
            fitted
        };
        let ghost before = out@;
        out.push(shown);
        proof {
            assert(cells[i as int] == rows@[i as int]@);
            assert(mv[i as int] == items@[i as int]@);
            assert(shown@ == body[i as int]);
            assert(strs(out@) =~= strs(before).push(shown@));
            assert(body.take(i + 1) =~= body.take(i as int).push(shown@));
        }
        i += 1;
    }
    assert(body.take(rows.len() as int) =~= body);
    out
}

} // verus!
