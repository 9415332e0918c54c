//! Text helpers for listing entries: escaping of attribute values for
//! display, previews, padding, colouring and cutting lines to the width
//! of the terminal.
use vstd::prelude::*;

use crate::attrfile::{prepend, unesc, AttrError};
use crate::meta::{Meta, MetaView};
use crate::text::{chars_of, dec_int, i64_to_dec, lower_seq, push_char, push_str, str_eq};

verus! {

// ---------------------------------------------------------------------------
// Escaping for display
// ---------------------------------------------------------------------------

/// The display form of one character: backslash, newline, carriage return
/// and tab are written as escapes; `=` is left alone.
pub open spec fn out_char(c: char) -> Seq<char> {
    if c == '\\' {
        seq!['\\', '\\']
    } else if c == '\n' {
        seq!['\\', 'n']
    } else if c == '\r' {
        seq!['\\', 'r']
    } else if c == '\t' {
        seq!['\\', 't']
    } else {
        seq![c]
    }
}

/// The display form of a string.
pub open spec fn esc_out(s: Seq<char>) -> Seq<char>
    decreases s.len(),
{
    if s.len() == 0 {
        Seq::empty()
    } else {
        esc_out(s.drop_last()) + out_char(s.last())
    }
}

/// The display form of an attribute value.
#[verifier::rlimit(50)]
pub fn escape_attr_output(input: &str) -> (r: String)
    ensures
        r@ == esc_out(input@),
{
    let v = chars_of(input);
    let mut out = String::new();
    let mut i: usize = 0;
    while i < v.len()
        invariant
            i <= v.len(),
            v@ == input@,
            out@ == esc_out(v@.take(i as int)),
        decreases v.len() - i,
    {
        let c = v[i];
        if c == '\\' {
            push_str(&mut out, "\\\\");
        } else if c == '\n' {
            push_str(&mut out, "\\n");
        } else if c == '\r' {
            push_str(&mut out, "\\r");
        } else if c == '\t' {
            push_str(&mut out, "\\t");
        } else {
            push_char(&mut out, c);
        }
        proof {
            reveal_strlit("\\\\");
            reveal_strlit("\\n");
            reveal_strlit("\\r");
            reveal_strlit("\\t");
            assert(v@.take(i + 1).drop_last() =~= v@.take(i as int));
            assert(out@ =~= esc_out(v@.take(i + 1)));
        }
        i += 1;
    }
    assert(v@.take(v.len() as int) =~= v@);
    out
}

/// The display form written from the front: the first character's form,
/// then that of the rest.
#[verifier::rlimit(50)]
pub proof fn lemma_esc_out_front(s: Seq<char>)
    requires
        s.len() > 0,
    ensures
        esc_out(s) == out_char(s[0]) + esc_out(s.drop_first()),
    decreases s.len(),
{
    if s.len() == 1 {
        assert(s.drop_last() =~= Seq::<char>::empty());
        assert(s.drop_first() =~= Seq::<char>::empty());
        assert(esc_out(s.drop_last()) =~= Seq::<char>::empty());
        assert(s.last() == s[0]);
        assert(esc_out(s) == esc_out(s.drop_last()) + out_char(s.last()));
        assert(esc_out(s) =~= out_char(s[0]));
        assert(out_char(s[0]) + Seq::<char>::empty() =~= out_char(s[0]));
    } else {
        lemma_esc_out_front(s.drop_last());
        assert(s.drop_last().drop_first() =~= s.drop_first().drop_last());
        assert(s.drop_first().last() == s.last());
        assert(esc_out(s) =~= out_char(s[0]) + esc_out(s.drop_first()));
    }
}

#[verifier::rlimit(50)]
proof fn lemma_unesc_esc_out(s: Seq<char>, t: Seq<char>)
    ensures
        unesc(esc_out(s) + t) == prepend(s, unesc(t)),
    decreases s.len(),
{
    if s.len() == 0 {
        assert(esc_out(s) + t =~= t);
        match unesc(t) {
            Ok(x) => assert(s + x =~= x),
            Err(_) => {},
        }
    } else {
        let c = s[0];
        let rest = esc_out(s.drop_first()) + t;
        lemma_esc_out_front(s);
        lemma_unesc_esc_out(s.drop_first(), t);
        assert(esc_out(s) + t =~= out_char(c) + rest);
        let w = out_char(c) + rest;
        if c == '\\' || c == '\n' || c == '\r' || c == '\t' {
            assert(w[0] == '\\');
            assert(w.skip(2) =~= rest);
        } else {
            assert(w[0] == c);
            assert(w.drop_first() =~= rest);
        }
        match unesc(t) {
            Ok(x) => {
                assert(seq![c] + (s.drop_first() + x) =~= s + x);
            },
            Err(_) => {},
        }
    }
}

/// What `escape_attr_output` shows of a value holds no newline, carriage
/// return or tab, and reading it as an attribute-file value (unescaping)
/// gives the value back.
#[verifier::rlimit(50)]
pub proof fn lemma_display_escape_roundtrip(s: Seq<char>)
    ensures
        unesc(esc_out(s)) == Ok::<Seq<char>, AttrError>(s),
        forall|j: int|
            0 <= j < esc_out(s).len() ==> {
                let c = #[trigger] esc_out(s)[j];
                c != '\n' && c != '\r' && c != '\t'
            },
    decreases s.len(),
{
    lemma_unesc_esc_out(s, Seq::empty());
    assert(esc_out(s) + Seq::<char>::empty() =~= esc_out(s));
    assert(s + Seq::<char>::empty() =~= s);
    if s.len() > 0 {
        lemma_display_escape_roundtrip(s.drop_last());
        let a = esc_out(s.drop_last());
        let e = esc_out(s);
        assert(e == a + out_char(s.last()));
        assert forall|j: int| 0 <= j < e.len() implies {
            let c = #[trigger] e[j];
            c != '\n' && c != '\r' && c != '\t'
        } by {
            if j < a.len() {
                assert(e[j] == a[j]);
            } else {
                assert(e[j] == out_char(s.last())[j - a.len()]);
            }
        }
    }
}

// ---------------------------------------------------------------------------
// Previews
// ---------------------------------------------------------------------------

/// The first `chars` characters of a preview, with `...` added when it
/// was cut and more than three characters are shown.
pub open spec fn snippet_spec(p: Seq<char>, chars: nat) -> Seq<char> {
    if chars == 0 {
        Seq::empty()
    } else if p.len() <= chars {
        p
    } else if chars > 3 {
        p.take(chars as int) + seq!['.', '.', '.']
    } else {
        p.take(chars as int)
    }
}

/// The first `chars` characters of a preview (see [`snippet_spec`]).
#[verifier::rlimit(50)]
pub fn preview_snippet(preview: &str, chars: usize) -> (r: String)
    ensures
        r@ == snippet_spec(preview@, chars as nat),
{
    if chars == 0 {
        return String::new();
    }
    let v = chars_of(preview);
    let mut out = String::new();
    let mut i: usize = 0;
    while i < chars
        invariant
            i <= chars,
            v@ == preview@,
            i <= v.len(),
            out@ == v@.take(i as int),
        decreases chars - i,
    {
        if i >= v.len() {
            assert(v@.take(i as int) =~= v@);
            return out;
        }
        push_char(&mut out, v[i]);
        assert(out@ =~= v@.take(i + 1));
        i += 1;
    }
    if v.len() > chars && chars > 3 {
        push_str(&mut out, "...");
        proof {
            reveal_strlit("...");
        }
    }
    proof {
        if v.len() <= chars {
            assert(v@.take(chars as int) =~= v@);
        }
    }
    out
}

// ---------------------------------------------------------------------------
// Attribute keys and values
// ---------------------------------------------------------------------------

/// A character allowed in an attribute key.
pub open spec fn key_char(c: char) -> bool {
    ('0' <= c && c <= '9') || ('a' <= c && c <= 'z') || ('A' <= c && c <= 'Z') || c == '_' || c
        == '-'
}

/// The names of the fields every entry has.
pub open spec fn reserved_key(k: Seq<char>) -> bool {
    k == "id"@ || k == "ts"@ || k == "size"@ || k == "preview"@
}

/// A key that users may set: not a reserved field name, not empty, made of
/// ASCII letters, digits, `_` and `-`, neither starting nor ending with
/// `-`, and without two `-` in a row.
pub open spec fn writable_key(k: Seq<char>) -> bool {
    &&& !reserved_key(k)
    &&& k.len() > 0
    &&& k[0] != '-'
    &&& k.last() != '-'
    &&& forall|i: int| 0 <= i < k.len() ==> key_char(#[trigger] k[i])
    &&& forall|i: int| 0 <= i < k.len() - 1 ==> !(#[trigger] k[i] == '-' && k[i + 1] == '-')
}

/// Whether users may set attribute `key` (see [`writable_key`]).
#[verifier::rlimit(50)]
pub fn is_writable_attr_key(key: &str) -> (r: bool)
    ensures
        r == writable_key(key@),
{
    if str_eq(key, "id") || str_eq(key, "ts") || str_eq(key, "size") || str_eq(key, "preview") {
        return false;
    }
    let v = chars_of(key);
    if v.len() == 0 || v[0] == '-' || v[v.len() - 1] == '-' {
        return false;
    }
    let mut prev_dash = false;
    let mut i: usize = 0;
    while i < v.len()
        invariant
            0 < v.len(),
            i <= v.len(),
            v@ == key@,
            forall|j: int| 0 <= j < i ==> key_char(#[trigger] v@[j]),
            forall|j: int| 0 <= j < i - 1 ==> !(#[trigger] v@[j] == '-' && v@[j + 1] == '-'),
            prev_dash == (i > 0 && v@[i - 1] == '-'),
        decreases v.len() - i,
    {
        let c = v[i];
        let ok = ('0' <= c && c <= '9') || ('a' <= c && c <= 'z') || ('A' <= c && c <= 'Z') || c
            == '_' || c == '-';
        if !ok {
            return false;
        }
        if c == '-' {
            if prev_dash {
                assert(v@[i - 1] == '-' && v@[i - 1 + 1] == '-');
                return false;
            }
            prev_dash = true;
        } else {
            prev_dash = false;
        }
        i += 1;
    }
    true
}

/// What `attr_value` gives for a key: the id (lower-cased), the timestamp
/// and the size for the fixed fields, the preview when it is not empty,
/// and the attribute of that name otherwise.
pub open spec fn attr_value_spec(m: MetaView, key: Seq<char>, with_preview: bool) -> Option<
    Seq<char>,
> {
    if key == "id"@ {
        Some(lower_seq(m.id))
    } else if key == "ts"@ {
        Some(m.ts)
    } else if key == "size"@ {
        Some(dec_int(m.size as int))
    } else if key == "preview"@ && (with_preview || m.preview.len() > 0) {
        if m.preview.len() > 0 {
            Some(m.preview)
        } else {
            None
        }
    } else if m.attrs.contains_key(key) {
        Some(m.attrs[key])
    } else {
        None
    }
}

/// The view of an optional string.
pub open spec fn opt_str_view(o: Option<String>) -> Option<Seq<char>> {
    match o {
        Some(s) => Some(s@),
        None => None,
    }
}

/// The value of field or attribute `key` of an entry (see
/// [`attr_value_spec`]).
#[verifier::rlimit(50)]
pub fn attr_value(meta: &Meta, key: &str, with_preview: bool) -> (r: Option<String>)
    requires
        meta.wf(),
    ensures
        opt_str_view(r) == attr_value_spec(meta@, key@, with_preview),
{
    if str_eq(key, "id") {
        return Some(meta.display_id());
    }
    if str_eq(key, "ts") {
        return Some(meta.ts.clone());
    }
    if str_eq(key, "size") {
        return Some(i64_to_dec(meta.size));
    }
    let has_preview = !meta.preview.as_str().is_empty();
    if str_eq(key, "preview") && (with_preview || has_preview) {
        if has_preview {
            return Some(meta.preview.clone());
        }
        return None;
    }
    match meta.attrs.get(key) {
        Some(v) => Some(v.clone()),
        None => None,
    }
}

// ---------------------------------------------------------------------------
// Colour and padding
// ---------------------------------------------------------------------------

/// `s` wrapped in the ANSI colour `code` when colour is on and `s` is not
/// empty; `s` itself otherwise.
pub open spec fn colorized(s: Seq<char>, code: Seq<char>, enabled: bool) -> Seq<char> {
    if enabled && s.len() > 0 {
        seq!['\x1b', '['] + code + seq!['m'] + s + seq!['\x1b', '[', '0', 'm']
    } else {
        s
    }
}

/// Appends `s`, coloured with `code` when `enabled` (see [`colorized`]).
#[verifier::rlimit(50)]
pub fn push_colorized(buf: &mut String, s: &str, code: &str, enabled: bool)
    ensures
        final(buf)@ == old(buf)@ + colorized(s@, code@, enabled),
{
    if enabled && !s.is_empty() {
        push_char(buf, '\x1b');
        push_char(buf, '[');
        push_str(buf, code);
        push_char(buf, 'm');
        push_str(buf, s);
        push_char(buf, '\x1b');
        push_char(buf, '[');
        push_char(buf, '0');
        push_char(buf, 'm');
        assert(buf@ =~= old(buf)@ + colorized(s@, code@, enabled));
    } else {
        push_str(buf, s);
    }
}

/// `s` coloured with `code` when `enabled` (see [`colorized`]).
#[verifier::rlimit(50)]
pub fn paint(s: &str, code: &str, enabled: bool) -> (r: String)
    ensures
        r@ == colorized(s@, code@, enabled),
{
    let mut out = String::new();
    push_colorized(&mut out, s, code, enabled);
    assert(out@ =~= colorized(s@, code@, enabled));
    out
}

/// An entry id as listings colour it: bold yellow.
#[verifier::rlimit(50)]
pub fn color_id(s: &str, enabled: bool) -> (r: String)
    ensures
        r@ == colorized(s@, "1;33"@, enabled),
{
    paint(s, "1;33", enabled)
}

/// A label as listings colour it: bold.
#[verifier::rlimit(50)]
pub fn color_label(s: &str, enabled: bool) -> (r: String)
    ensures
        r@ == colorized(s@, "1"@, enabled),
{
    paint(s, "1", enabled)
}

/// Attributes as listings colour them: magenta.
#[verifier::rlimit(50)]
pub fn color_attrs(s: &str, enabled: bool) -> (r: String)
    ensures
        r@ == colorized(s@, "35"@, enabled),
{
    paint(s, "35", enabled)
}

/// A file name as listings colour it: bold cyan.
#[verifier::rlimit(50)]
pub fn color_name(s: &str, enabled: bool) -> (r: String)
    ensures
        r@ == colorized(s@, "1;36"@, enabled),
{
    paint(s, "1;36", enabled)
}

/// `n` spaces.
pub open spec fn spaces(n: nat) -> Seq<char> {
    Seq::new(n, |i: int| ' ')
}

/// `s` followed by spaces up to `width` characters.
pub open spec fn padded_right(s: Seq<char>, width: nat) -> Seq<char> {
    if s.len() >= width {
        s
    } else {
        s + spaces((width - s.len()) as nat)
    }
}

/// `s` preceded by spaces up to `width` characters.
pub open spec fn padded_left(s: Seq<char>, width: nat) -> Seq<char> {
    if s.len() >= width {
        s
    } else {
        spaces((width - s.len()) as nat) + s
    }
}

#[verifier::rlimit(50)]
fn push_spaces(out: &mut String, n: usize)
    ensures
        final(out)@ == old(out)@ + spaces(n as nat),
{
    let mut i: usize = 0;
    while i < n
        invariant
            i <= n,
            out@ == old(out)@ + spaces(i as nat),
        decreases n - i,
    {
        push_char(out, ' ');
        i += 1;
        assert(out@ =~= old(out)@ + spaces(i as nat));
    }
}

/// `s` padded with spaces on the right to `width` characters.
#[verifier::rlimit(50)]
pub fn pad_right(s: &str, width: usize) -> (r: String)
    ensures
        r@ == padded_right(s@, width as nat),
{
    let v = chars_of(s);
    let mut out = String::new();
    push_str(&mut out, s);
    if v.len() < width {
        push_spaces(&mut out, width - v.len());
    }
    assert(out@ =~= padded_right(s@, width as nat));
    out
}

/// `s` padded with spaces on the left to `width` characters.
#[verifier::rlimit(50)]
pub fn pad_left(s: &str, width: usize) -> (r: String)
    ensures
        r@ == padded_left(s@, width as nat),
{
    let v = chars_of(s);
    let mut out = String::new();
    if v.len() < width {
        push_spaces(&mut out, width - v.len());
    }
    push_str(&mut out, s);
    assert(out@ =~= padded_left(s@, width as nat));
    out
}

// ---------------------------------------------------------------------------
// Cutting lines to the terminal width
// ---------------------------------------------------------------------------

/// A character that ends an ANSI control sequence.
pub open spec fn csi_final(c: char) -> bool {
    '\x40' <= c && c <= '\x7e'
}

/// The position just after the end of a control sequence whose body starts
/// at `from` (the end of `s` when it never ends).
pub open spec fn csi_end(s: Seq<char>, from: int) -> int
    decreases s.len() - from,
{
    if from >= s.len() {
        s.len() as int
    } else if csi_final(s[from]) {
        from + 1
    } else {
        csi_end(s, from + 1)
    }
}

#[verifier::rlimit(50)]
pub proof fn lemma_csi_end_bounds(s: Seq<char>, from: int)
    requires
        0 <= from,
    ensures
        from <= csi_end(s, from) || from >= s.len(),
        csi_end(s, from) <= s.len(),
        from < s.len() ==> from < csi_end(s, from),
    decreases s.len() - from,
{
    if from < s.len() && !csi_final(s[from]) {
        lemma_csi_end_bounds(s, from + 1);
    }
}

/// Copies `s` from position `i` on, keeping every control sequence and at
/// most `width` visible characters in all (`visible` of them already
/// taken).  Gives the text kept and the visible characters counted.
pub open spec fn trim_from(s: Seq<char>, i: int, width: nat, visible: nat) -> (Seq<char>, nat)
    decreases s.len() - i,
{
    if i < 0 || i >= s.len() {
        (Seq::empty(), visible)
    } else if s[i] == '\x1b' && i + 1 < s.len() && s[i + 1] == '[' {
        let end = csi_end(s, i + 2);
        proof {
            lemma_csi_end_bounds(s, i + 2);
        }
        if end <= i {
            (Seq::empty(), visible)
        } else {
            let rest = trim_from(s, end, width, visible);
            (s.subrange(i, end) + rest.0, rest.1)
        }
    } else if visible >= width {
        (Seq::empty(), visible)
    } else {
        let rest = trim_from(s, i + 1, width, visible + 1);
        (seq![s[i]] + rest.0, rest.1)
    }
}

/// A line cut to `width` visible characters; control sequences are kept,
/// and a reset sequence is added when the line reached the width.
pub open spec fn trim_ansi_spec(s: Seq<char>, width: nat) -> Seq<char> {
    if width == 0 {
        Seq::empty()
    } else {
        let r = trim_from(s, 0, width, 0);
        if r.1 >= width {
            r.0 + seq!['\x1b', '[', '0', 'm']
        } else {
            r.0
        }
    }
}

/// Cuts a line with ANSI colour sequences to `width` visible characters
/// (see [`trim_ansi_spec`]).
#[verifier::rlimit(50)]
pub fn trim_ansi_to_width(s: &str, width: usize) -> (r: String)
    ensures
        r@ == trim_ansi_spec(s@, width as nat),
{
    if width == 0 {
        return String::new();
    }
    let v = chars_of(s);
    let mut out = String::new();
    let mut visible: usize = 0;
    let mut i: usize = 0;
    while i < v.len()
        invariant
            i <= v.len(),
            v@ == s@,
            visible <= width,
            out@ + trim_from(v@, i as int, width as nat, visible as nat).0 == trim_from(
                v@,
                0,
                width as nat,
                0,
            ).0,
            trim_from(v@, i as int, width as nat, visible as nat).1 == trim_from(
                v@,
                0,
                width as nat,
                0,
            ).1,
        ensures
            trim_from(v@, i as int, width as nat, visible as nat).0 == Seq::<char>::empty(),
            trim_from(v@, i as int, width as nat, visible as nat).1 == visible,
            out@ == trim_from(v@, 0, width as nat, 0).0,
            visible as nat == trim_from(v@, 0, width as nat, 0).1,
        decreases v.len() - i,
    {
        let ghost before = out@;
        if v[i] == '\x1b' && i + 1 < v.len() && v[i + 1] == '[' {
            let mut end: usize = i + 2;
            while end < v.len() && !('\x40' <= v[end] && v[end] <= '\x7e')
                invariant
                    i + 2 <= end <= v.len(),
                    csi_end(v@, (i + 2) as int) == csi_end(v@, end as int),
                decreases v.len() - end,
            {
                end += 1;
            }
            if end < v.len() {
                end += 1;
            }
            proof {
                lemma_csi_end_bounds(v@, (i + 2) as int);
                assert(end == csi_end(v@, (i + 2) as int));
            }
            let mut j: usize = i;
            while j < end
                invariant
                    i <= j <= end <= v.len(),
                    out@ == before + v@.subrange(i as int, j as int),
                decreases end - j,
            {
                push_char(&mut out, v[j]);
                j += 1;
                assert(out@ =~= before + v@.subrange(i as int, j as int));
            }
            proof {
                let rest = trim_from(v@, end as int, width as nat, visible as nat);
                assert(trim_from(v@, i as int, width as nat, visible as nat).0 == v@.subrange(
                    i as int,
                    end as int,
                ) + rest.0);
                assert(out@ + rest.0 =~= before + (v@.subrange(i as int, end as int) + rest.0));
            }
            i = end;
        } else {
            if visible >= width {
                proof {
                    assert(out@ =~= out@ + Seq::<char>::empty());
                }
                break;
            }
            push_char(&mut out, v[i]);
            proof {
                let rest = trim_from(v@, i + 1, width as nat, (visible + 1) as nat);
                assert(out@ + rest.0 =~= before + (seq![v@[i as int]] + rest.0));
            }
            visible += 1;
            i += 1;
        }
    }
    let ghost total = trim_from(v@, 0, width as nat, 0);
    if visible >= width {
        push_char(&mut out, '\x1b');
        push_char(&mut out, '[');
        push_char(&mut out, '0');
        push_char(&mut out, 'm');
    }
    assert(out@ =~= trim_ansi_spec(s@, width as nat));
    out
}

/// Reading the `preview` field gives the preview whenever it is not
/// empty, whether or not previews were asked for; `with_preview` only
/// decides what an empty preview reads as (nothing, rather than a user
/// attribute of that name), and it changes no other key.
#[verifier::rlimit(50)]
pub proof fn lemma_preview_field(m: MetaView, key: Seq<char>, with_preview: bool)
    ensures
        m.preview.len() > 0 ==> attr_value_spec(m, "preview"@, with_preview) == Some(m.preview),
        m.preview.len() == 0 && with_preview ==> attr_value_spec(m, "preview"@, with_preview) is None,
        m.preview.len() == 0 && !with_preview ==> attr_value_spec(m, "preview"@, with_preview) == (if m.attrs.contains_key(
            "preview"@,
        ) {
            Some(m.attrs["preview"@])
        } else {
            None
        }),
        key != "preview"@ ==> attr_value_spec(m, key, true) == attr_value_spec(m, key, false),
{
    reveal_strlit("preview");
    reveal_strlit("id");
    reveal_strlit("ts");
    reveal_strlit("size");
    assert("preview"@.len() == 7 && "id"@.len() == 2 && "ts"@.len() == 2 && "size"@.len() == 4);
    assert("preview"@ != "id"@ && "preview"@ != "ts"@ && "preview"@ != "size"@);
}

} // verus!
