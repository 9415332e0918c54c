//! The attribute file format: one `key=value` line per field, with `\`,
//! newline, carriage return, tab and `=` escaped.
use vstd::prelude::*;

use crate::meta::{Meta, MetaView};
use crate::strmap::{has_key, pairs_map, sorted_keys, value_of, StrMap, key_index, lemma_value_of_index, lemma_sorted_unique};
use crate::text::{chars_of, dec_int, i64_to_dec, is_digit, is_ws, lemma_parse_dec_int, parse_i64_range, parse_i64_spec, push_char, push_range, push_str, range_eq, string_of, trim, trim_bounds, trim_end, trim_start};

verus! {

// ---------------------------------------------------------------------------
// Specification
// ---------------------------------------------------------------------------

/// Characters that the attribute format escapes.
pub open spec fn is_esc_special(c: char) -> bool {
    c == '\\' || c == '\n' || c == '\r' || c == '\t' || c == '='
}

/// The escaped form of one character.
pub open spec fn esc_char(c: char) -> Seq<char> {
    if c == '\\' {
        seq!['\\', '\\']
    } else if c == '\n' {
        seq!['\\', 'n']
    } else if c == '\r' {
        seq!['\\', 'r']
    } else if c == '\t' {
        seq!['\\', 't']
    } else if c == '=' {
        seq!['\\', '=']
    } else {
        seq![c]
    }
}

/// The escaped form of a string.
pub open spec fn esc(s: Seq<char>) -> Seq<char>
    decreases s.len(),
{
    if s.len() == 0 {
        Seq::empty()
    } else {
        esc_char(s[0]) + esc(s.drop_first())
    }
}

/// Why an attribute file could not be read.
#[derive(Clone, Copy, Debug, PartialEq, Eq, Structural)]
pub enum AttrError {
    /// A non-blank line holds no unescaped `=`.
    InvalidLine,
    /// A value ends inside an escape sequence.
    UnterminatedEscape,
    /// An escape sequence names an unknown character.
    InvalidEscape(char),
    /// The `size` field is not an `i64`.
    InvalidSize,
}

/// The character that `\c` stands for, if any.
pub open spec fn unesc_code(c: char) -> Option<char> {
    if c == '\\' {
        Some('\\')
    } else if c == 'n' {
        Some('\n')
    } else if c == 'r' {
        Some('\r')
    } else if c == 't' {
        Some('\t')
    } else if c == '=' {
        Some('=')
    } else {
        None
    }
}

/// Prepends `p` to a successful result.
pub open spec fn prepend(p: Seq<char>, r: Result<Seq<char>, AttrError>) -> Result<Seq<char>, AttrError> {
    match r {
        Ok(x) => Ok(p + x),
        Err(e) => Err(e),
    }
}

/// Decoding of an escaped string; the first bad escape from the left is
/// reported.
pub open spec fn unesc(s: Seq<char>) -> Result<Seq<char>, AttrError>
    decreases s.len(),
{
    if s.len() == 0 {
        Ok(Seq::empty())
    } else if s[0] != '\\' {
        prepend(seq![s[0]], unesc(s.drop_first()))
    } else if s.len() == 1 {
        Err(AttrError::UnterminatedEscape)
    } else {
        match unesc_code(s[1]) {
            None => Err(AttrError::InvalidEscape(s[1])),
            Some(d) => prepend(seq![d], unesc(s.skip(2))),
        }
    }
}

pub open spec fn shift(r: Option<int>, n: int) -> Option<int> {
    match r {
        Some(j) => Some(j + n),
        None => None,
    }
}

/// Position of the first `=` not preceded by an odd run of backslashes;
/// `st` tells whether the scan starts right after an unpaired backslash.
pub open spec fn find_eq(s: Seq<char>, st: bool) -> Option<int>
    decreases s.len(),
{
    if s.len() == 0 {
        None
    } else if s[0] == '\\' {
        shift(find_eq(s.drop_first(), !st), 1)
    } else if s[0] == '=' && !st {
        Some(0)
    } else {
        shift(find_eq(s.drop_first(), false), 1)
    }
}

pub open spec fn kw_id() -> Seq<char> {
    seq!['i', 'd']
}

pub open spec fn kw_ts() -> Seq<char> {
    seq!['t', 's']
}

pub open spec fn kw_size() -> Seq<char> {
    seq!['s', 'i', 'z', 'e']
}

pub open spec fn kw_preview() -> Seq<char> {
    seq!['p', 'r', 'e', 'v', 'i', 'e', 'w']
}

/// The four keys that name the fixed fields of an entry.
pub open spec fn is_reserved_key(k: Seq<char>) -> bool {
    k == kw_id() || k == kw_ts() || k == kw_size() || k == kw_preview()
}

/// The state before any line is read.
pub open spec fn empty_meta_view() -> MetaView {
    MetaView {
        id: Seq::empty(),
        ts: Seq::empty(),
        size: 0,
        preview: Seq::empty(),
        attrs: Map::empty(),
    }
}

/// The effect of one trimmed, non-blank line.
pub open spec fn parse_line(line: Seq<char>, st: MetaView) -> Result<MetaView, AttrError> {
    match find_eq(line, false) {
        None => Err(AttrError::InvalidLine),
        Some(i) => {
            let kr = line.take(i);
            let vr = line.skip(i + 1);
            match unesc(kr) {
                Err(e) => Err(e),
                Ok(k) => {
                    if k == kw_size() {
                        match parse_i64_spec(vr) {
                            Some(n) => Ok(MetaView { size: n, ..st }),
                            None => Err(AttrError::InvalidSize),
                        }
                    } else {
                        match unesc(vr) {
                            Err(e) => Err(e),
                            Ok(v) => {
                                if k == kw_id() {
                                    Ok(MetaView { id: v, ..st })
                                } else if k == kw_ts() {
                                    Ok(MetaView { ts: v, ..st })
                                } else if k == kw_preview() {
                                    Ok(MetaView { preview: v, ..st })
                                } else {
                                    Ok(MetaView { attrs: st.attrs.insert(k, v), ..st })
                                }
                            },
                        }
                    }
                },
            }
        },
    }
}

/// Index of the first newline of `s`, or its length.
pub open spec fn nl_index(s: Seq<char>) -> int
    decreases s.len(),
{
    if s.len() == 0 {
        0
    } else if s[0] == '\n' {
        0
    } else {
        nl_index(s.drop_first()) + 1
    }
}

/// Reading the lines of `s` one by one, skipping blank ones.
pub open spec fn parse_from(s: Seq<char>, st: MetaView) -> Result<MetaView, AttrError>
    decreases s.len(),
{
    let e = nl_index(s);
    let line = trim(s.take(e));
    let next = if line.len() == 0 {
        Ok(st)
    } else {
        parse_line(line, st)
    };
    match next {
        Err(err) => Err(err),
        Ok(st2) => if e >= s.len() {
            Ok(st2)
        } else {
            proof {
                lemma_nl_index(s);
            }
            parse_from(s.skip(e + 1), st2)
        },
    }
}

/// What reading an attribute file gives.
pub open spec fn parse_attr_spec(s: Seq<char>) -> Result<MetaView, AttrError> {
    parse_from(s, empty_meta_view())
}

/// One `key=value` line without its newline.
pub open spec fn line_content(k: Seq<char>, v: Seq<char>) -> Seq<char> {
    esc(k) + seq!['='] + esc(v)
}

/// The preview is written only when it holds more than white space.
pub open spec fn keeps_preview(preview: Seq<char>) -> bool {
    trim(preview).len() > 0
}

/// Lines for the user attributes, in key order.
pub open spec fn attr_lines(ps: Seq<(Seq<char>, Seq<char>)>) -> Seq<Seq<char>> {
    ps.map_values(|p: (Seq<char>, Seq<char>)| line_content(p.0, p.1))
}

/// All lines of an attribute file, in order.
pub open spec fn meta_lines(
    id: Seq<char>,
    ts: Seq<char>,
    size: i64,
    preview: Seq<char>,
    ps: Seq<(Seq<char>, Seq<char>)>,
) -> Seq<Seq<char>> {
    seq![
        line_content(kw_id(), id),
        line_content(kw_ts(), ts),
        esc(kw_size()) + seq!['='] + dec_int(size as int),
    ] + (if keeps_preview(preview) {
        seq![line_content(kw_preview(), preview)]
    } else {
        Seq::empty()
    }) + attr_lines(ps)
}

/// Each line followed by a newline.
pub open spec fn lines_text(ls: Seq<Seq<char>>) -> Seq<char>
    decreases ls.len(),
{
    if ls.len() == 0 {
        Seq::empty()
    } else {
        lines_text(ls.drop_last()) + ls.last() + seq!['\n']
    }
}

/// The text of an attribute file for the given fields and attribute
/// pairs (in key order).
pub open spec fn encode_attr_spec(
    id: Seq<char>,
    ts: Seq<char>,
    size: i64,
    preview: Seq<char>,
    ps: Seq<(Seq<char>, Seq<char>)>,
) -> Seq<char> {
    lines_text(meta_lines(id, ts, size, preview, ps))
}

/// The encoding of `m`.
pub open spec fn encode_meta_spec(m: Meta) -> Seq<char> {
    encode_attr_spec(m.id@, m.ts@, m.size, m.preview@, m.attrs.pairs())
}

/// A key whose first character survives line trimming.
pub open spec fn lead_ok(s: Seq<char>) -> bool {
    s.len() == 0 || !is_ws(s[0]) || is_esc_special(s[0])
}

/// A value whose last character survives line trimming.
pub open spec fn tail_ok(s: Seq<char>) -> bool {
    s.len() == 0 || !is_ws(s.last()) || is_esc_special(s.last())
}

/// The entries for which writing and reading back gives the same entry:
/// no field value ends, and no attribute key starts, with white space that
/// the format leaves unescaped; the preview is empty or not blank; and no
/// attribute uses a reserved key.
pub open spec fn attr_roundtrip_ok(m: Meta) -> bool {
    &&& tail_ok(m.id@)
    &&& tail_ok(m.ts@)
    &&& tail_ok(m.preview@)
    &&& (m.preview@.len() == 0 || keeps_preview(m.preview@))
    &&& forall|i: int|
        0 <= i < m.attrs.pairs().len() ==> {
            &&& lead_ok((#[trigger] m.attrs.pairs()[i]).0)
            &&& tail_ok(m.attrs.pairs()[i].1)
            &&& !is_reserved_key(m.attrs.pairs()[i].0)
        }
}

// ---------------------------------------------------------------------------
// Writing
// ---------------------------------------------------------------------------

#[verifier::rlimit(50)]
pub proof fn lemma_esc_push(s: Seq<char>, c: char)
    ensures
        esc(s.push(c)) == esc(s) + esc_char(c),
    decreases s.len(),
{
    if s.len() == 0 {
        assert(s.push(c).drop_first() =~= Seq::<char>::empty());
        assert(s.push(c)[0] == c);
        assert(esc(Seq::<char>::empty()) =~= Seq::<char>::empty());
        assert(esc(s) =~= Seq::<char>::empty());
        assert(esc(s.push(c)) =~= esc_char(c));
    } else {
        assert(s.push(c).drop_first() =~= s.drop_first().push(c));
        lemma_esc_push(s.drop_first(), c);
        assert(esc(s.push(c)) =~= esc(s) + esc_char(c));
    }
}

/// Appends the escaped form of `v[lo..hi]` to `out`.
#[verifier::rlimit(50)]
fn push_escaped(out: &mut String, v: &Vec<char>, lo: usize, hi: usize)
    requires
        lo <= hi <= v.len(),
    ensures
        final(out)@ == old(out)@ + esc(v@.subrange(lo as int, hi as int)),
{
    let mut i: usize = lo;
    assert(v@.subrange(lo as int, lo as int) =~= Seq::<char>::empty());
    while i < hi
        invariant
            lo <= i <= hi <= v.len(),
            out@ == old(out)@ + esc(v@.subrange(lo as int, i as int)),
        decreases hi - i,
    {
        let c = v[i];
        if c == '\\' {
            push_char(out, '\\');
            push_char(out, '\\');
        } else if c == '\n' {
            push_char(out, '\\');
            push_char(out, 'n');
        } else if c == '\r' {
            push_char(out, '\\');
            push_char(out, 'r');
        } else if c == '\t' {
            push_char(out, '\\');
            push_char(out, 't');
        } else if c == '=' {
            push_char(out, '\\');
            push_char(out, '=');
        } else {
            push_char(out, c);
        }
        proof {
            lemma_esc_push(v@.subrange(lo as int, i as int), c);
            assert(v@.subrange(lo as int, i as int).push(c) =~= v@.subrange(lo as int, i + 1));
        }
        i += 1;
        assert(out@ =~= old(out)@ + esc(v@.subrange(lo as int, i as int)));
    }
}

/// Appends the escaped form of `value` (the attribute file's escaping).
#[verifier::rlimit(50)]
pub fn escape_attr_into(out: &mut String, value: &str)
    ensures
        final(out)@ == old(out)@ + esc(value@),
{
    let v = chars_of(value);
    push_escaped(out, &v, 0, v.len());
    assert(v@.subrange(0, v@.len() as int) == v@);
}

/// The escaped form of `value`.
#[verifier::rlimit(50)]
pub fn escape_attr(value: &str) -> (r: String)
    ensures
        r@ == esc(value@),
{
    let mut out = String::new();
    escape_attr_into(&mut out, value);
    assert(out@ =~= esc(value@));
    out
}

#[verifier::rlimit(50)]
pub proof fn lemma_lines_text_push(ls: Seq<Seq<char>>, l: Seq<char>)
    ensures
        lines_text(ls.push(l)) == lines_text(ls) + l + seq!['\n'],
{
    assert(ls.push(l).drop_last() =~= ls);
}

/// Appends `key=value` and a newline, both escaped.
#[verifier::rlimit(50)]
pub fn write_attr_line(out: &mut String, key: &str, value: &str)
    ensures
        final(out)@ == old(out)@ + line_content(key@, value@) + seq!['\n'],
{
    escape_attr_into(out, key);
    push_char(out, '=');
    escape_attr_into(out, value);
    push_char(out, '\n');
    assert(final(out)@ =~= old(out)@ + line_content(key@, value@) + seq!['\n']);
}

#[verifier::rlimit(50)]
fn write_line_v(out: &mut String, key: &Vec<char>, value: &str)
    ensures
        final(out)@ == old(out)@ + line_content(key@, value@) + seq!['\n'],
{
    push_escaped(out, key, 0, key.len());
    assert(key@.subrange(0, key@.len() as int) == key@);
    push_char(out, '=');
    escape_attr_into(out, value);
    push_char(out, '\n');
    assert(final(out)@ =~= old(out)@ + line_content(key@, value@) + seq!['\n']);
}

/// Writes `meta` in the attribute file format.
#[verifier::rlimit(50)]
pub fn encode_attr(meta: &Meta) -> (s: String)
    requires
        meta.wf(),
    ensures
        s@ == encode_meta_spec(*meta),
{
    let ghost ls0: Seq<Seq<char>> = Seq::empty();
    let mut out = String::new();
    let kid = vec!['i', 'd'];
    let kts = vec!['t', 's'];
    let ksize = vec!['s', 'i', 'z', 'e'];
    let kpreview = vec!['p', 'r', 'e', 'v', 'i', 'e', 'w'];
    assert(kid@ == kw_id());
    assert(kts@ == kw_ts());
    assert(ksize@ == kw_size());
    assert(kpreview@ == kw_preview());
    write_line_v(&mut out, &kid, meta.id.as_str());
    let ghost ls1 = ls0.push(line_content(kw_id(), meta.id@));
    proof {
        lemma_lines_text_push(ls0, line_content(kw_id(), meta.id@));
        assert(out@ =~= lines_text(ls1));
    }
    write_line_v(&mut out, &kts, meta.ts.as_str());
    let ghost ls2 = ls1.push(line_content(kw_ts(), meta.ts@));
    proof {
        lemma_lines_text_push(ls1, line_content(kw_ts(), meta.ts@));
        assert(out@ =~= lines_text(ls2));
    }
    push_escaped(&mut out, &ksize, 0, ksize.len());
    assert(ksize@.subrange(0, ksize@.len() as int) == ksize@);
    push_char(&mut out, '=');
    let size_text = i64_to_dec(meta.size);
    push_str(&mut out, size_text.as_str());
    push_char(&mut out, '\n');
    let ghost size_line = esc(kw_size()) + seq!['='] + dec_int(meta.size as int);
    let ghost ls3 = ls2.push(size_line);
    proof {
        lemma_lines_text_push(ls2, size_line);
        assert(out@ =~= lines_text(ls3));
    }
    let pv = chars_of(meta.preview.as_str());
    let (a, b) = trim_bounds(&pv, 0, pv.len());
    assert(pv@.subrange(0, pv@.len() as int) == pv@);
    let ghost mut ls = ls3;
    if a < b {
        write_line_v(&mut out, &kpreview, meta.preview.as_str());
        proof {
            lemma_lines_text_push(ls3, line_content(kw_preview(), meta.preview@));
            ls = ls3.push(line_content(kw_preview(), meta.preview@));
            assert(out@ =~= lines_text(ls));
        }
    }
    let ghost fixed = ls;
    assert(fixed =~= seq![
        line_content(kw_id(), meta.id@),
        line_content(kw_ts(), meta.ts@),
        esc(kw_size()) + seq!['='] + dec_int(meta.size as int),
    ] + (if keeps_preview(meta.preview@) {
        seq![line_content(kw_preview(), meta.preview@)]
    } else {
        Seq::empty()
    }));
    let n = meta.attrs.len();
    let mut i: usize = 0;
    while i < n
        invariant
            n == meta.attrs.pairs().len(),
            i <= n,
            out@ == lines_text(fixed + attr_lines(meta.attrs.pairs().take(i as int))),
        decreases n - i,
    {
        let k = meta.attrs.key_at(i);
        let v = meta.attrs.value_at(i);
        write_attr_line(&mut out, k.as_str(), v.as_str());
        proof {
            let ps = meta.attrs.pairs();
            let before = fixed + attr_lines(ps.take(i as int));
            lemma_lines_text_push(before, line_content(ps[i as int].0, ps[i as int].1));
            assert(before.push(line_content(ps[i as int].0, ps[i as int].1)) =~= fixed + attr_lines(
                ps.take(i + 1),
            ));
        }
        i += 1;
    }
    proof {
        assert(meta.attrs.pairs().take(n as int) =~= meta.attrs.pairs());
    }
    out
}

// ---------------------------------------------------------------------------
// Reading
// ---------------------------------------------------------------------------

/// Position of the first unescaped `=` in `v[lo..hi]`.
#[verifier::rlimit(50)]
fn find_eq_range(v: &Vec<char>, lo: usize, hi: usize) -> (r: Option<usize>)
    requires
        lo <= hi <= v.len(),
    ensures
        match r {
            Some(i) => lo <= i < hi && find_eq(v@.subrange(lo as int, hi as int), false) == Some(
                i - lo,
            ),
            None => find_eq(v@.subrange(lo as int, hi as int), false) is None,
        },
{
    let mut escaped = false;
    let mut i: usize = lo;
    while i < hi
        invariant
            lo <= i <= hi <= v.len(),
            find_eq(v@.subrange(lo as int, hi as int), false) == shift(
                find_eq(v@.subrange(i as int, hi as int), escaped),
                i - lo,
            ),
        decreases hi - i,
    {
        let c = v[i];
        assert(v@.subrange(i as int, hi as int).drop_first() =~= v@.subrange(i + 1, hi as int));
        if c == '\\' {
            escaped = !escaped;
        } else if c == '=' && !escaped {
            return Some(i);
        } else {
            escaped = false;
        }
        i += 1;
    }
    None
}

/// Decodes the escaped text `v[lo..hi]`.
#[verifier::rlimit(50)]
fn unescape_range(v: &Vec<char>, lo: usize, hi: usize) -> (r: Result<Vec<char>, AttrError>)
    requires
        lo <= hi <= v.len(),
    ensures
        match r {
            Ok(x) => unesc(v@.subrange(lo as int, hi as int)) == Ok::<Seq<char>, AttrError>(x@),
            Err(e) => unesc(v@.subrange(lo as int, hi as int)) == Err::<Seq<char>, AttrError>(e),
        },
{
    let mut out: Vec<char> = Vec::new();
    let mut i: usize = lo;
    while i < hi
        invariant
            lo <= i <= hi <= v.len(),
            unesc(v@.subrange(lo as int, hi as int)) == prepend(
                out@,
                unesc(v@.subrange(i as int, hi as int)),
            ),
        decreases hi - i,
    {
        let ghost rest = v@.subrange(i as int, hi as int);
        let c = v[i];
        if c != '\\' {
            proof {
                assert(rest.drop_first() =~= v@.subrange(i + 1, hi as int));
                match unesc(v@.subrange(i + 1, hi as int)) {
                    Ok(x) => {
                        assert(out@ + (seq![c] + x) =~= out@.push(c) + x);
                    },
                    Err(_) => {},
                }
            }
            out.push(c);
            i += 1;
        } else if i + 1 == hi {
            return Err(AttrError::UnterminatedEscape);
        } else {
            let d = v[i + 1];
            assert(rest[1] == d);
            assert(rest.skip(2) =~= v@.subrange(i + 2, hi as int));
            let decoded = if d == '\\' {
                '\\'
            } else if d == 'n' {
                '\n'
            } else if d == 'r' {
                '\r'
            } else if d == 't' {
                '\t'
            } else if d == '=' {
                '='
            } else {
                return Err(AttrError::InvalidEscape(d));
            };
            proof {
                match unesc(v@.subrange(i + 2, hi as int)) {
                    Ok(x) => {
                        assert(out@ + (seq![decoded] + x) =~= out@.push(decoded) + x);
                    },
                    Err(_) => {},
                }
            }
            out.push(decoded);
            i += 2;
        }
    }
    proof {
        assert(v@.subrange(hi as int, hi as int) =~= Seq::<char>::empty());
        assert(out@ + Seq::<char>::empty() =~= out@);
    }
    Ok(out)
}

/// Undoes [`escape_attr`] on a whole string (see [`unesc`]).
#[verifier::rlimit(50)]
pub fn unescape_attr(input: &str) -> (r: Result<String, AttrError>)
    ensures
        match r {
            Ok(x) => unesc(input@) == Ok::<Seq<char>, AttrError>(x@),
            Err(e) => unesc(input@) == Err::<Seq<char>, AttrError>(e),
        },
{
    let v = chars_of(input);
    assert(v@.subrange(0, v@.len() as int) == v@);
    match unescape_range(&v, 0, v.len()) {
        Ok(x) => Ok(string_of(&x)),
        Err(e) => Err(e),
    }
}

/// Applies one trimmed, non-blank line to `meta`.
#[verifier::rlimit(50)]
fn apply_attr_line(v: &Vec<char>, lo: usize, hi: usize, meta: &mut Meta) -> (r: Result<(), AttrError>)
    requires
        lo <= hi <= v.len(),
        old(meta).wf(),
    ensures
        final(meta).wf(),
        match r {
            Ok(()) => parse_line(v@.subrange(lo as int, hi as int), old(meta)@) == Ok::<
                MetaView,
                AttrError,
            >(final(meta)@),
            Err(e) => parse_line(v@.subrange(lo as int, hi as int), old(meta)@) == Err::<
                MetaView,
                AttrError,
            >(e),
        },
{
    let ghost line = v@.subrange(lo as int, hi as int);
    let eq = match find_eq_range(v, lo, hi) {
        None => return Err(AttrError::InvalidLine),
        Some(i) => i,
    };
    assert(line.take(eq - lo) =~= v@.subrange(lo as int, eq as int));
    assert(line.skip(eq - lo + 1) =~= v@.subrange(eq + 1, hi as int));
    let key = match unescape_range(v, lo, eq) {
        Err(e) => return Err(e),
        Ok(k) => k,
    };
    let ksize = vec!['s', 'i', 'z', 'e'];
    let kid = vec!['i', 'd'];
    let kts = vec!['t', 's'];
    let kpreview = vec!['p', 'r', 'e', 'v', 'i', 'e', 'w'];
    assert(ksize@ == kw_size() && kid@ == kw_id() && kts@ == kw_ts() && kpreview@ == kw_preview());
    assert(key@.subrange(0, key@.len() as int) == key@);
    if range_eq(&key, 0, key.len(), &ksize) {
        match parse_i64_range(v, eq + 1, hi) {
            Some(n) => {
                meta.size = n;
                assert(final(meta)@ == MetaView { size: n, ..old(meta)@ });
                Ok(())
            },
            None => Err(AttrError::InvalidSize),
        }
    } else {
        let value = match unescape_range(v, eq + 1, hi) {
            Err(e) => return Err(e),
            Ok(x) => x,
        };
        let s = string_of(&value);
        if range_eq(&key, 0, key.len(), &kid) {
            meta.id = s;
            assert(final(meta)@ == MetaView { id: value@, ..old(meta)@ });
        } else if range_eq(&key, 0, key.len(), &kts) {
            meta.ts = s;
            assert(final(meta)@ == MetaView { ts: value@, ..old(meta)@ });
        } else if range_eq(&key, 0, key.len(), &kpreview) {
            meta.preview = s;
            assert(final(meta)@ == MetaView { preview: value@, ..old(meta)@ });
        } else {
            let ks = string_of(&key);
            meta.attrs.insert(ks, s);
            assert(final(meta)@ == MetaView { attrs: old(meta)@.attrs.insert(key@, value@), ..old(meta)@ });
        }
        Ok(())
    }
}

#[verifier::rlimit(50)]
pub proof fn lemma_nl_index(s: Seq<char>)
    ensures
        0 <= nl_index(s) <= s.len(),
        nl_index(s) < s.len() ==> s[nl_index(s)] == '\n',
        forall|j: int| 0 <= j < nl_index(s) ==> s[j] != '\n',
    decreases s.len(),
{
    if s.len() > 0 && s[0] != '\n' {
        lemma_nl_index(s.drop_first());
        assert forall|j: int| 0 <= j < nl_index(s) implies s[j] != '\n' by {
            if j > 0 {
                assert(s[j] == s.drop_first()[j - 1]);
            }
        }
    }
}

#[verifier::rlimit(50)]
pub proof fn lemma_nl_index_eq(s: Seq<char>, e: int)
    requires
        0 <= e <= s.len(),
        e < s.len() ==> s[e] == '\n',
        forall|j: int| 0 <= j < e ==> s[j] != '\n',
    ensures
        nl_index(s) == e,
    decreases s.len(),
{
    if s.len() > 0 && s[0] != '\n' {
        assert forall|j: int| 0 <= j < e - 1 implies s.drop_first()[j] != '\n' by {
            assert(s.drop_first()[j] == s[j + 1]);
        }
        lemma_nl_index_eq(s.drop_first(), e - 1);
    }
}

/// Reads an attribute file.
#[verifier::rlimit(50)]
pub fn parse_attr_file(input: &str) -> (r: Result<Meta, AttrError>)
    ensures
        match r {
            Ok(m) => m.wf() && parse_attr_spec(input@) == Ok::<MetaView, AttrError>(m@),
            Err(e) => parse_attr_spec(input@) == Err::<MetaView, AttrError>(e),
        },
{
    let v = chars_of(input);
    let mut meta = Meta {
        id: String::new(),
        ts: String::new(),
        size: 0,
        preview: String::new(),
        attrs: StrMap::new(),
    };
    assert(meta@ == empty_meta_view());
    let mut pos: usize = 0;
    assert(v@.skip(0) =~= v@);
    loop
        invariant
            pos <= v.len(),
            v@ == input@,
            meta.wf(),
            parse_attr_spec(input@) == parse_from(v@.skip(pos as int), meta@),
        decreases v.len() - pos,
    {
        let ghost s = v@.skip(pos as int);
        let mut e: usize = pos;
        while e < v.len() && v[e] != '\n'
            invariant
                pos <= e <= v.len(),
                forall|j: int| pos <= j < e ==> v@[j] != '\n',
            decreases v.len() - e,
        {
            e += 1;
        }
        proof {
            lemma_nl_index_eq(s, e - pos);
            assert(s.take(e - pos) =~= v@.subrange(pos as int, e as int));
        }
        let (a, b) = trim_bounds(&v, pos, e);
        if a < b {
            let r = apply_attr_line(&v, a, b, &mut meta);
            if let Err(err) = r {
                return Err(err);
            }
        }
        if e >= v.len() {
            return Ok(meta);
        }
        assert(s.skip(e - pos + 1) =~= v@.skip(e + 1));
        pos = e + 1;
    }
}

// ---------------------------------------------------------------------------
// Writing then reading gives the entry back
// ---------------------------------------------------------------------------

#[verifier::rlimit(50)]
pub proof fn lemma_esc_plain(s: Seq<char>)
    requires
        forall|i: int| 0 <= i < s.len() ==> !is_esc_special(#[trigger] s[i]),
    ensures
        esc(s) == s,
    decreases s.len(),
{
    if s.len() > 0 {
        assert forall|i: int| 0 <= i < s.drop_first().len() implies !is_esc_special(
            #[trigger] s.drop_first()[i],
        ) by {
            assert(s.drop_first()[i] == s[i + 1]);
        }
        lemma_esc_plain(s.drop_first());
        assert(esc(s) =~= seq![s[0]] + s.drop_first());
    }
}

#[verifier::rlimit(50)]
pub proof fn lemma_unesc_esc(s: Seq<char>, t: Seq<char>)
    ensures
        unesc(esc(s) + t) == prepend(s, unesc(t)),
    decreases s.len(),
{
    if s.len() == 0 {
        assert(esc(s) + t =~= t);
        match unesc(t) {
            Ok(x) => assert(s + x =~= x),
            Err(_) => {},
        }
    } else {
        let c = s[0];
        let rest = esc(s.drop_first()) + t;
        lemma_unesc_esc(s.drop_first(), t);
        assert(esc(s) + t =~= esc_char(c) + rest);
        let w = esc_char(c) + rest;
        if is_esc_special(c) {
            assert(w[0] == '\\');
            assert(w.skip(2) =~= rest);
        } else {
            assert(w[0] == c);
            assert(w.drop_first() =~= rest);
        }
        match unesc(t) {
            Ok(x) => {
                assert(seq![c] + (s.drop_first() + x) =~= s + x);
            },
            Err(_) => {},
        }
    }
}

#[verifier::rlimit(50)]
pub proof fn lemma_find_eq_esc(k: Seq<char>, t: Seq<char>)
    ensures
        find_eq(esc(k) + t, false) == shift(find_eq(t, false), esc(k).len() as int),
    decreases k.len(),
{
    if k.len() == 0 {
        assert(esc(k) + t =~= t);
        match find_eq(t, false) {
            Some(j) => {},
            None => {},
        }
    } else {
        let c = k[0];
        let rest = esc(k.drop_first()) + t;
        lemma_find_eq_esc(k.drop_first(), t);
        assert(esc(k) + t =~= esc_char(c) + rest);
        let w = esc_char(c) + rest;
        assert(esc(k).len() == esc_char(c).len() + esc(k.drop_first()).len());
        if is_esc_special(c) {
            let w1 = w.drop_first();
            assert(w[0] == '\\');
            assert(find_eq(w, false) == shift(find_eq(w1, true), 1));
            assert(w1[0] == esc_char(c)[1]);
            assert(w1.drop_first() =~= rest);
            assert(find_eq(w1, true) == shift(find_eq(rest, false), 1));
        } else {
            assert(w[0] == c);
            assert(w.drop_first() =~= rest);
            assert(find_eq(w, false) == shift(find_eq(rest, false), 1));
        }
    }
}

#[verifier::rlimit(50)]
pub proof fn lemma_esc_no_nl(s: Seq<char>)
    ensures
        forall|j: int| 0 <= j < esc(s).len() ==> #[trigger] esc(s)[j] != '\n',
        esc(s).len() >= s.len(),
    decreases s.len(),
{
    if s.len() > 0 {
        lemma_esc_no_nl(s.drop_first());
        let e = esc(s);
        assert(e =~= esc_char(s[0]) + esc(s.drop_first()));
        assert forall|j: int| 0 <= j < e.len() implies #[trigger] e[j] != '\n' by {
            if j >= esc_char(s[0]).len() {
                assert(e[j] == esc(s.drop_first())[j - esc_char(s[0]).len()]);
            }
        }
    }
}

#[verifier::rlimit(50)]
proof fn lemma_esc_first(s: Seq<char>)
    requires
        s.len() > 0,
    ensures
        esc(s).len() > 0,
        esc(s)[0] == esc_char(s[0])[0],
{
    assert(esc(s) =~= esc_char(s[0]) + esc(s.drop_first()));
}

#[verifier::rlimit(50)]
proof fn lemma_esc_last(s: Seq<char>)
    requires
        s.len() > 0,
    ensures
        esc(s).len() > 0,
        esc(s).last() == esc_char(s.last()).last(),
{
    assert(s =~= s.drop_last().push(s.last()));
    lemma_esc_push(s.drop_last(), s.last());
}

/// A well-formed line is left alone by trimming.
#[verifier::rlimit(50)]
proof fn lemma_trim_line(l: Seq<char>)
    requires
        l.len() > 0,
        !is_ws(l[0]),
        !is_ws(l.last()),
    ensures
        trim(l) == l,
{
    assert(trim_start(l) == l);
    assert(trim_end(l) == l);
}

/// The line for `k` and `v` is non-blank, has no newline, and is kept by
/// trimming.
#[verifier::rlimit(50)]
proof fn lemma_line_shape(k: Seq<char>, v: Seq<char>)
    requires
        lead_ok(k),
        tail_ok(v),
    ensures
        line_content(k, v).len() > 0,
        trim(line_content(k, v)) == line_content(k, v),
        forall|j: int|
            0 <= j < line_content(k, v).len() ==> #[trigger] line_content(k, v)[j] != '\n',
{
    let l = line_content(k, v);
    lemma_esc_no_nl(k);
    lemma_esc_no_nl(v);
    if k.len() > 0 {
        lemma_esc_first(k);
        assert(l[0] == esc(k)[0]);
    } else {
        assert(l[0] == '=');
    }
    if v.len() > 0 {
        lemma_esc_last(v);
        assert(l.last() == esc(v).last());
    } else {
        assert(l.last() == '=');
    }
    lemma_trim_line(l);
    assert forall|j: int| 0 <= j < l.len() implies #[trigger] l[j] != '\n' by {
        if j < esc(k).len() {
            assert(l[j] == esc(k)[j]);
        } else if j > esc(k).len() {
            assert(l[j] == esc(v)[j - esc(k).len() - 1]);
        }
    }
}

/// Reading the line for a user attribute inserts it.
#[verifier::rlimit(50)]
proof fn lemma_parse_attr_line(k: Seq<char>, v: Seq<char>, st: MetaView)
    requires
        !is_reserved_key(k),
    ensures
        parse_line(line_content(k, v), st) == Ok::<MetaView, AttrError>(
            MetaView { attrs: st.attrs.insert(k, v), ..st },
        ),
{
    let l = line_content(k, v);
    let n = esc(k).len() as int;
    lemma_find_eq_esc(k, seq!['='] + esc(v));
    assert(l =~= esc(k) + (seq!['='] + esc(v)));
    assert(l.take(n) =~= esc(k) + Seq::<char>::empty());
    assert(l.skip(n + 1) =~= esc(v) + Seq::<char>::empty());
    lemma_unesc_esc(k, Seq::empty());
    lemma_unesc_esc(v, Seq::empty());
    assert(k + Seq::<char>::empty() =~= k);
    assert(v + Seq::<char>::empty() =~= v);
}

#[verifier::rlimit(50)]
proof fn lemma_parse_fixed_line(k: Seq<char>, v: Seq<char>, st: MetaView)
    requires
        k == kw_id() || k == kw_ts() || k == kw_preview(),
    ensures
        parse_line(line_content(k, v), st) == Ok::<MetaView, AttrError>(
            if k == kw_id() {
                MetaView { id: v, ..st }
            } else if k == kw_ts() {
                MetaView { ts: v, ..st }
            } else {
                MetaView { preview: v, ..st }
            },
        ),
{
    let l = line_content(k, v);
    let n = esc(k).len() as int;
    lemma_find_eq_esc(k, seq!['='] + esc(v));
    assert(l =~= esc(k) + (seq!['='] + esc(v)));
    assert(l.take(n) =~= esc(k) + Seq::<char>::empty());
    assert(l.skip(n + 1) =~= esc(v) + Seq::<char>::empty());
    lemma_unesc_esc(k, Seq::empty());
    lemma_unesc_esc(v, Seq::empty());
    assert(k + Seq::<char>::empty() =~= k);
    assert(v + Seq::<char>::empty() =~= v);
    assert(kw_id() != kw_size() && kw_ts() != kw_size() && kw_preview() != kw_size()) by {
        assert(kw_id().len() != kw_size().len());
        assert(kw_ts().len() != kw_size().len());
        assert(kw_preview().len() != kw_size().len());
    }
    assert(kw_ts() != kw_id()) by {
        assert(kw_ts()[0] != kw_id()[0]);
    }
    assert(kw_preview() != kw_id() && kw_preview() != kw_ts()) by {
        assert(kw_preview().len() != kw_id().len());
    }
}

#[verifier::rlimit(50)]
proof fn lemma_parse_size_line(size: i64, st: MetaView)
    ensures
        parse_line(esc(kw_size()) + seq!['='] + dec_int(size as int), st) == Ok::<MetaView, AttrError>(
            MetaView { size: size, ..st },
        ),
        esc(kw_size()) == kw_size(),
{
    lemma_esc_plain(kw_size());
    let d = dec_int(size as int);
    let l = esc(kw_size()) + seq!['='] + d;
    lemma_find_eq_esc(kw_size(), seq!['='] + d);
    assert(l =~= esc(kw_size()) + (seq!['='] + d));
    assert(l.take(4) =~= esc(kw_size()) + Seq::<char>::empty());
    assert(l.skip(5) =~= d);
    lemma_unesc_esc(kw_size(), Seq::empty());
    assert(kw_size() + Seq::<char>::empty() =~= kw_size());
    lemma_parse_dec_int(size);
}

#[verifier::rlimit(50)]
proof fn lemma_size_line_shape(size: i64)
    ensures
        ({
            let l = esc(kw_size()) + seq!['='] + dec_int(size as int);
            &&& l.len() > 0
            &&& trim(l) == l
            &&& forall|j: int| 0 <= j < l.len() ==> #[trigger] l[j] != '\n'
        }),
{
    lemma_esc_plain(kw_size());
    lemma_parse_dec_int(size);
    let d = dec_int(size as int);
    let l = kw_size() + seq!['='] + d;
    assert(l[0] == 's');
    assert(l.last() == d.last());
    lemma_trim_line(l);
    assert forall|j: int| 0 <= j < l.len() implies #[trigger] l[j] != '\n' by {
        if j >= 5 {
            assert(l[j] == d[j - 5]);
            assert(is_digit(d[j - 5]) || d[j - 5] == '-');
        }
    }
}

/// Reading each line in turn.
pub open spec fn fold_lines(ls: Seq<Seq<char>>, st: MetaView) -> Result<MetaView, AttrError>
    decreases ls.len(),
{
    if ls.len() == 0 {
        Ok(st)
    } else {
        match parse_line(ls[0], st) {
            Err(e) => Err(e),
            Ok(st2) => fold_lines(ls.drop_first(), st2),
        }
    }
}

/// A line that is non-blank, newline-free and unchanged by trimming.
pub open spec fn clean_line(l: Seq<char>) -> bool {
    &&& l.len() > 0
    &&& trim(l) == l
    &&& forall|j: int| 0 <= j < l.len() ==> #[trigger] l[j] != '\n'
}

#[verifier::rlimit(50)]
proof fn lemma_lines_text_front(ls: Seq<Seq<char>>)
    requires
        ls.len() > 0,
    ensures
        lines_text(ls) == ls[0] + seq!['\n'] + lines_text(ls.drop_first()),
    decreases ls.len(),
{
    if ls.len() == 1 {
        assert(ls.drop_last() =~= Seq::<Seq<char>>::empty());
        assert(ls.drop_first() =~= Seq::<Seq<char>>::empty());
        assert(lines_text(ls) =~= ls[0] + seq!['\n'] + lines_text(ls.drop_first()));
    } else {
        lemma_lines_text_front(ls.drop_last());
        assert(ls.drop_last().drop_first() =~= ls.drop_first().drop_last());
        assert(ls.drop_last()[0] == ls[0]);
        assert(ls.drop_first().last() == ls.last());
        assert(lines_text(ls) =~= ls[0] + seq!['\n'] + lines_text(ls.drop_first()));
    }
}

#[verifier::rlimit(50)]
proof fn lemma_parse_from_lines(ls: Seq<Seq<char>>, st: MetaView)
    requires
        forall|i: int| 0 <= i < ls.len() ==> clean_line(#[trigger] ls[i]),
    ensures
        parse_from(lines_text(ls), st) == fold_lines(ls, st),
    decreases ls.len(),
{
    if ls.len() == 0 {
        let s = lines_text(ls);
        assert(s =~= Seq::<char>::empty());
        assert(s.take(0) =~= Seq::<char>::empty());
        assert(trim(Seq::<char>::empty()) =~= Seq::<char>::empty());
    } else {
        let l = ls[0];
        assert(clean_line(l));
        let rest = lines_text(ls.drop_first());
        lemma_lines_text_front(ls);
        let s = l + seq!['\n'] + rest;
        assert(lines_text(ls) == s);
        lemma_nl_index_eq(s, l.len() as int);
        assert(s.take(l.len() as int) =~= l);
        assert(s.skip(l.len() as int + 1) =~= rest);
        assert forall|i: int| 0 <= i < ls.drop_first().len() implies clean_line(
            #[trigger] ls.drop_first()[i],
        ) by {
            assert(ls.drop_first()[i] == ls[i + 1]);
        }
        match parse_line(l, st) {
            Ok(st2) => {
                lemma_parse_from_lines(ls.drop_first(), st2);
            },
            Err(_) => {},
        }
    }
}

#[verifier::rlimit(50)]
proof fn lemma_fold_append(a: Seq<Seq<char>>, b: Seq<Seq<char>>, st: MetaView)
    ensures
        fold_lines(a + b, st) == match fold_lines(a, st) {
            Ok(st2) => fold_lines(b, st2),
            Err(e) => Err(e),
        },
    decreases a.len(),
{
    if a.len() == 0 {
        assert(a + b =~= b);
    } else {
        assert((a + b).drop_first() =~= a.drop_first() + b);
        assert((a + b)[0] == a[0]);
        match parse_line(a[0], st) {
            Ok(st2) => lemma_fold_append(a.drop_first(), b, st2),
            Err(_) => {},
        }
    }
}

/// Inserting pairs one by one, front first.
pub open spec fn insert_all(m: Map<Seq<char>, Seq<char>>, ps: Seq<(Seq<char>, Seq<char>)>) -> Map<
    Seq<char>,
    Seq<char>,
>
    decreases ps.len(),
{
    if ps.len() == 0 {
        m
    } else {
        insert_all(m.insert(ps[0].0, ps[0].1), ps.drop_first())
    }
}

#[verifier::rlimit(50)]
proof fn lemma_fold_attr_lines(ps: Seq<(Seq<char>, Seq<char>)>, st: MetaView)
    requires
        forall|i: int| 0 <= i < ps.len() ==> !is_reserved_key(#[trigger] ps[i].0),
    ensures
        fold_lines(attr_lines(ps), st) == Ok::<MetaView, AttrError>(
            MetaView { attrs: insert_all(st.attrs, ps), ..st },
        ),
    decreases ps.len(),
{
    if ps.len() > 0 {
        let ls = attr_lines(ps);
        assert(ls[0] == line_content(ps[0].0, ps[0].1));
        assert(ls.drop_first() =~= attr_lines(ps.drop_first()));
        lemma_parse_attr_line(ps[0].0, ps[0].1, st);
        let st2 = MetaView { attrs: st.attrs.insert(ps[0].0, ps[0].1), ..st };
        assert forall|i: int| 0 <= i < ps.drop_first().len() implies !is_reserved_key(
            #[trigger] ps.drop_first()[i].0,
        ) by {
            assert(ps.drop_first()[i] == ps[i + 1]);
        }
        lemma_fold_attr_lines(ps.drop_first(), st2);
    } else {
        assert(attr_lines(ps) =~= Seq::<Seq<char>>::empty());
    }
}

#[verifier::rlimit(50)]
proof fn lemma_pairs_map_front(ps: Seq<(Seq<char>, Seq<char>)>)
    requires
        sorted_keys(ps),
        ps.len() > 0,
    ensures
        sorted_keys(ps.drop_first()),
        pairs_map(ps) == pairs_map(ps.drop_first()).insert(ps[0].0, ps[0].1),
        !pairs_map(ps.drop_first()).contains_key(ps[0].0),
{
    let q = ps.drop_first();
    let k = ps[0].0;
    assert forall|i: int, j: int| 0 <= i < j < q.len() implies crate::text::lex_lt(
        #[trigger] q[i].0,
        #[trigger] q[j].0,
    ) by {
        assert(q[i] == ps[i + 1] && q[j] == ps[j + 1]);
    }
    assert(!has_key(q, k)) by {
        if has_key(q, k) {
            let c = key_index(q, k);
            assert(ps[c + 1].0 == k);
            lemma_sorted_unique(ps, 0, c + 1);
        }
    }
    assert forall|x: Seq<char>| #[trigger] has_key(ps, x) == (has_key(q, x) || x == k) by {
        if has_key(ps, x) {
            let c = key_index(ps, x);
            if c > 0 {
                assert(q[c - 1].0 == x);
            }
        }
        if has_key(q, x) {
            let c = key_index(q, x);
            assert(ps[c + 1].0 == x);
        }
        assert(ps[0].0 == k);
    }
    assert forall|x: Seq<char>| has_key(ps, x) implies #[trigger] value_of(ps, x) == (if x == k {
        ps[0].1
    } else {
        value_of(q, x)
    }) by {
        let c = key_index(ps, x);
        lemma_value_of_index(ps, c);
        if x != k {
            assert(c != 0);
            assert(q[c - 1] == ps[c]);
            lemma_value_of_index(q, c - 1);
        } else {
            lemma_sorted_unique(ps, c, 0);
        }
    }
    assert(pairs_map(ps) =~= pairs_map(q).insert(k, ps[0].1));
}

#[verifier::rlimit(50)]
proof fn lemma_insert_all(m: Map<Seq<char>, Seq<char>>, ps: Seq<(Seq<char>, Seq<char>)>)
    requires
        sorted_keys(ps),
    ensures
        insert_all(m, ps) == m.union_prefer_right(pairs_map(ps)),
    decreases ps.len(),
{
    if ps.len() == 0 {
        assert(pairs_map(ps) =~= Map::<Seq<char>, Seq<char>>::empty());
        assert(m.union_prefer_right(pairs_map(ps)) =~= m);
    } else {
        lemma_pairs_map_front(ps);
        let q = ps.drop_first();
        lemma_insert_all(m.insert(ps[0].0, ps[0].1), q);
        assert(m.insert(ps[0].0, ps[0].1).union_prefer_right(pairs_map(q)) =~= m.union_prefer_right(
            pairs_map(ps),
        ));
    }
}

/// Writing an entry and reading the text back gives the same entry, for
/// every entry that `attr_roundtrip_ok` admits.
#[verifier::rlimit(50)]
pub proof fn lemma_attr_roundtrip(m: Meta)
    requires
        m.wf(),
        attr_roundtrip_ok(m),
    ensures
        parse_attr_spec(encode_meta_spec(m)) == Ok::<MetaView, AttrError>(m@),
{
    let ps = m.attrs.pairs();
    let ls = meta_lines(m.id@, m.ts@, m.size, m.preview@, ps);
    let head = seq![
        line_content(kw_id(), m.id@),
        line_content(kw_ts(), m.ts@),
        esc(kw_size()) + seq!['='] + dec_int(m.size as int),
    ];
    let pv: Seq<Seq<char>> = if keeps_preview(m.preview@) {
        seq![line_content(kw_preview(), m.preview@)]
    } else {
        Seq::empty()
    };
    let al = attr_lines(ps);
    assert(ls == head + pv + al);
    // every line is clean
    assert(lead_ok(kw_id()) && lead_ok(kw_ts()) && lead_ok(kw_preview())) by {
        assert(!is_ws(kw_id()[0]) && !is_ws(kw_ts()[0]) && !is_ws(kw_preview()[0]));
    }
    lemma_line_shape(kw_id(), m.id@);
    lemma_line_shape(kw_ts(), m.ts@);
    lemma_line_shape(kw_preview(), m.preview@);
    lemma_size_line_shape(m.size);
    assert forall|i: int| 0 <= i < ls.len() implies clean_line(#[trigger] ls[i]) by {
        if i < 3 {
            assert(ls[i] == head[i]);
        } else if i < 3 + pv.len() {
            assert(ls[i] == pv[i - 3]);
        } else {
            let j = i - 3 - pv.len();
            assert(ls[i] == al[j]);
            assert(al[j] == line_content(ps[j].0, ps[j].1));
            assert(lead_ok(ps[j].0) && tail_ok(ps[j].1));
            lemma_line_shape(ps[j].0, ps[j].1);
        }
    }
    lemma_parse_from_lines(ls, empty_meta_view());
    // the fixed lines
    let st0 = empty_meta_view();
    let st1 = MetaView { id: m.id@, ..st0 };
    let st2 = MetaView { ts: m.ts@, ..st1 };
    let st3 = MetaView { size: m.size, ..st2 };
    lemma_parse_fixed_line(kw_id(), m.id@, st0);
    lemma_parse_fixed_line(kw_ts(), m.ts@, st1);
    lemma_parse_size_line(m.size, st2);
    let h1 = head.drop_first();
    let h2 = h1.drop_first();
    let h3 = h2.drop_first();
    assert(h1[0] == head[1]);
    assert(h2[0] == head[2]);
    assert(h3 =~= Seq::<Seq<char>>::empty());
    assert(fold_lines(h3, st3) == Ok::<MetaView, AttrError>(st3));
    assert(fold_lines(h2, st2) == Ok::<MetaView, AttrError>(st3));
    assert(fold_lines(h1, st1) == Ok::<MetaView, AttrError>(st3));
    assert(fold_lines(head, st0) == Ok::<MetaView, AttrError>(st3));
    let st4 = if keeps_preview(m.preview@) {
        MetaView { preview: m.preview@, ..st3 }
    } else {
        st3
    };
    if keeps_preview(m.preview@) {
        lemma_parse_fixed_line(kw_preview(), m.preview@, st3);
        assert(pv.drop_first() =~= Seq::<Seq<char>>::empty());
        assert(pv[0] == line_content(kw_preview(), m.preview@));
        assert(fold_lines(pv.drop_first(), st4) == Ok::<MetaView, AttrError>(st4));
    } else {
        assert(pv.len() == 0);
    }
    assert(fold_lines(pv, st3) == Ok::<MetaView, AttrError>(st4));
    assert(st4.preview == m.preview@);
    assert forall|i: int| 0 <= i < ps.len() implies !is_reserved_key(#[trigger] ps[i].0) by {
        assert(!is_reserved_key(m.attrs.pairs()[i].0));
    }
    lemma_fold_attr_lines(ps, st4);
    lemma_insert_all(Map::empty(), ps);
    assert(Map::<Seq<char>, Seq<char>>::empty().union_prefer_right(pairs_map(ps)) =~= pairs_map(ps));
    lemma_fold_append(head, pv, st0);
    lemma_fold_append(head + pv, al, st0);
    let fin = MetaView { attrs: insert_all(st4.attrs, ps), ..st4 };
    assert(fin == m@);
}

} // verus!
