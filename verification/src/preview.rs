//! The short text preview stored with each entry: the first characters of
//! its data as text, with control characters shown as `.`, white space
//! folded to single spaces, and the ends trimmed.
use vstd::prelude::*;
use vstd::utf8::{decode_utf8, valid_utf8};

use crate::text::{chars_of, is_ctrl, push_char, trim, trim_string};

verus! {

/// Most characters a stored preview holds.
pub const MAX_STORED_PREVIEW_RUNES: usize = 128;

/// The text that `String::from_utf8_lossy` makes of `bytes`.
pub uninterp spec fn utf8_lossy(bytes: Seq<u8>) -> Seq<char>;

/// Calls `String::from_utf8_lossy`; its documentation says that valid
/// UTF-8 comes back unchanged, which the contract states.  What it makes
/// of invalid input (each bad sequence becomes U+FFFD) is only named.
#[verifier::external_body]
fn decode_lossy(buf: &[u8]) -> (r: String)
    ensures
        r@ == utf8_lossy(buf@),
        valid_utf8(buf@) ==> r@ == decode_utf8(buf@),
{
    String::from_utf8_lossy(buf).into_owned()
}

/// How a character shows in a preview: U+FFFD and other control characters
/// as `.`, newline, carriage return and tab as a space.
pub open spec fn preview_char(c: char) -> char {
    if c == '\u{FFFD}' {
        '.'
    } else if c == '\n' || c == '\r' || c == '\t' {
        ' '
    } else if !is_ctrl(c) {
        c
    } else {
        '.'
    }
}

/// The preview text of `d` before trimming: characters mapped by
/// [`preview_char`], a space right after a space dropped, at most `limit`
/// characters.
pub open spec fn preview_scan(d: Seq<char>, limit: nat) -> Seq<char>
    decreases d.len(),
{
    if d.len() == 0 {
        Seq::empty()
    } else {
        let out = preview_scan(d.drop_last(), limit);
        let m = preview_char(d.last());
        if out.len() >= limit {
            out
        } else if out.len() > 0 && out.last() == ' ' && m == ' ' {
            out
        } else {
            out.push(m)
        }
    }
}

/// The preview of text `d` with at most `limit` characters, trimmed.
pub open spec fn text_preview_spec(d: Seq<char>, limit: nat) -> Seq<char> {
    trim(preview_scan(d, limit))
}

#[verifier::rlimit(50)]
proof fn lemma_scan_len(d: Seq<char>, limit: nat)
    ensures
        preview_scan(d, limit).len() <= d.len(),
    decreases d.len(),
{
    if d.len() > 0 {
        lemma_scan_len(d.drop_last(), limit);
    }
}

/// The preview of the bytes `buf` read as text, with at most `chars`
/// characters.
fn build_text_preview(buf: &[u8], chars: usize) -> (r: String)
    ensures
        r@ == text_preview_spec(utf8_lossy(buf@), chars as nat),
        valid_utf8(buf@) ==> r@ == text_preview_spec(decode_utf8(buf@), chars as nat),
{
    let decoded = decode_lossy(buf);
    text_preview(decoded.as_str(), chars)
}

/// The preview of `text` with at most `chars` characters (see
/// [`text_preview_spec`]).
#[verifier::rlimit(50)]
pub fn text_preview(text: &str, chars: usize) -> (r: String)
    ensures
        r@ == text_preview_spec(text@, chars as nat),
{
    let d = chars_of(text);
    let mut out = String::new();
    let mut last: Option<char> = None;
    let mut count: usize = 0;
    let mut i: usize = 0;
    assert(d@.take(d.len() as int) =~= d@);
    assert(d@.take(0) =~= Seq::<char>::empty());
    while i < d.len()
        invariant
            i <= d.len(),
            d@ == text@,
            d@.take(d.len() as int) == d@,
            out@ == preview_scan(d@.take(i as int), chars as nat),
            count == out@.len(),
            last == (if out@.len() > 0 {
                Some(out@.last())
            } else {
                None::<char>
            }),
        ensures
            out@ == preview_scan(d@, chars as nat),
        decreases d.len() - i,
    {
        proof {
            assert(d@.take(i + 1).drop_last() =~= d@.take(i as int));
            lemma_scan_len(d@.take(i as int), chars as nat);
            if i == 0 {
                assert(d@.take(0) =~= Seq::<char>::empty());
            }
        }
        if count >= chars {
            proof {
                lemma_scan_stops(d@, i as int, chars as nat);
                assert(d@.take(d.len() as int) =~= d@);
            }
            break;
        }
        let c = d[i];
        let m = if c == '\u{FFFD}' {
            '.'
        } else if c == '\n' || c == '\r' || c == '\t' {
            ' '
        } else if !crate::text::char_is_control(c) {
            c
        } else {
            '.'
        };
        if last == Some(' ') && m == ' ' {
            i += 1;
            proof {
                if i == d.len() {
                    assert(d@.take(d.len() as int) =~= d@);
                }
            }
            continue;
        }
        push_char(&mut out, m);
        last = Some(m);
        count += 1;
        i += 1;
        proof {
            if i == d.len() {
                assert(d@.take(d.len() as int) =~= d@);
            }
        }
    }
    trim_string(out.as_str())
}

/// Once the preview is full, later characters change nothing.
#[verifier::rlimit(50)]
proof fn lemma_scan_stops(d: Seq<char>, i: int, limit: nat)
    requires
        0 <= i <= d.len(),
        preview_scan(d.take(i), limit).len() >= limit,
    ensures
        preview_scan(d, limit) == preview_scan(d.take(i), limit),
    decreases d.len() - i,
{
    if i < d.len() {
        assert(d.take(i + 1).drop_last() =~= d.take(i));
        lemma_scan_stops(d, i + 1, limit);
    } else {
        assert(d.take(i) =~= d);
    }
}

/// The limit a stored preview uses: `chars`, or 128 when that is 0 or
/// more than 128.
pub open spec fn preview_limit(chars: nat) -> nat {
    if chars == 0 || chars > MAX_STORED_PREVIEW_RUNES {
        MAX_STORED_PREVIEW_RUNES as nat
    } else {
        chars
    }
}

/// The preview stored for data that starts with `buf` (see
/// [`text_preview_spec`]); empty for no data.
#[verifier::rlimit(50)]
pub fn build_preview_data(buf: &[u8], chars: usize) -> (r: String)
    ensures
        buf@.len() == 0 ==> r@ == Seq::<char>::empty(),
        buf@.len() > 0 ==> r@ == text_preview_spec(utf8_lossy(buf@), preview_limit(chars as nat)),
        buf@.len() > 0 && valid_utf8(buf@) ==> r@ == text_preview_spec(
            decode_utf8(buf@),
            preview_limit(chars as nat),
        ),
{
    if buf.len() == 0 {
        return String::new();
    }
    let limit = if chars == 0 || chars > MAX_STORED_PREVIEW_RUNES {
        MAX_STORED_PREVIEW_RUNES
    } else {
        chars
    };
    build_text_preview(buf, limit)
}

} // verus!
