//! The record kept for each stash entry.
use vstd::prelude::*;
use vstd::utf8::{decode_utf8, encode_utf8, is_char_boundary};

use crate::strmap::StrMap;
use crate::text::{lower_seq, to_lower};
use vstd::string::StringSliceAdditionalSpecFns;

verus! {

/// Number of bytes of an id that its short form shows.
pub const SHORT_ID_LEN: usize = 8;

/// Minimum length of an id prefix or suffix that `resolve` accepts.
pub const MIN_ID_LEN: usize = 6;

/// A string-keyed map of user attributes, in key order.
pub type AttrMap = StrMap<String>;

/// Metadata of one stored entry.
pub struct Meta {
    pub id: String,
    pub ts: String,
    pub size: i64,
    pub preview: String,
    pub attrs: AttrMap,
}

/// The mathematical value of a [`Meta`].
pub struct MetaView {
    pub id: Seq<char>,
    pub ts: Seq<char>,
    pub size: i64,
    pub preview: Seq<char>,
    pub attrs: Map<Seq<char>, Seq<char>>,
}

impl View for Meta {
    type V = MetaView;

    open spec fn view(&self) -> MetaView {
        MetaView {
            id: self.id@,
            ts: self.ts@,
            size: self.size,
            preview: self.preview@,
            attrs: self.attrs@,
        }
    }
}

/// Byte offset at which the short form of an id starts.
pub open spec fn short_id_start(id: Seq<char>) -> int {
    let n = encode_utf8(id).len();
    if n > SHORT_ID_LEN {
        n - SHORT_ID_LEN
    } else {
        0
    }
}

/// The short form can be cut out of `id` without splitting a character.
pub open spec fn short_id_ok(id: Seq<char>) -> bool {
    is_char_boundary(encode_utf8(id), short_id_start(id))
}

/// The last eight bytes of an id, lower-cased.
pub open spec fn short_id_spec(id: Seq<char>) -> Seq<char> {
    lower_seq(
        decode_utf8(encode_utf8(id).subrange(short_id_start(id), encode_utf8(id).len() as int)),
    )
}

impl Meta {
    /// The attribute map is well formed.
    pub open spec fn wf(&self) -> bool {
        self.attrs.wf()
    }

    /// The last eight bytes of the id, lower-cased.
    pub fn short_id(&self) -> (r: String)
        requires
            short_id_ok(self.id@),
        ensures
            r@ == short_id_spec(self.id@),
    {
        let s = self.id.as_str();
        assert(s@ == self.id@);
        assert(s.spec_bytes() == encode_utf8(self.id@));
        let n = s.as_bytes().len();
        assert(n == encode_utf8(self.id@).len());
        let start: usize = if n > SHORT_ID_LEN {
            n - SHORT_ID_LEN
        } else {
            0
        };
        proof {
            vstd::utf8::encode_utf8_valid_utf8(self.id@);
        }
        let (_, tail) = s.split_at(start);
        proof {
            vstd::utf8::encode_utf8_decode_utf8(tail@);
            assert(tail.spec_bytes() == encode_utf8(tail@));
            assert(tail@ == decode_utf8(encode_utf8(self.id@).subrange(start as int, n as int)));
        }
        to_lower(tail)
    }

    /// The id, lower-cased.
    pub fn display_id(&self) -> (r: String)
        ensures
            r@ == lower_seq(self.id@),
    {
        to_lower(self.id.as_str())
    }
}

} // verus!
