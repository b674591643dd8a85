//! The write-payload grammar.
//!
//! A write body is either plain text, or text prefixed with `FILE=<path>`
//! where the path runs to the first whitespace character; the rest of the
//! body, separator included, is the textual content.  The body arrives as
//! the raw bytes of the write; a body that is not valid UTF-8 parses as
//! nothing, and the write is silently dropped.

use vstd::prelude::*;
use vstd::string::{StringSliceAdditionalSpecFns, StrSliceExecFns};
use vstd::utf8::{decode_utf8, encode_utf8_decode_utf8, valid_utf8};

verus! {

/// The whitespace set that terminates a path: Unicode's White_Space
/// property, the set `char::is_whitespace` accepts.
pub open spec fn ws_char(c: char) -> bool {
    let u = c as u32;
    u == 0x9 || u == 0xA || u == 0xB || u == 0xC || u == 0xD || u == 0x20 || u == 0x85
        || u == 0xA0 || u == 0x1680 || (0x2000 <= u && u <= 0x200A) || u == 0x2028 || u == 0x2029
        || u == 0x202F || u == 0x205F || u == 0x3000
}

pub fn is_space(c: char) -> (r: bool)
    ensures
        r == ws_char(c),
{
    let u = c as u32;
    u == 0x9 || u == 0xA || u == 0xB || u == 0xC || u == 0xD || u == 0x20 || u == 0x85
        || u == 0xA0 || u == 0x1680 || (0x2000 <= u && u <= 0x200A) || u == 0x2028 || u == 0x2029
        || u == 0x202F || u == 0x205F || u == 0x3000
}

/// The position of the first whitespace character at or after `i`, or the
/// text's length when there is none.
pub open spec fn find_ws(s: Seq<char>, i: int) -> int
    decreases s.len() - i,
{
    if i < 0 || i >= s.len() {
        s.len() as int
    } else if ws_char(s[i]) {
        i
    } else {
        find_ws(s, i + 1)
    }
}

pub proof fn lemma_find_ws_bounds(s: Seq<char>, i: int)
    requires
        0 <= i <= s.len(),
    ensures
        i <= find_ws(s, i) <= s.len(),
    decreases s.len() - i,
{
    if i < s.len() && !ws_char(s[i]) {
        lemma_find_ws_bounds(s, i + 1);
    }
}

/// The path a payload names, when its text begins with the file prefix.
pub open spec fn payload_file(s: Seq<char>) -> Option<Seq<char>> {
    if s.len() >= 5 && s.subrange(0, 5) == "FILE="@ {
        Some(s.subrange(5, find_ws(s, 5)))
    } else {
        None
    }
}

/// The textual content of a payload: everything after the path, separator
/// included, or the whole text when no path is named.
pub open spec fn payload_content(s: Seq<char>) -> Seq<char> {
    if s.len() >= 5 && s.subrange(0, 5) == "FILE="@ {
        s.subrange(find_ws(s, 5), s.len() as int)
    } else {
        s
    }
}

/// A parsed write body: the path of a local file to attach, if one is
/// named, and the textual content.
pub struct WritePayload {
    pub file: Option<String>,
    pub content: String,
}

/// Relies on std's `str::from_utf8`: it returns the text of exactly the
/// given bytes, and errs exactly on bytes that are not valid UTF-8.
#[verifier::external_body]
fn utf8_str(v: &[u8]) -> (r: Option<&str>)
    ensures
        r is Some <==> valid_utf8(v@),
        r matches Some(s) ==> s.spec_bytes() == v@,
{
    core::str::from_utf8(v).ok()
}

/// Parses a write body against the payload grammar.  Exactly the bodies
/// that are valid UTF-8 parse; the rest are dropped by the caller, as the
/// fire-and-forget actions require.
pub fn parse_write_payload(data: &[u8]) -> (r: Option<WritePayload>)
    ensures
        r is Some <==> valid_utf8(data@),
        r matches Some(p) ==> ({
            let s = decode_utf8(data@);
            &&& match p.file {
                Some(f) => payload_file(s) == Some(f@),
                None => payload_file(s) is None,
            }
            &&& p.content@ == payload_content(s)
        }),
{
    let st: &str = match utf8_str(data) {
        Some(s) => s,
        None => {
            return None;
        },
    };
    proof {
        encode_utf8_decode_utf8(st@);
        assert(decode_utf8(data@) == st@);
    }
    let n = st.unicode_len();
    let has_prefix = n >= 5 && st.get_char(0) == 'F' && st.get_char(1) == 'I' && st.get_char(2)
        == 'L' && st.get_char(3) == 'E' && st.get_char(4) == '=';
    proof {
        reveal_strlit("FILE=");
        if n >= 5 {
            let pre = st@.subrange(0, 5);
            assert(pre[0] == st@[0] && pre[1] == st@[1] && pre[2] == st@[2] && pre[3] == st@[3]
                && pre[4] == st@[4]);
            if has_prefix {
                assert(pre =~= "FILE="@);
            }
        }
    }
    if has_prefix {
        let mut e: usize = 5;
        while e < n && !is_space(st.get_char(e))
            invariant
                5 <= e <= n,
                n == st@.len(),
                find_ws(st@, 5) == find_ws(st@, e as int),
            decreases n - e,
        {
            e = e + 1;
        }
        proof {
            assert(find_ws(st@, 5) == e as int);
        }
        let file = st.substring_char(5, e).to_owned();
        let content = st.substring_char(e, n).to_owned();
        Some(WritePayload { file: Some(file), content })
    } else {
        Some(WritePayload { file: None, content: st.to_owned() })
    }
}

} // verus!
