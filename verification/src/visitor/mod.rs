pub mod type_check;
pub mod uy_borrow_check;
pub mod uy_type_check;

use std::ops::Range;
use vstd::prelude::*;
use vstd::string::StringSliceAdditionalSpecFns;
use vstd::utf8::*;

use crate::names::same_text;

verus! {

/// A `char` with the Unicode `White_Space` property, as `char::is_whitespace` uses.
pub open spec fn is_white_space(c: char) -> bool {
    let u = c as u32;
    (0x09 <= u <= 0x0d) || u == 0x20 || u == 0x85 || u == 0xa0 || u == 0x1680 || (0x2000 <= u
        <= 0x200a) || u == 0x2028 || u == 0x2029 || u == 0x202f || u == 0x205f || u == 0x3000
}

/// The text without its leading white space.
pub open spec fn trim_start(s: Seq<char>) -> Seq<char>
    decreases s.len(),
{
    if s.len() > 0 && is_white_space(s[0]) {
        trim_start(s.drop_first())
    } else {
        s
    }
}

/// The text without its trailing white space.
pub open spec fn trim_end(s: Seq<char>) -> Seq<char>
    decreases s.len(),
{
    if s.len() > 0 && is_white_space(s.last()) {
        trim_end(s.drop_last())
    } else {
        s
    }
}

/// The text without leading and trailing white space, as `str::trim` gives it.
pub open spec fn trim(s: Seq<char>) -> Seq<char> {
    trim_end(trim_start(s))
}

/// `std::str::from_utf8`: std documents that it succeeds exactly on valid UTF-8,
/// and then gives a `str` with those bytes.
#[verifier::external_body]
fn str_from_utf8(bytes: &[u8]) -> (r: Option<&str>)
    ensures
        r is Some <==> valid_utf8(bytes@),
        r matches Some(s) ==> s.spec_bytes() == bytes@,
{
    std::str::from_utf8(bytes).ok()
}

fn char_is_white_space(c: char) -> (r: bool)
    ensures
        r == is_white_space(c),
{
    let u = c as u32;
    (0x09 <= u && u <= 0x0d) || u == 0x20 || u == 0x85 || u == 0xa0 || u == 0x1680 || (0x2000 <= u
        && u <= 0x200a) || u == 0x2028 || u == 0x2029 || u == 0x202f || u == 0x205f || u == 0x3000
}

/// Leading white space can be dropped before trimming the start.
proof fn lemma_trim_start_skip(s: Seq<char>, i: int)
    requires
        0 <= i <= s.len(),
        forall|k: int| 0 <= k < i ==> is_white_space(#[trigger] s[k]),
    ensures
        trim_start(s) == trim_start(s.skip(i)),
    decreases i,
{
    if i > 0 {
        assert(s.skip(1).skip(i - 1) =~= s.skip(i));
        assert forall|k: int| 0 <= k < i - 1 implies is_white_space(#[trigger] s.skip(1)[k]) by {
            assert(s.skip(1)[k] == s[k + 1]);
        }
        lemma_trim_start_skip(s.skip(1), i - 1);
        assert(s.drop_first() =~= s.skip(1));
    } else {
        assert(s.skip(0) =~= s);
    }
}

/// Trailing white space can be dropped before trimming the end.
proof fn lemma_trim_end_take(s: Seq<char>, j: int)
    requires
        0 <= j <= s.len(),
        forall|k: int| j <= k < s.len() ==> is_white_space(#[trigger] s[k]),
    ensures
        trim_end(s) == trim_end(s.take(j)),
    decreases s.len() - j,
{
    if j < s.len() {
        assert(s.drop_last().take(j) =~= s.take(j));
        lemma_trim_end_take(s.drop_last(), j);
    } else {
        assert(s.take(j) =~= s);
    }
}

/// The text without leading and trailing white space, as `str::trim` gives it.
fn str_trim(s: &str) -> (r: &str)
    ensures
        r@ == trim(s@),
{
    let n = s.unicode_len();
    let mut i: usize = 0;
    while i < n && char_is_white_space(s.get_char(i))
        invariant
            n == s@.len(),
            i <= n,
            forall|k: int| 0 <= k < i ==> is_white_space(#[trigger] s@[k]),
        decreases n - i,
    {
        i = i + 1;
    }
    let mut j: usize = n;
    while j > i && char_is_white_space(s.get_char(j - 1))
        invariant
            n == s@.len(),
            i <= j <= n,
            forall|k: int| j <= k < n ==> is_white_space(#[trigger] s@[k]),
        decreases j - i,
    {
        j = j - 1;
    }
    let r = s.substring_char(i, j);
    proof {
        lemma_trim_start_skip(s@, i as int);
        let rest = s@.skip(i as int);
        if i < n {
            assert(!is_white_space(rest[0]));
        }
        assert(trim_start(rest) == rest);
        assert forall|k: int| j - i <= k < rest.len() implies is_white_space(#[trigger] rest[k]) by {
            assert(rest[k] == s@[k + i]);
        }
        lemma_trim_end_take(rest, j - i);
        let mid = rest.take(j - i);
        assert(mid =~= s@.subrange(i as int, j as int));
        if j > i {
            assert(!is_white_space(mid.last()));
        }
        assert(trim_end(mid) == mid);
    }
    r
}

/// The source text between `start` and `end` spells `true` or `false`, white
/// space around it aside.
pub open spec fn spelled_boolean_spec(text: Seq<u8>, start: int, end: int) -> bool {
    &&& 0 <= start <= end <= text.len()
    &&& valid_utf8(text.subrange(start, end))
    &&& (trim(decode_utf8(text.subrange(start, end))) == "true"@ || trim(
        decode_utf8(text.subrange(start, end)),
    ) == "false"@)
}

/// Whether the source text of a literal spells `true` or `false`. The parser
/// lowers those words to numbers, so their spelling is what marks a `Bool`.
pub fn spelled_boolean(text: &[u8], span: &Range<usize>) -> (r: bool)
    ensures
        r == spelled_boolean_spec(text@, span.start as int, span.end as int),
{
    if span.start > span.end || span.end > text.len() {
        return false;
    }
    let fragment = vstd::slice::slice_subrange(text, span.start, span.end);
    match str_from_utf8(fragment) {
        Some(source) => {
            proof {
                encode_utf8_decode_utf8(source@);
            }
            let trimmed = str_trim(source);
            same_text(trimmed, "true") || same_text(trimmed, "false")
        },
        None => false,
    }
}

} // verus!
