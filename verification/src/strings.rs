//! Text helpers shared by the parsers.

use vstd::prelude::*;
use vstd::string::*;

verus! {

/// `String::push` appends the given character to the end of the string.
pub assume_specification[ String::push ](s: &mut String, ch: char)
    ensures
        final(s)@ == old(s)@.push(ch),
;

/// Each byte read as the character with that code point.
pub open spec fn chars_of_bytes(bytes: Seq<u8>) -> Seq<char> {
    Seq::new(bytes.len(), |i: int| bytes[i] as char)
}

/// Text of ASCII characters is read from its bytes as it stands: every
/// character is the one with the code point of its byte.
pub proof fn lemma_ascii_chars_of_bytes(s: &str)
    requires
        is_ascii(s),
    ensures
        chars_of_bytes(s.spec_bytes()) == s@,
{
    is_ascii_spec_bytes(s);
    assert forall|i: int| 0 <= i < s@.len() implies (#[trigger] s@[i] as u8) as char == s@[i] by {
        assert('\0' <= s@[i] <= '\u{7f}');
    }
    assert(chars_of_bytes(s.spec_bytes()) =~= s@);
}

/// A string that holds exactly the character `ch`.
pub fn string_of_char(ch: char) -> (s: String)
    ensures
        s@ == seq![ch],
{
    let mut s = String::new();
    s.push(ch);
    proof {
        assert(s@ =~= seq![ch]);
    }
    s
}

/// Whether a character has the Unicode property White_Space.
pub uninterp spec fn is_white_space(c: char) -> bool;

/// `char::is_whitespace` tells whether the character has the White_Space
/// property; the result depends on the character alone.
pub assume_specification[ char::is_whitespace ](c: char) -> (b: bool)
    ensures
        b == is_white_space(c),
;

/// `s` without its leading white space.
pub open spec fn trim_start_spec(s: Seq<char>) -> Seq<char>
    decreases s.len(),
{
    if s.len() > 0 && is_white_space(s[0]) {
        trim_start_spec(s.drop_first())
    } else {
        s
    }
}

/// `s` without its trailing white space.
pub open spec fn trim_end_spec(s: Seq<char>) -> Seq<char>
    decreases s.len(),
{
    if s.len() > 0 && is_white_space(s.last()) {
        trim_end_spec(s.drop_last())
    } else {
        s
    }
}

/// `s` without its leading and trailing white space.
pub open spec fn trim_spec(s: Seq<char>) -> Seq<char> {
    trim_end_spec(trim_start_spec(s))
}

/// Where the leading white space of `s` ends, `trim_start_spec` cuts.
proof fn lemma_trim_start(s: Seq<char>, i: int)
    requires
        0 <= i <= s.len(),
        forall|j: int| 0 <= j < i ==> is_white_space(#[trigger] s[j]),
        i < s.len() ==> !is_white_space(s[i]),
    ensures
        trim_start_spec(s) == s.subrange(i, s.len() as int),
    decreases i,
{
    if i == 0 {
        assert(s.subrange(0, s.len() as int) =~= s);
    } else {
        assert(is_white_space(s[0]));
        let rest = s.drop_first();
        assert forall|j: int| 0 <= j < i - 1 implies is_white_space(#[trigger] rest[j]) by {
            assert(rest[j] == s[j + 1]);
        }
        lemma_trim_start(rest, i - 1);
        assert(rest.subrange(i - 1, rest.len() as int) =~= s.subrange(i, s.len() as int));
    }
}

/// Where the trailing white space of `s` begins, `trim_end_spec` cuts.
proof fn lemma_trim_end(s: Seq<char>, j: int)
    requires
        0 <= j <= s.len(),
        forall|k: int| j <= k < s.len() ==> is_white_space(#[trigger] s[k]),
        0 < j ==> !is_white_space(s[j - 1]),
    ensures
        trim_end_spec(s) == s.subrange(0, j),
    decreases s.len() - j,
{
    if j == s.len() {
        assert(s.subrange(0, j) =~= s);
    } else {
        assert(is_white_space(s[s.len() - 1]));
        let rest = s.drop_last();
        assert forall|k: int| j <= k < rest.len() implies is_white_space(#[trigger] rest[k]) by {
            assert(rest[k] == s[k]);
        }
        lemma_trim_end(rest, j);
        assert(rest.subrange(0, j) =~= s.subrange(0, j));
    }
}

/// `s` without its leading and trailing white space, as `str::trim` gives
/// it.
pub fn trim(s: &str) -> (trimmed: String)
    ensures
        trimmed@ == trim_spec(s@),
{
    let len = s.unicode_len();
    let mut start: usize = 0;
    while start < len && s.get_char(start).is_whitespace()
        invariant
            start <= len == s@.len(),
            forall|j: int| 0 <= j < start ==> is_white_space(#[trigger] s@[j]),
        decreases len - start,
    {
        start += 1;
    }
    let mut end: usize = len;
    while end > start && s.get_char(end - 1).is_whitespace()
        invariant
            start <= end <= len == s@.len(),
            forall|k: int| end <= k < len ==> is_white_space(#[trigger] s@[k]),
        decreases end,
    {
        end -= 1;
    }
    proof {
        lemma_trim_start(s@, start as int);
        let middle = s@.subrange(start as int, len as int);
        assert forall|k: int| end - start <= k < middle.len() implies is_white_space(
            #[trigger] middle[k],
        ) by {
            assert(middle[k] == s@[k + start]);
        }
        if end > start {
            assert(middle[end - start - 1] == s@[end - 1]);
        }
        lemma_trim_end(middle, end - start);
        assert(middle.subrange(0, end - start) =~= s@.subrange(start as int, end as int));
    }
    String::from_str(s.substring_char(start, end))
}

} // verus!
