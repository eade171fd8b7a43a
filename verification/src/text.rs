//! Text as sequences of characters: comparison, white space and trimming.

use vstd::prelude::*;
use vstd::string::*;
use vstd::utf8::*;

verus! {

/// Whether two strings hold the same characters.
pub fn same_text(a: &str, b: &str) -> (same: bool)
    ensures
        same == (a@ == b@),
{
    let x = a.as_bytes();
    let y = b.as_bytes();
    proof {
        encode_utf8_decode_utf8(a@);
        encode_utf8_decode_utf8(b@);
    }
    if x.len() != y.len() {
        return false;
    }
    let mut i: usize = 0;
    while i < x.len()
        invariant
            i <= x.len(),
            x.len() == y.len(),
            x@ == encode_utf8(a@),
            y@ == encode_utf8(b@),
            forall|k: int| 0 <= k < i ==> x@[k] == y@[k],
        decreases x.len() - i,
    {
        if x[i] != y[i] {
            return false;
        }
        i += 1;
    }
    assert(x@ =~= y@);
    true
}

/// The characters of a string, in order.
pub fn chars_of(s: &str) -> (chars: Vec<char>)
    ensures
        chars@ == s@,
{
    let mut chars: Vec<char> = Vec::new();
    for c in it: s.chars()
        invariant
            it.seq() == s@,
            chars@ =~= it.seq().take(it.index() as int),
    {
        chars.push(c);
    }
    assert(chars@ =~= s@);
    chars
}

/// White space: the characters that Unicode gives the property `White_Space`.
pub open spec fn is_whitespace(c: char) -> bool {
    let n = c as u32;
    ||| 0x09 <= n <= 0x0D
    ||| n == 0x20
    ||| n == 0x85
    ||| n == 0xA0
    ||| n == 0x1680
    ||| 0x2000 <= n <= 0x200A
    ||| n == 0x2028
    ||| n == 0x2029
    ||| n == 0x202F
    ||| n == 0x205F
    ||| n == 0x3000
}

/// Whether a character is white space.
pub fn whitespace(c: char) -> (white: bool)
    ensures
        white == is_whitespace(c),
{
    let n: u32 = c as u32;
    (0x09 <= n && n <= 0x0D) || n == 0x20 || n == 0x85 || n == 0xA0 || n == 0x1680 || (0x2000 <= n
        && n <= 0x200A) || n == 0x2028 || n == 0x2029 || n == 0x202F || n == 0x205F || n == 0x3000
}

/// A text without the white space at its start.
pub open spec fn trim_start(s: Seq<char>) -> Seq<char>
    decreases s.len(),
{
    if s.len() > 0 && is_whitespace(s[0]) {
        trim_start(s.drop_first())
    } else {
        s
    }
}

/// A text without the white space at its end.
pub open spec fn trim_end(s: Seq<char>) -> Seq<char>
    decreases s.len(),
{
    if s.len() > 0 && is_whitespace(s.last()) {
        trim_end(s.drop_last())
    } else {
        s
    }
}

/// A text without the white space at either end.
pub open spec fn trim(s: Seq<char>) -> Seq<char> {
    trim_end(trim_start(s))
}

/// `trim_start` cuts off the longest run of white space that `s` begins with: what
/// is left is the end of `s`, it does not begin with white space, and all that was
/// cut off is white space.
pub proof fn lemma_trim_start(s: Seq<char>)
    ensures
        trim_start(s).len() <= s.len(),
        trim_start(s) == s.skip(s.len() - trim_start(s).len()),
        trim_start(s).len() > 0 ==> !is_whitespace(trim_start(s)[0]),
        forall|i: int| 0 <= i < s.len() - trim_start(s).len() ==> is_whitespace(s[i]),
    decreases s.len(),
{
    if s.len() > 0 && is_whitespace(s[0]) {
        let rest = s.drop_first();
        lemma_trim_start(rest);
        let cut = rest.len() - trim_start(rest).len();
        assert(rest.skip(cut) =~= s.skip(cut + 1));
        assert forall|i: int| 0 <= i < s.len() - trim_start(s).len() implies is_whitespace(
            s[i],
        ) by {
            if i > 0 {
                assert(s[i] == rest[i - 1]);
            }
        }
    } else {
        assert(s.skip(0) =~= s);
    }
}

/// `trim_end` cuts off the longest run of white space that `s` ends with: what is
/// left is the start of `s`, it does not end with white space, and all that was cut
/// off is white space.
pub proof fn lemma_trim_end(s: Seq<char>)
    ensures
        trim_end(s).len() <= s.len(),
        trim_end(s) == s.take(trim_end(s).len() as int),
        trim_end(s).len() > 0 ==> !is_whitespace(trim_end(s).last()),
        forall|i: int| trim_end(s).len() <= i < s.len() ==> is_whitespace(s[i]),
    decreases s.len(),
{
    if s.len() > 0 && is_whitespace(s.last()) {
        let rest = s.drop_last();
        lemma_trim_end(rest);
        assert(rest.take(trim_end(rest).len() as int) =~= s.take(trim_end(rest).len() as int));
        assert forall|i: int| trim_end(s).len() <= i < s.len() implies is_whitespace(s[i]) by {
            if i < s.len() - 1 {
                assert(s[i] == rest[i]);
            }
        }
    } else {
        assert(s.take(s.len() as int) =~= s);
    }
}

/// `trim` leaves the part of `s` between the white space at its ends: a piece of `s`
/// that neither begins nor ends with white space, with nothing but white space
/// before it and after it.
pub proof fn lemma_trim(s: Seq<char>)
    ensures
        trim(s).len() > 0 ==> !is_whitespace(trim(s)[0]) && !is_whitespace(trim(s).last()),
        exists|from: int, to: int|
            0 <= from <= to <= s.len() && trim(s) == s.subrange(from, to) && (forall|i: int|
                0 <= i < from || to <= i < s.len() ==> is_whitespace(s[i])),
{
    let inner = trim_start(s);
    lemma_trim_start(s);
    lemma_trim_end(inner);
    let from = s.len() - inner.len();
    let to = from + trim(s).len();
    assert(trim(s) =~= s.subrange(from, to));
    if trim(s).len() > 0 {
        assert(trim(s)[0] == inner[0]);
    }
    assert forall|i: int| 0 <= i < from || to <= i < s.len() implies is_whitespace(s[i]) by {
        if to <= i {
            assert(s[i] == inner[i - from]);
        }
    }
}

/// The index at which the white space at the end of `chars[from..]` begins.
fn end_of_content(chars: &Vec<char>, from: usize) -> (end: usize)
    requires
        from <= chars.len(),
    ensures
        from <= end <= chars.len(),
        trim_end(chars@.subrange(from as int, chars.len() as int)) == chars@.subrange(
            from as int,
            end as int,
        ),
{
    let mut end: usize = chars.len();
    while end > from && whitespace(chars[end - 1])
        invariant
            from <= end <= chars.len(),
            trim_end(chars@.subrange(from as int, chars.len() as int)) == trim_end(
                chars@.subrange(from as int, end as int),
            ),
        decreases end,
    {
        assert(chars@.subrange(from as int, end as int).drop_last() =~= chars@.subrange(
            from as int,
            end - 1,
        ));
        end -= 1;
    }
    end
}

/// The index at which the white space at the start of `chars` ends.
fn start_of_content(chars: &Vec<char>) -> (start: usize)
    ensures
        start <= chars.len(),
        trim_start(chars@) == chars@.subrange(start as int, chars.len() as int),
{
    let mut start: usize = 0;
    assert(chars@.subrange(0, chars.len() as int) =~= chars@);
    while start < chars.len() && whitespace(chars[start])
        invariant
            start <= chars.len(),
            trim_start(chars@) == trim_start(chars@.subrange(start as int, chars.len() as int)),
        decreases chars.len() - start,
    {
        assert(chars@.subrange(start as int, chars.len() as int).drop_first() =~= chars@.subrange(
            start + 1,
            chars.len() as int,
        ));
        start += 1;
    }
    start
}

/// The string without the white space at its end.
pub fn trimmed_end(s: &str) -> (out: String)
    ensures
        out@ == trim_end(s@),
{
    let chars = chars_of(s);
    assert(chars@.subrange(0, chars.len() as int) =~= chars@);
    let end = end_of_content(&chars, 0);
    s.substring_char(0, end).to_owned()
}

/// The string without the white space at its start and at its end.
pub fn trimmed(s: &str) -> (out: String)
    ensures
        out@ == trim(s@),
{
    let chars = chars_of(s);
    let start = start_of_content(&chars);
    let end = end_of_content(&chars, start);
    s.substring_char(start, end).to_owned()
}

/// What follows `prefix` in `s`, where `s` begins with it.
pub open spec fn strip_prefix(s: Seq<char>, prefix: Seq<char>) -> Option<Seq<char>> {
    if prefix.is_prefix_of(s) {
        Some(s.skip(prefix.len() as int))
    } else {
        None
    }
}

/// What follows `prefix` in `s`; `None` where `s` does not begin with `prefix`.
pub fn after_prefix(s: &str, prefix: &str) -> (rest: Option<String>)
    ensures
        rest.deep_view() == strip_prefix(s@, prefix@),
{
    let chars = chars_of(s);
    let head = chars_of(prefix);
    if head.len() > chars.len() {
        return None;
    }
    let mut i: usize = 0;
    while i < head.len()
        invariant
            i <= head.len() <= chars.len(),
            head@ == prefix@,
            chars@ == s@,
            forall|k: int| 0 <= k < i ==> head@[k] == chars@[k],
        decreases head.len() - i,
    {
        if head[i] != chars[i] {
            return None;
        }
        i += 1;
    }
    assert(prefix@ =~= s@.subrange(0, prefix@.len() as int));
    Some(s.substring_char(head.len(), chars.len()).to_owned())
}

/// Whether a text is one line feed followed by nothing but spaces.
pub open spec fn is_line_break(s: Seq<char>) -> bool {
    &&& s.len() > 0
    &&& s[0] == '\n'
    &&& forall|i: int| 1 <= i < s.len() ==> s[i] == ' '
}

/// Whether a string is one line feed followed by nothing but spaces.
pub fn line_break(s: &str) -> (blank: bool)
    ensures
        blank == is_line_break(s@),
{
    let chars = chars_of(s);
    if chars.len() == 0 || chars[0] != '\n' {
        return false;
    }
    let mut i: usize = 1;
    while i < chars.len()
        invariant
            1 <= i <= chars.len(),
            chars@ == s@,
            chars@[0] == '\n',
            forall|k: int| 1 <= k < i ==> chars@[k] == ' ',
        decreases chars.len() - i,
    {
        if chars[i] != ' ' {
            return false;
        }
        i += 1;
    }
    true
}

} // verus!
