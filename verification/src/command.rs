use vstd::prelude::*;
use vstd::string::StrSliceExecFns;

verus! {

/// Whether `c` is white space: one of the characters that separate words.
pub open spec fn is_space(c: char) -> bool {
    let code = c as u32;
    ||| 0x09 <= code <= 0x0d
    ||| code == 0x20
    ||| code == 0x85
    ||| code == 0xa0
    ||| code == 0x1680
    ||| 0x2000 <= code <= 0x200a
    ||| code == 0x2028
    ||| code == 0x2029
    ||| code == 0x202f
    ||| code == 0x205f
    ||| code == 0x3000
}

/// Whether `c` is white space.
pub fn is_whitespace(c: char) -> (yes: bool)
    ensures
        yes == is_space(c),
{
    let code = c as u32;
    (0x09 <= code && code <= 0x0d) || code == 0x20 || code == 0x85 || code == 0xa0 || code
        == 0x1680 || (0x2000 <= code && code <= 0x200a) || code == 0x2028 || code == 0x2029
        || code == 0x202f || code == 0x205f || code == 0x3000
}

/// How many characters of white space `text` begins with.
pub open spec fn leading_spaces(text: Seq<char>) -> nat
    decreases text.len(),
{
    if text.len() > 0 && is_space(text[0]) {
        1 + leading_spaces(text.drop_first())
    } else {
        0
    }
}

/// How many characters of white space `text` ends with.
pub open spec fn trailing_spaces(text: Seq<char>) -> nat
    decreases text.len(),
{
    if text.len() > 0 && is_space(text.last()) {
        1 + trailing_spaces(text.drop_last())
    } else {
        0
    }
}

/// How many characters `text` begins with that are no white space.
pub open spec fn leading_word(text: Seq<char>) -> nat
    decreases text.len(),
{
    if text.len() > 0 && !is_space(text[0]) {
        1 + leading_word(text.drop_first())
    } else {
        0
    }
}

/// `text` without the white space it begins with.
pub open spec fn trim_start(text: Seq<char>) -> Seq<char> {
    text.skip(leading_spaces(text) as int)
}

/// `text` without the white space it begins and ends with.
pub open spec fn trim(text: Seq<char>) -> Seq<char> {
    let rest = trim_start(text);
    rest.take(rest.len() - trailing_spaces(rest))
}

/// The first word of a line: the line without the white space around it, up
/// to its first white space.
pub open spec fn first_word(line: Seq<char>) -> Seq<char> {
    trim(line).take(leading_word(trim(line)) as int)
}

/// What follows the first word of a line, without the white space between
/// and after.
pub open spec fn after_first_word(line: Seq<char>) -> Seq<char> {
    trim_start(trim(line).skip(leading_word(trim(line)) as int))
}

/// The count of leading characters of a kind is the place of the first
/// character of the other kind.
proof fn lemma_leading_spaces(text: Seq<char>, count: int)
    requires
        0 <= count <= text.len(),
        forall|k: int| 0 <= k < count ==> is_space(#[trigger] text[k]),
        count < text.len() ==> !is_space(text[count]),
    ensures
        leading_spaces(text) == count,
    decreases count,
{
    if count > 0 {
        let rest = text.drop_first();
        assert forall|k: int| 0 <= k < count - 1 implies is_space(#[trigger] rest[k]) by {
            assert(rest[k] == text[k + 1]);
        }
        if count - 1 < rest.len() {
            assert(rest[count - 1] == text[count]);
        }
        lemma_leading_spaces(rest, count - 1);
    }
}

proof fn lemma_leading_word(text: Seq<char>, count: int)
    requires
        0 <= count <= text.len(),
        forall|k: int| 0 <= k < count ==> !is_space(#[trigger] text[k]),
        count < text.len() ==> is_space(text[count]),
    ensures
        leading_word(text) == count,
    decreases count,
{
    if count > 0 {
        let rest = text.drop_first();
        assert forall|k: int| 0 <= k < count - 1 implies !is_space(#[trigger] rest[k]) by {
            assert(rest[k] == text[k + 1]);
        }
        if count - 1 < rest.len() {
            assert(rest[count - 1] == text[count]);
        }
        lemma_leading_word(rest, count - 1);
    }
}

proof fn lemma_trailing_spaces(text: Seq<char>, count: int)
    requires
        0 <= count <= text.len(),
        forall|k: int| text.len() - count <= k < text.len() ==> is_space(#[trigger] text[k]),
        count < text.len() ==> !is_space(text[text.len() - count - 1]),
    ensures
        trailing_spaces(text) == count,
    decreases count,
{
    if count > 0 {
        let rest = text.drop_last();
        assert forall|k: int| rest.len() - (count - 1) <= k < rest.len() implies is_space(
            #[trigger] rest[k],
        ) by {
            assert(rest[k] == text[k]);
        }
        if count - 1 < rest.len() {
            assert(rest[rest.len() - count] == text[text.len() - count - 1]);
        }
        lemma_trailing_spaces(rest, count - 1);
    }
}

/// Splits a line of input into its first word and what follows it. White
/// space around the line and between the two parts is dropped; a line of
/// one word has nothing following.
pub fn split_first_word<'a>(s: &'a str) -> (parts: (&'a str, &'a str))
    ensures
        parts.0@ == first_word(s@),
        parts.1@ == after_first_word(s@),
{
    let length = s.unicode_len();
    let mut start: usize = 0;
    while start < length && is_whitespace(s.get_char(start))
        invariant
            start <= length,
            length == s@.len(),
            forall|k: int| 0 <= k < start ==> is_space(#[trigger] s@[k]),
        decreases length - start,
    {
        start = start + 1;
    }
    let mut end: usize = length;
    while end > start && is_whitespace(s.get_char(end - 1))
        invariant
            start <= end <= length,
            length == s@.len(),
            forall|k: int| end <= k < length ==> is_space(#[trigger] s@[k]),
        decreases end,
    {
        end = end - 1;
    }
    let mut middle: usize = start;
    while middle < end && !is_whitespace(s.get_char(middle))
        invariant
            start <= middle <= end <= length,
            length == s@.len(),
            forall|k: int| start <= k < middle ==> !is_space(#[trigger] s@[k]),
        decreases end - middle,
    {
        middle = middle + 1;
    }
    let mut next: usize = middle;
    while next < end && is_whitespace(s.get_char(next))
        invariant
            middle <= next <= end <= length,
            length == s@.len(),
            forall|k: int| middle <= k < next ==> is_space(#[trigger] s@[k]),
        decreases end - next,
    {
        next = next + 1;
    }
    proof {
        let line = s@;
        lemma_leading_spaces(line, start as int);
        let rest = trim_start(line);
        assert(rest == line.skip(start as int));
        assert forall|k: int| rest.len() - (length - end) <= k < rest.len() implies is_space(
            #[trigger] rest[k],
        ) by {
            assert(rest[k] == line[k + start]);
        }
        if length - end < rest.len() {
            assert(rest[rest.len() - (length - end) - 1] == line[end - 1]);
        }
        lemma_trailing_spaces(rest, length - end);
        let inner = trim(line);
        assert(inner =~= line.subrange(start as int, end as int));
        assert forall|k: int| 0 <= k < middle - start implies !is_space(#[trigger] inner[k]) by {
            assert(inner[k] == line[k + start]);
        }
        if middle < end {
            assert(inner[middle - start] == line[middle as int]);
        }
        lemma_leading_word(inner, middle - start);
        assert(first_word(line) =~= line.subrange(start as int, middle as int));
        let tail = inner.skip(middle - start);
        assert forall|k: int| 0 <= k < next - middle implies is_space(#[trigger] tail[k]) by {
            assert(tail[k] == line[k + middle]);
        }
        if next < end {
            assert(tail[next - middle] == line[next as int]);
        }
        lemma_leading_spaces(tail, next - middle);
        assert(after_first_word(line) =~= line.subrange(next as int, end as int));
    }
    (s.substring_char(start, middle), s.substring_char(next, end))
}

} // verus!
