//! Text as sequences of characters: white space, trimming and searching.

use vstd::prelude::*;
use vstd::string::{StrSliceExecFns, StringExecFns};

verus! {

/// The characters that Unicode marks as `White_Space`.
pub open spec fn is_whitespace(c: char) -> bool {
    let code = c as u32;
    ||| 0x09 <= code <= 0x0D
    ||| code == 0x20
    ||| code == 0x85
    ||| code == 0xA0
    ||| code == 0x1680
    ||| 0x2000 <= code <= 0x200A
    ||| code == 0x2028
    ||| code == 0x2029
    ||| code == 0x202F
    ||| code == 0x205F
    ||| code == 0x3000
}

pub fn char_is_whitespace(c: char) -> (r: bool)
    ensures
        r == is_whitespace(c),
{
    let code: u32 = c as u32;
    (0x09 <= code && code <= 0x0D) || code == 0x20 || code == 0x85 || code == 0xA0 || code
        == 0x1680 || (0x2000 <= code && code <= 0x200A) || code == 0x2028 || code == 0x2029
        || code == 0x202F || code == 0x205F || code == 0x3000
}

/// The characters of a string slice, one by one.
pub fn chars_of(text: &str) -> (chars: Vec<char>)
    ensures
        chars@ == text@,
{
    let mut chars: Vec<char> = Vec::new();
    for c in it: text.chars()
        invariant
            it.seq() == text@,
            chars@ == text@.take(it.index() as int),
    {
        chars.push(c);
    }
    chars
}

/// How many characters stand at the front of `s` before the first that
/// fails `p`.
pub open spec fn leading_count(s: Seq<char>, p: spec_fn(char) -> bool) -> nat
    decreases s.len(),
{
    if s.len() > 0 && p(s.first()) {
        1 + leading_count(s.drop_first(), p)
    } else {
        0
    }
}

/// How many characters stand at the end of `s` behind the last that fails
/// `p`.
pub open spec fn trailing_count(s: Seq<char>, p: spec_fn(char) -> bool) -> nat
    decreases s.len(),
{
    if s.len() > 0 && p(s.last()) {
        1 + trailing_count(s.drop_last(), p)
    } else {
        0
    }
}

/// `leading_count` is the one position in front of which every character
/// meets `p` and at which the first character stands that does not.
pub proof fn lemma_leading_count(s: Seq<char>, p: spec_fn(char) -> bool, k: int)
    requires
        0 <= k <= s.len(),
        forall|j: int| 0 <= j < k ==> p(#[trigger] s[j]),
        k < s.len() ==> !p(s[k]),
    ensures
        leading_count(s, p) == k,
    decreases k,
{
    if k > 0 {
        assert(p(s[0]));
        let rest = s.drop_first();
        assert forall|j: int| 0 <= j < k - 1 implies p(#[trigger] rest[j]) by {
            assert(rest[j] == s[j + 1]);
        }
        lemma_leading_count(rest, p, k - 1);
    }
}

/// `trailing_count` counts the characters from the one position on behind
/// which every character meets `p` and in front of which one stands that
/// does not.
pub proof fn lemma_trailing_count(s: Seq<char>, p: spec_fn(char) -> bool, k: int)
    requires
        0 <= k <= s.len(),
        forall|j: int| k <= j < s.len() ==> p(#[trigger] s[j]),
        k > 0 ==> !p(s[k - 1]),
    ensures
        trailing_count(s, p) == s.len() - k,
    decreases s.len() - k,
{
    if k < s.len() {
        assert(p(s[s.len() - 1]));
        let rest = s.drop_last();
        assert forall|j: int| k <= j < rest.len() implies p(#[trigger] rest[j]) by {
            assert(rest[j] == s[j]);
        }
        lemma_trailing_count(rest, p, k);
    }
}

/// The test that a character is another one than `c`.
pub open spec fn other_than(c: char) -> spec_fn(char) -> bool {
    |x: char| x != c
}

/// The test that a character is white space.
pub open spec fn blank() -> spec_fn(char) -> bool {
    |x: char| is_whitespace(x)
}

/// Where `c` first occurs in `s`; the length of `s` where it does not occur.
pub open spec fn first_index_of(s: Seq<char>, c: char) -> nat {
    leading_count(s, other_than(c))
}

/// `s` without the white space at its front.
pub open spec fn trimmed_start(s: Seq<char>) -> Seq<char> {
    s.skip(leading_count(s, blank()) as int)
}

/// `s` without the white space at its end.
pub open spec fn trimmed_end(s: Seq<char>) -> Seq<char> {
    s.take(s.len() - trailing_count(s, blank()))
}

/// `s` without the white space at its front and at its end.
pub open spec fn trimmed(s: Seq<char>) -> Seq<char> {
    trimmed_end(trimmed_start(s))
}

/// Where `c` first occurs among the characters from `from` up to `to`,
/// counted from `from`; `to - from` where it does not occur there.
pub fn find_char(chars: &Vec<char>, from: usize, to: usize, c: char) -> (at: usize)
    requires
        from <= to <= chars.len(),
    ensures
        at == from + first_index_of(chars@.subrange(from as int, to as int), c),
        from <= at <= to,
{
    let ghost window = chars@.subrange(from as int, to as int);
    let mut at: usize = from;
    while at < to && chars[at] != c
        invariant
            from <= at <= to <= chars.len(),
            window == chars@.subrange(from as int, to as int),
            forall|j: int| 0 <= j < at - from ==> #[trigger] window[j] != c,
        decreases to - at,
    {
        at += 1;
    }
    proof {
        let differs = other_than(c);
        assert forall|j: int| 0 <= j < at - from implies differs(#[trigger] window[j]) by {}
        if at < to {
            assert(window[at - from] == chars@[at as int]);
        }
        lemma_leading_count(window, differs, at - from);
    }
    at
}

/// The bounds of the characters from `from` up to `to` without the white
/// space at either end.
pub fn trim_bounds(chars: &Vec<char>, from: usize, to: usize) -> (bounds: (usize, usize))
    requires
        from <= to <= chars.len(),
    ensures
        from <= bounds.0 <= bounds.1 <= to,
        chars@.subrange(bounds.0 as int, bounds.1 as int) == trimmed(
            chars@.subrange(from as int, to as int),
        ),
{
    let ghost window = chars@.subrange(from as int, to as int);
    let ghost blank = blank();
    let mut start: usize = from;
    while start < to && char_is_whitespace(chars[start])
        invariant
            from <= start <= to <= chars.len(),
            window == chars@.subrange(from as int, to as int),
            forall|j: int| 0 <= j < start - from ==> is_whitespace(#[trigger] window[j]),
        decreases to - start,
    {
        start += 1;
    }
    let mut end: usize = to;
    while end > start && char_is_whitespace(chars[end - 1])
        invariant
            start <= end <= to <= chars.len(),
            forall|j: int| end <= j < to ==> is_whitespace(#[trigger] chars@[j]),
        decreases end,
    {
        end -= 1;
    }
    proof {
        assert forall|j: int| 0 <= j < start - from implies blank(#[trigger] window[j]) by {}
        if start < to {
            assert(window[start - from] == chars@[start as int]);
        }
        lemma_leading_count(window, blank, start - from);
        let rest = trimmed_start(window);
        assert(rest =~= chars@.subrange(start as int, to as int));
        assert forall|j: int| end - start <= j < rest.len() implies blank(#[trigger] rest[j]) by {
            assert(rest[j] == chars@[start + j]);
        }
        if end > start {
            assert(rest[end - start - 1] == chars@[end - 1]);
        }
        lemma_trailing_count(rest, blank, end - start);
        assert(trimmed_end(rest) =~= chars@.subrange(start as int, end as int));
    }
    (start, end)
}

/// The words of `words`, with one space between each two.
pub open spec fn joined(words: Seq<Seq<char>>) -> Seq<char>
    decreases words.len(),
{
    if words.len() == 0 {
        Seq::empty()
    } else if words.len() == 1 {
        words[0]
    } else {
        joined(words.drop_last()) + seq![' '] + words.last()
    }
}

/// Joins words with single spaces.
pub fn join_words(words: &Vec<String>) -> (text: String)
    ensures
        text@ == joined(words.deep_view()),
{
    let ghost all = words.deep_view();
    let mut text = String::new();
    let mut at: usize = 0;
    while at < words.len()
        invariant
            at <= words.len(),
            all == words.deep_view(),
            text@ == joined(all.take(at as int)),
        decreases words.len() - at,
    {
        proof {
            reveal_strlit(" ");
            assert(all.take(at + 1).drop_last() == all.take(at as int));
            assert(all.take(at + 1).last() == words@[at as int]@);
            assert(" "@ =~= seq![' ']);
            if at == 1 {
                assert(all.take(1)[0] == all[0]);
            }
        }
        if at > 0 {
            text.append(" ");
        }
        text.append(words[at].as_str());
        proof {
            if at == 0 {
                assert(Seq::<char>::empty() + words@[0]@ =~= words@[0]@);
                assert(all.take(1)[0] == words@[0]@);
            }
        }
        at += 1;
    }
    proof {
        assert(all.take(words.len() as int) == all);
    }
    text
}

} // verus!
