//! Text as sequences of characters: what parsing and formatting work on.

use vstd::prelude::*;
use vstd::slice::slice_subrange;
use vstd::string::StringExecFns;

verus! {

/// Whether `char::is_whitespace` holds of a character: whether it has the
/// Unicode property `White_Space`.
pub uninterp spec fn whitespace(c: char) -> bool;

/// What `str::to_lowercase` makes of a text.
pub uninterp spec fn lowercased(text: Seq<char>) -> Seq<char>;

/// `char::is_whitespace`.
#[verifier::external_body]
fn is_space(c: char) -> (space: bool)
    ensures
        space == whitespace(c),
{
    c.is_whitespace()
}

/// `str::to_lowercase`: the lowercase equivalent of a text, as a new string.
#[verifier::external_body]
pub(crate) fn lowercase(text: &str) -> (lower: String)
    ensures
        lower@ == lowercased(text@),
{
    text.to_lowercase()
}

/// `String::from_iter` on the characters of a slice: the string that
/// consists of these characters in their order.
#[verifier::external_body]
pub(crate) fn text_of(chars: &[char]) -> (text: String)
    ensures
        text@ == chars@,
{
    String::from_iter(chars.iter())
}

/// The characters of a string.
pub fn chars_of(text: &str) -> (chars: Vec<char>)
    ensures
        chars@ == text@,
{
    let mut chars: Vec<char> = Vec::new();
    for c in it: text.chars()
        invariant
            chars@ == it.seq().take(it.index()),
            it.seq() == text@,
    {
        proof {
            assert(it.seq().take(it.index() + 1) =~= it.seq().take(it.index()).push(c));
        }
        chars.push(c);
    }
    assert(chars@ =~= text@);
    chars
}

/// The number of whitespace characters at the start of a text.
pub open spec fn leading(text: Seq<char>) -> nat
    decreases text.len(),
{
    if text.len() > 0 && whitespace(text[0]) {
        1 + leading(text.skip(1))
    } else {
        0
    }
}

/// The number of whitespace characters at the end of a text.
pub open spec fn trailing(text: Seq<char>) -> nat
    decreases text.len(),
{
    if text.len() > 0 && whitespace(text.last()) {
        1 + trailing(text.drop_last())
    } else {
        0
    }
}

/// A text without the whitespace at its start and at its end.
pub open spec fn trimmed(text: Seq<char>) -> Seq<char> {
    let rest = text.skip(leading(text) as int);
    rest.take(rest.len() - trailing(rest))
}
/// Where a text starts and ends once the whitespace around it is left out.
pub fn trim(chars: &[char]) -> (range: (usize, usize))
    ensures
        range.0 <= range.1 <= chars@.len(),
        chars@.subrange(range.0 as int, range.1 as int) == trimmed(chars@),
{
    let len: usize = chars.len();
    let mut start: usize = 0;
    assert(chars@.skip(0) =~= chars@);
    while start < len && is_space(chars[start])
        invariant
            start <= len,
            len == chars@.len(),
            leading(chars@) == start + leading(chars@.skip(start as int)),
        decreases len - start,
    {
        proof {
            assert(chars@.skip(start as int)[0] == chars@[start as int]);
            assert(chars@.skip(start as int).skip(1) =~= chars@.skip(start + 1));
        }
        start += 1;
    }
    let ghost rest = chars@.skip(start as int);
    proof {
        if start < len {
            assert(rest[0] == chars@[start as int]);
        }
        assert(leading(chars@) == start);
        assert(rest.take(rest.len() as int) =~= rest);
    }
    let mut end: usize = len;
    while end > start && is_space(chars[end - 1])
        invariant
            start <= end <= len,
            len == chars@.len(),
            rest == chars@.skip(start as int),
            trailing(rest) == (len - end) + trailing(rest.take(end - start)),
        decreases end - start,
    {
        proof {
            assert(rest.take(end - start).last() == chars@[end - 1]);
            assert(rest.take(end - start).drop_last() =~= rest.take(end - start - 1));
        }
        end -= 1;
    }
    proof {
        if end > start {
            assert(rest.take(end - start).last() == chars@[end - 1]);
        }
        assert(trailing(rest) == len - end);
        assert(chars@.subrange(start as int, end as int) =~= rest.take(rest.len() - trailing(rest)));
    }
    (start, end)
}

/// Whether `needle` stands in `hay` at place `at`.
pub open spec fn occurs_at(hay: Seq<char>, needle: Seq<char>, at: int) -> bool {
    &&& 0 <= at
    &&& at + needle.len() <= hay.len()
    &&& hay.subrange(at, at + needle.len()) == needle
}

/// The first place from `from` on at which `needle` stands in `hay`.
pub open spec fn find_from(hay: Seq<char>, needle: Seq<char>, from: int) -> Option<int>
    decreases hay.len() + 1 - from,
{
    if from < 0 || from + needle.len() > hay.len() {
        None
    } else if occurs_at(hay, needle, from) {
        Some(from)
    } else {
        find_from(hay, needle, from + 1)
    }
}

/// The first place at which `needle` stands in `hay`.
pub open spec fn find(hay: Seq<char>, needle: Seq<char>) -> Option<int> {
    find_from(hay, needle, 0)
}

/// What `find_from` finds is the first occurrence from `from` on.
pub proof fn lemma_find_from(hay: Seq<char>, needle: Seq<char>, from: int)
    requires
        0 <= from,
    ensures
        match find_from(hay, needle, from) {
            Some(at) => {
                &&& from <= at
                &&& occurs_at(hay, needle, at)
                &&& forall|j: int| from <= j < at ==> !occurs_at(hay, needle, j)
            },
            None => forall|j: int| from <= j ==> !occurs_at(hay, needle, j),
        },
    decreases hay.len() + 1 - from,
{
    if from + needle.len() <= hay.len() && !occurs_at(hay, needle, from) {
        lemma_find_from(hay, needle, from + 1);
    }
}

/// Whether `needle` stands in `hay` at `at`.
fn matches_at(hay: &[char], needle: &[char], at: usize) -> (yes: bool)
    requires
        at + needle@.len() <= hay@.len(),
    ensures
        yes == occurs_at(hay@, needle@, at as int),
{
    let n: usize = needle.len();
    let hay_len: usize = hay.len();
    let mut i: usize = 0;
    while i < n
        invariant
            i <= n,
            n == needle@.len(),
            hay_len == hay@.len(),
            at + n <= hay@.len(),
            hay@.subrange(at as int, at + i) == needle@.take(i as int),
        decreases n - i,
    {
        if hay[at + i] != needle[i] {
            proof {
                assert(hay@.subrange(at as int, at + n)[i as int] == hay@[at + i]);
            }
            return false;
        }
        proof {
            assert(hay@.subrange(at as int, at + i + 1) =~= hay@.subrange(at as int, at + i).push(
                hay@[at + i],
            ));
            assert(needle@.take(i + 1) =~= needle@.take(i as int).push(needle@[i as int]));
        }
        i += 1;
    }
    assert(needle@.take(n as int) =~= needle@);
    true
}

/// The first place from `from` on at which `needle` stands in `hay`.
pub fn search_from(hay: &[char], needle: &[char], from: usize) -> (found: Option<usize>)
    ensures
        match found {
            Some(at) => {
                &&& find_from(hay@, needle@, from as int) == Some(at as int)
                &&& from <= at
                &&& at + needle@.len() <= hay@.len()
                &&& occurs_at(hay@, needle@, at as int)
                &&& forall|j: int| from <= j < at ==> !occurs_at(hay@, needle@, j)
            },
            None => {
                &&& find_from(hay@, needle@, from as int).is_none()
                &&& forall|j: int| from <= j ==> !occurs_at(hay@, needle@, j)
            },
        },
{
    let hay_len: usize = hay.len();
    let n: usize = needle.len();
    proof {
        lemma_find_from(hay@, needle@, from as int);
    }
    if n > hay_len || from > hay_len - n {
        return None;
    }
    let last: usize = hay_len - n;
    let mut at: usize = from;
    loop
        invariant
            n <= hay_len,
            last == hay_len - n,
            from <= at <= last,
            hay_len == hay@.len(),
            n == needle@.len(),
            find_from(hay@, needle@, from as int) == find_from(hay@, needle@, at as int),
        decreases last - at,
    {
        if matches_at(hay, needle, at) {
            proof {
                lemma_find_from(hay@, needle@, from as int);
            }
            return Some(at);
        }
        if at == last {
            proof {
                lemma_find_from(hay@, needle@, from as int);
            }
            return None;
        }
        at += 1;
    }
}

/// Whether `text` begins with `prefix`.
pub open spec fn starts_with(text: Seq<char>, prefix: Seq<char>) -> bool {
    occurs_at(text, prefix, 0)
}

/// Whether `text` begins with `prefix`.
pub fn has_prefix(text: &[char], prefix: &[char]) -> (yes: bool)
    ensures
        yes == starts_with(text@, prefix@),
{
    if prefix.len() > text.len() {
        false
    } else {
        matches_at(text, prefix, 0)
    }
}

/// Whether two texts are the same.
pub fn same_text(a: &[char], b: &[char]) -> (same: bool)
    ensures
        same == (a@ == b@),
{
    if a.len() != b.len() {
        return false;
    }
    let same = matches_at(a, b, 0);
    proof {
        assert(a@.subrange(0, b@.len() as int) =~= a@);
    }
    same
}

/// The place of the first `separator` in a text.
pub open spec fn first_of(text: Seq<char>, separator: char) -> Option<int>
    decreases text.len(),
{
    if text.len() == 0 {
        None
    } else if text[0] == separator {
        Some(0)
    } else {
        match first_of(text.skip(1), separator) {
            Some(at) => Some(at + 1),
            None => None,
        }
    }
}

/// The pieces of a text between its separators. A text without a
/// separator is one piece, be it empty.
pub open spec fn split(text: Seq<char>, separator: char) -> Seq<Seq<char>>
    decreases text.len(),
{
    match first_of(text, separator) {
        None => seq![text],
        Some(at) => if 0 <= at < text.len() {
            seq![text.take(at)] + split(text.skip(at + 1), separator)
        } else {
            seq![text]
        },
    }
}
/// What `first_of` finds is the place of the first separator.

pub proof fn lemma_first_of(text: Seq<char>, separator: char)
    ensures
        match first_of(text, separator) {
            Some(at) => {
                &&& 0 <= at < text.len()
                &&& text[at] == separator
                &&& forall|j: int| 0 <= j < at ==> text[j] != separator
            },
            None => forall|j: int| 0 <= j < text.len() ==> text[j] != separator,
        },
    decreases text.len(),
{
    if text.len() > 0 && text[0] != separator {
        lemma_first_of(text.skip(1), separator);
        match first_of(text.skip(1), separator) {
            Some(at) => {
                assert forall|j: int| 0 <= j < at + 1 implies text[j] != separator by {
                    if j > 0 {
                        assert(text.skip(1)[j - 1] == text[j]);
                    }
                }
            },
            None => {
                assert forall|j: int| 0 <= j < text.len() implies text[j] != separator by {
                    if j > 0 {
                        assert(text.skip(1)[j - 1] == text[j]);
                    }
                }
            },
        }
    }
}

/// A text whose first separator is known splits at it.
pub proof fn lemma_first_of_is(text: Seq<char>, separator: char, at: int)
    requires
        0 <= at <= text.len(),
        forall|j: int| 0 <= j < at ==> text[j] != separator,
        at < text.len() ==> text[at] == separator,
    ensures
        first_of(text, separator) == if at < text.len() {
            Some(at)
        } else {
            None::<int>
        },
{
    lemma_first_of(text, separator);
}

/// The places of the pieces of a text between its separators.
pub fn split_ranges(chars: &[char], separator: char) -> (ranges: Vec<(usize, usize)>)
    ensures
        ranges@.len() == split(chars@, separator).len(),
        forall|i: int|
            0 <= i < ranges@.len() ==> {
                &&& (#[trigger] ranges@[i]).0 <= ranges@[i].1 <= chars@.len()
                &&& chars@.subrange(ranges@[i].0 as int, ranges@[i].1 as int) == split(
                    chars@,
                    separator,
                )[i]
            },
{
    let len: usize = chars.len();
    let mut ranges: Vec<(usize, usize)> = Vec::new();
    let mut start: usize = 0;
    let mut at: usize = 0;
    let ghost mut done: Seq<Seq<char>> = Seq::empty();
    assert(chars@.skip(0) =~= chars@);
    while at < len
        invariant
            start <= at <= len,
            len == chars@.len(),
            forall|j: int| start <= j < at ==> chars@[j] != separator,
            split(chars@, separator) == done + split(chars@.skip(start as int), separator),
            ranges@.len() == done.len(),
            forall|i: int|
                0 <= i < ranges@.len() ==> {
                    &&& (#[trigger] ranges@[i]).0 <= ranges@[i].1 <= chars@.len()
                    &&& chars@.subrange(ranges@[i].0 as int, ranges@[i].1 as int) == done[i]
                },
        decreases len - at,
    {
        if chars[at] == separator {
            proof {
                let rest = chars@.skip(start as int);
                assert forall|j: int| 0 <= j < at - start implies rest[j] != separator by {
                    assert(rest[j] == chars@[start + j]);
                }
                assert(rest[at - start] == chars@[at as int]);
                lemma_first_of_is(rest, separator, at - start);
                assert(rest.take(at - start) =~= chars@.subrange(start as int, at as int));
                assert(rest.skip(at - start + 1) =~= chars@.skip(at + 1));
                assert(done + (seq![rest.take(at - start)] + split(
                    chars@.skip(at + 1),
                    separator,
                )) =~= done.push(rest.take(at - start)) + split(chars@.skip(at + 1), separator));
                done = done.push(rest.take(at - start));
            }
            ranges.push((start, at));
            start = at + 1;
        }
        at += 1;
    }
    proof {
        let rest = chars@.skip(start as int);
        assert forall|j: int| 0 <= j < rest.len() implies rest[j] != separator by {
            assert(rest[j] == chars@[start + j]);
        }
        lemma_first_of_is(rest, separator, rest.len() as int);
        assert(rest =~= chars@.subrange(start as int, len as int));
        assert(done + seq![rest] =~= done.push(rest));
    }
    ranges.push((start, len));
    ranges
}

/// The piece of a text between two places, as a string.
pub fn piece(chars: &[char], start: usize, end: usize) -> (text: String)
    requires
        start <= end <= chars@.len(),
    ensures
        text@ == chars@.subrange(start as int, end as int),
{
    text_of(slice_subrange(chars, start, end))
}

/// The character of one decimal digit.
pub open spec fn digit(d: int) -> char {
    if d == 0 {
        '0'
    } else if d == 1 {
        '1'
    } else if d == 2 {
        '2'
    } else if d == 3 {
        '3'
    } else if d == 4 {
        '4'
    } else if d == 5 {
        '5'
    } else if d == 6 {
        '6'
    } else if d == 7 {
        '7'
    } else if d == 8 {
        '8'
    } else {
        '9'
    }
}

/// A number in decimal, without leading zeros.
pub open spec fn decimal(n: nat) -> Seq<char>
    decreases n,
{
    if n < 10 {
        seq![digit(n as int)]
    } else {
        decimal(n / 10).push(digit((n % 10) as int))
    }
}
/// A number in decimal has a digit, and no colon.

pub proof fn lemma_decimal_digits(n: nat)
    ensures
        decimal(n).len() >= 1,
        forall|i: int| 0 <= i < decimal(n).len() ==> #[trigger] decimal(n)[i] != ':',
    decreases n,
{
    if n >= 10 {
        lemma_decimal_digits(n / 10);
    }
}

/// Two numbers with the same decimal form are the same number.
pub proof fn lemma_decimal_injective(a: nat, b: nat)
    requires
        decimal(a) == decimal(b),
    ensures
        a == b,
    decreases a,
{
    lemma_decimal_digits(a / 10);
    lemma_decimal_digits(b / 10);
    if a < 10 && b < 10 {
        assert(decimal(a)[0] == digit(a as int));
        assert(decimal(b)[0] == digit(b as int));
    } else if a >= 10 && b >= 10 {
        assert(decimal(a).last() == digit((a % 10) as int));
        assert(decimal(b).last() == digit((b % 10) as int));
        assert(decimal(a).drop_last() =~= decimal(a / 10));
        assert(decimal(b).drop_last() =~= decimal(b / 10));
        lemma_decimal_injective(a / 10, b / 10);
    } else {
        assert(decimal(a).len() == 1 || decimal(a).len() == decimal(a / 10).len() + 1);
        assert(decimal(b).len() == 1 || decimal(b).len() == decimal(b / 10).len() + 1);
    }
}

/// The text of one decimal digit.
fn digit_text(d: u64) -> (text: &'static str)
    requires
        d < 10,
    ensures
        text@ == seq![digit(d as int)],
{
    proof {
        reveal_strlit("0");
        reveal_strlit("1");
        reveal_strlit("2");
        reveal_strlit("3");
        reveal_strlit("4");
        reveal_strlit("5");
        reveal_strlit("6");
        reveal_strlit("7");
        reveal_strlit("8");
        reveal_strlit("9");
    }
    let text = if d == 0 {
        "0"
    } else if d == 1 {
        "1"
    } else if d == 2 {
        "2"
    } else if d == 3 {
        "3"
    } else if d == 4 {
        "4"
    } else if d == 5 {
        "5"
    } else if d == 6 {
        "6"
    } else if d == 7 {
        "7"
    } else if d == 8 {
        "8"
    } else {
        "9"
    };
    assert(text@ =~= seq![digit(d as int)]);
    text
}

/// Appends `n` in decimal.
pub fn push_decimal(out: &mut String, n: u64)
    ensures
        final(out)@ == old(out)@ + decimal(n as nat),
    decreases n,
{
    if n >= 10 {
        push_decimal(out, n / 10);
    }
    out.append(digit_text(n % 10));
    assert(out@ =~= old(out)@ + decimal(n as nat));
}


} // verus!
