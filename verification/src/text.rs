//! Characters and character sequences: conversion between strings and
//! vectors of characters, whitespace, trimming, splitting and lines.
use vstd::prelude::*;
use vstd::string::StringExecFns;
use vstd::utf8::{decode_utf8, valid_utf8};

verus! {

/// `String::push` appends a character to the end of a string.
pub assume_specification[ String::push ](s: &mut String, c: char)
    ensures
        final(s)@ == old(s)@.push(c),
;

/// The characters of a string, one vector entry each.
pub fn chars_of(text: &str) -> (r: Vec<char>)
    ensures
        r@ == text@,
{
    let mut chars: Vec<char> = Vec::new();
    for c in it: text.chars()
        invariant
            chars@ == it.seq().take(it.index() as int),
            it.seq() == text@,
    {
        chars.push(c);
    }
    chars
}

/// The string made of the characters `chars[from..to]`.
pub fn string_of_range(chars: &Vec<char>, from: usize, to: usize) -> (r: String)
    requires
        from <= to <= chars@.len(),
    ensures
        r@ == chars@.subrange(from as int, to as int),
{
    let mut text = String::new();
    let mut i: usize = from;
    while i < to
        invariant
            from <= i <= to <= chars@.len(),
            text@ == chars@.subrange(from as int, i as int),
        decreases to - i,
    {
        text.push(chars[i]);
        i += 1;
        assert(text@ =~= chars@.subrange(from as int, i as int));
    }
    text
}

/// The string made of the given characters.
pub fn string_of(chars: &Vec<char>) -> (r: String)
    ensures
        r@ == chars@,
{
    let text = string_of_range(chars, 0, chars.len());
    assert(chars@.subrange(0, chars@.len() as int) =~= chars@);
    text
}

/// The views of a sequence of strings.
pub open spec fn views_of(strings: Seq<String>) -> Seq<Seq<char>> {
    strings.map_values(|s: String| s@)
}

/// The characters with the Unicode property `White_Space`.
pub open spec fn is_whitespace_char(c: char) -> bool {
    let u = c as u32;
    ||| 0x09 <= u <= 0x0D
    ||| u == 0x20
    ||| u == 0x85
    ||| u == 0xA0
    ||| u == 0x1680
    ||| 0x2000 <= u <= 0x200A
    ||| u == 0x2028
    ||| u == 0x2029
    ||| u == 0x202F
    ||| u == 0x205F
    ||| u == 0x3000
}

/// Whether a character is whitespace.
pub fn is_whitespace(c: char) -> (r: bool)
    ensures
        r == is_whitespace_char(c),
{
    let u: u32 = c as u32;
    (0x09 <= u && u <= 0x0D) || u == 0x20 || u == 0x85 || u == 0xA0 || u == 0x1680 || (0x2000
        <= u && u <= 0x200A) || u == 0x2028 || u == 0x2029 || u == 0x202F || u == 0x205F || u
        == 0x3000
}

/// Number of characters that remain when trailing whitespace is dropped.
pub open spec fn trimmed_end(s: Seq<char>) -> nat
    decreases s.len(),
{
    if s.len() > 0 && is_whitespace_char(s.last()) {
        trimmed_end(s.drop_last())
    } else {
        s.len()
    }
}

/// Number of leading whitespace characters.
pub open spec fn trimmed_start(s: Seq<char>) -> nat
    decreases s.len(),
{
    if s.len() > 0 && is_whitespace_char(s[0]) {
        1 + trimmed_start(s.drop_first())
    } else {
        0
    }
}

/// The sequence without trailing whitespace.
pub open spec fn trim_end(s: Seq<char>) -> Seq<char> {
    s.take(trimmed_end(s) as int)
}

/// The sequence without leading and trailing whitespace.
pub open spec fn trim(s: Seq<char>) -> Seq<char> {
    let t = trim_end(s);
    t.skip(trimmed_start(t) as int)
}

/// Whether every character is whitespace; true of the empty sequence.
pub open spec fn is_blank(s: Seq<char>) -> bool {
    forall|i: int| 0 <= i < s.len() ==> is_whitespace_char(#[trigger] s[i])
}

/// The length of `chars[from..to]` once trailing whitespace is dropped.
pub fn trimmed_end_len(chars: &Vec<char>, from: usize, to: usize) -> (r: usize)
    requires
        from <= to <= chars@.len(),
    ensures
        r == trimmed_end(chars@.subrange(from as int, to as int)),
        r <= to - from,
{
    let ghost whole = chars@.subrange(from as int, to as int);
    let mut end: usize = to;
    while end > from && is_whitespace(chars[end - 1])
        invariant
            from <= end <= to <= chars@.len(),
            whole == chars@.subrange(from as int, to as int),
            trimmed_end(whole) == trimmed_end(chars@.subrange(from as int, end as int)),
        decreases end,
    {
        let ghost cur = chars@.subrange(from as int, end as int);
        assert(cur.last() == chars@[end - 1]);
        assert(cur.drop_last() =~= chars@.subrange(from as int, end - 1));
        end -= 1;
    }
    proof {
        let cur = chars@.subrange(from as int, end as int);
        if end > from {
            assert(cur.last() == chars@[end - 1]);
        }
    }
    end - from
}

/// Number of leading whitespace characters of `chars[from..to]`.
pub fn trimmed_start_len(chars: &Vec<char>, from: usize, to: usize) -> (r: usize)
    requires
        from <= to <= chars@.len(),
    ensures
        r == trimmed_start(chars@.subrange(from as int, to as int)),
        r <= to - from,
{
    let ghost whole = chars@.subrange(from as int, to as int);
    let mut start: usize = from;
    while start < to && is_whitespace(chars[start])
        invariant
            from <= start <= to <= chars@.len(),
            whole == chars@.subrange(from as int, to as int),
            trimmed_start(whole) == (start - from) + trimmed_start(
                chars@.subrange(start as int, to as int),
            ),
        decreases to - start,
    {
        let ghost cur = chars@.subrange(start as int, to as int);
        assert(cur[0] == chars@[start as int]);
        assert(cur.drop_first() =~= chars@.subrange(start + 1, to as int));
        start += 1;
    }
    proof {
        let cur = chars@.subrange(start as int, to as int);
        if start < to {
            assert(cur[0] == chars@[start as int]);
        }
    }
    start - from
}

/// Whether a text holds nothing but whitespace.
pub fn is_blank_text(chars: &Vec<char>) -> (r: bool)
    ensures
        r == is_blank(chars@),
{
    let mut i: usize = 0;
    while i < chars.len()
        invariant
            i <= chars@.len(),
            forall|j: int| 0 <= j < i ==> is_whitespace_char(#[trigger] chars@[j]),
        decreases chars@.len() - i,
    {
        if !is_whitespace(chars[i]) {
            return false;
        }
        i += 1;
    }
    true
}

/// The pieces between the occurrences of a separator. There is always at
/// least one piece; a separator at either end yields an empty piece there.
pub open spec fn split_on(s: Seq<char>, separator: char) -> Seq<Seq<char>>
    decreases s.len(),
{
    if s.len() == 0 {
        seq![Seq::<char>::empty()]
    } else {
        let before = split_on(s.drop_last(), separator);
        if s.last() == separator {
            before.push(Seq::<char>::empty())
        } else {
            before.update(before.len() - 1, before.last().push(s.last()))
        }
    }
}

/// The lines of a text: its pieces between line feeds, without the empty
/// piece that follows a final line feed. An empty text has no lines.
pub open spec fn lines_of(s: Seq<char>) -> Seq<Seq<char>> {
    let pieces = split_on(s, '\n');
    if pieces.last().len() == 0 {
        pieces.drop_last()
    } else {
        pieces
    }
}

/// The deep view of a vector of character vectors.
pub open spec fn pieces_view(pieces: Seq<Vec<char>>) -> Seq<Seq<char>> {
    pieces.map_values(|p: Vec<char>| p@)
}

/// Splits `chars[from..to]` at every occurrence of the separator.
pub fn split_chars(
    chars: &Vec<char>,
    from: usize,
    to: usize,
    separator: char,
) -> (r: Vec< Vec<char>, >)
    requires
        from <= to <= chars@.len(),
    ensures
        pieces_view(r@) == split_on(chars@.subrange(from as int, to as int), separator),
        r@.len() >= 1,
{
    let mut pieces: Vec<Vec<char>> = Vec::new();
    let mut current: Vec<char> = Vec::new();
    let mut i: usize = from;
    assert(chars@.subrange(from as int, from as int) =~= Seq::<char>::empty());
    assert(pieces_view(pieces@).push(current@) =~= seq![Seq::<char>::empty()]);
    while i < to
        invariant
            from <= i <= to <= chars@.len(),
            pieces_view(pieces@).push(current@) == split_on(
                chars@.subrange(from as int, i as int),
                separator,
            ),
        decreases to - i,
    {
        let ghost done = chars@.subrange(from as int, i as int);
        let ghost next = chars@.subrange(from as int, i + 1);
        let ghost before = pieces_view(pieces@).push(current@);
        assert(next.drop_last() =~= done);
        assert(next.last() == chars@[i as int]);
        if chars[i] == separator {
            pieces.push(current);
            current = Vec::new();
            assert(pieces_view(pieces@) =~= before);
            assert(pieces_view(pieces@).push(current@) =~= before.push(Seq::<char>::empty()));
        } else {
            current.push(chars[i]);
            assert(pieces_view(pieces@).push(current@) =~= before.update(
                before.len() - 1,
                before.last().push(chars@[i as int]),
            ));
        }
        i += 1;
    }
    let ghost all = pieces_view(pieces@).push(current@);
    pieces.push(current);
    assert(pieces_view(pieces@) =~= all);
    pieces
}

/// Whether `prefix` stands at the start of `s`.
pub open spec fn is_prefix_of(prefix: Seq<char>, s: Seq<char>) -> bool {
    prefix.len() <= s.len() && s.take(prefix.len() as int) == prefix
}

/// Whether `pattern` stands in `chars` at index `at`.
pub fn matches_at(chars: &Vec<char>, at: usize, pattern: &Vec<char>) -> (r: bool)
    requires
        at <= chars@.len(),
    ensures
        r == is_prefix_of(pattern@, chars@.skip(at as int)),
{
    if pattern.len() > chars.len() - at {
        return false;
    }
    let mut i: usize = 0;
    while i < pattern.len()
        invariant
            i <= pattern@.len(),
            at + pattern@.len() <= chars@.len() <= usize::MAX,
            forall|j: int| 0 <= j < i ==> chars@[at + j] == pattern@[j],
        decreases pattern@.len() - i,
    {
        if chars[at + i] != pattern[i] {
            assert(chars@.skip(at as int).take(pattern@.len() as int)[i as int] != pattern@[
                i as int
            ]);
            return false;
        }
        i += 1;
    }
    assert(chars@.skip(at as int).take(pattern@.len() as int) =~= pattern@);
    true
}

/// The character of a decimal digit.
pub open spec fn digit_char(digit: nat) -> char
    recommends
        digit < 10,
{
    ((48 + digit) as u8) as char
}

/// The decimal digits of a number, without leading zeros.
pub open spec fn decimal_digits(n: nat) -> Seq<char>
    decreases n,
{
    if n < 10 {
        seq![digit_char(n)]
    } else {
        decimal_digits(n / 10).push(digit_char(n % 10))
    }
}

/// Appends the decimal digits of a number to a text.
pub fn push_decimal(n: u64, out: &mut String)
    ensures
        final(out)@ == old(out)@ + decimal_digits(n as nat),
    decreases n,
{
    if n >= 10 {
        push_decimal(n / 10, out);
    }
    let digit: u8 = (n % 10) as u8;
    out.push((48 + digit) as char);
    assert(out@ =~= old(out)@ + decimal_digits(n as nat));
}

/// A text in which every occurrence of `from` is replaced by `to`, from
/// left to right and without overlap. An empty `from` occurs nowhere.
pub open spec fn replaced(s: Seq<char>, from: Seq<char>, to: Seq<char>) -> Seq<char>
    decreases s.len(),
{
    if s.len() == 0 {
        seq![]
    } else if from.len() > 0 && is_prefix_of(from, s) {
        to + replaced(s.skip(from.len() as int), from, to)
    } else {
        seq![s[0]] + replaced(s.skip(1), from, to)
    }
}

/// Replaces every occurrence of `from` in `chars` by `to`.
pub fn replace_all(chars: &Vec<char>, from: &str, to: &str) -> (r: Vec<char>)
    ensures
        r@ == replaced(chars@, from@, to@),
{
    let pattern = chars_of(from);
    let replacement = chars_of(to);
    let ghost all = replaced(chars@, from@, to@);
    let mut out: Vec<char> = Vec::new();
    let mut i: usize = 0;
    assert(chars@.skip(0) =~= chars@);
    assert(out@ + all =~= all);
    while i < chars.len()
        invariant
            i <= chars@.len(),
            pattern@ == from@,
            replacement@ == to@,
            all == replaced(chars@, from@, to@),
            out@ + replaced(chars@.skip(i as int), from@, to@) == all,
        decreases chars@.len() - i,
    {
        let ghost rest = chars@.skip(i as int);
        let ghost done = out@;
        if pattern.len() > 0 && matches_at(chars, i, &pattern) {
            let mut k: usize = 0;
            while k < replacement.len()
                invariant
                    k <= replacement@.len(),
                    out@ == done + replacement@.take(k as int),
                decreases replacement@.len() - k,
            {
                out.push(replacement[k]);
                k += 1;
                assert(out@ =~= done + replacement@.take(k as int));
            }
            assert(replacement@.take(k as int) =~= replacement@);
            assert(rest.skip(pattern@.len() as int) =~= chars@.skip(i + pattern@.len()));
            assert(done + (to@ + replaced(rest.skip(from@.len() as int), from@, to@)) =~= (done
                + to@) + replaced(rest.skip(from@.len() as int), from@, to@));
            i += pattern.len();
        } else {
            out.push(chars[i]);
            assert(rest.skip(1) =~= chars@.skip(i + 1));
            assert(out@ =~= done + seq![rest[0]]);
            assert(done + (seq![rest[0]] + replaced(rest.skip(1), from@, to@)) =~= (done
                + seq![rest[0]]) + replaced(rest.skip(1), from@, to@));
            i += 1;
        }
    }
    assert(chars@.skip(i as int) =~= Seq::<char>::empty());
    assert(out@ + Seq::<char>::empty() =~= out@);
    out
}

/// The given texts one after another, with a separator between each two.
pub open spec fn joined(texts: Seq<Seq<char>>, separator: Seq<char>) -> Seq<char>
    decreases texts.len(),
{
    if texts.len() == 0 {
        seq![]
    } else if texts.len() == 1 {
        texts[0]
    } else {
        joined(texts.drop_last(), separator) + separator + texts.last()
    }
}

/// Joins the given texts with a separator between each two.
pub fn join_with(texts: &Vec<String>, separator: &str) -> (r: String)
    ensures
        r@ == joined(views_of(texts@), separator@),
{
    let ghost views = views_of(texts@);
    let mut out = String::new();
    let mut i: usize = 0;
    assert(views.take(0) =~= Seq::<Seq<char>>::empty());
    while i < texts.len()
        invariant
            i <= texts@.len(),
            views == views_of(texts@),
            out@ == joined(views.take(i as int), separator@),
        decreases texts@.len() - i,
    {
        assert(views.take(i + 1).drop_last() =~= views.take(i as int));
        assert(views.take(i + 1).last() == texts@[i as int]@);
        if i > 0 {
            out.append(separator);
        }
        out.append(texts[i].as_str());
        proof {
            if i == 0 {
                assert(out@ =~= texts@[0]@);
                assert(views.take(1)[0] == texts@[0]@);
            }
        }
        i += 1;
    }
    assert(views.take(i as int) =~= views);
    out
}

/// Joining without a separator gives the texts one after another.
pub proof fn lemma_joined_flatten(texts: Seq<Seq<char>>)
    ensures
        joined(texts, Seq::<char>::empty()) == texts.flatten(),
    decreases texts.len(),
{
    if texts.len() == 0 {
    } else if texts.len() == 1 {
        texts.lemma_flatten_one_element();
    } else {
        let front = texts.drop_last();
        lemma_joined_flatten(front);
        front.lemma_flatten_push(texts.last());
        assert(front.push(texts.last()) =~= texts);
        assert(joined(texts, Seq::<char>::empty()) =~= front.flatten() + texts.last());
    }
}

/// What `String::from_utf8_lossy` makes of bytes: the text that they
/// encode, with the replacement character wherever they encode none.
pub uninterp spec fn utf8_lossy(bytes: Seq<u8>) -> Seq<char>;

/// Calls `String::from_utf8_lossy` and copies what it returns. Bytes that
/// are valid UTF-8 give the text that they encode.
#[verifier::external_body]
pub(crate) fn from_utf8_lossy(bytes: &Vec<u8>) -> (r: String)
    ensures
        r@ == utf8_lossy(bytes@),
        valid_utf8(bytes@) ==> r@ == decode_utf8(bytes@),
{
    String::from_utf8_lossy(bytes.as_slice()).into_owned()
}

} // verus!
