//! Reading a list of token ids from a text such as `[15496, 11, 995]`, as
//! it is handed to whatever consumes the ids. A text that is no such list
//! gives no ids at all.
use vstd::prelude::*;
use crate::text::{
    chars_of, pieces_view, split_chars, split_on, trim, trim_end, trimmed_end_len,
    trimmed_start_len,
};

verus! {

/// Whether a character is a square bracket.
pub open spec fn is_bracket(c: char) -> bool {
    c == '[' || c == ']'
}

/// Number of characters that remain when trailing brackets are dropped.
pub open spec fn without_closing(s: Seq<char>) -> nat
    decreases s.len(),
{
    if s.len() > 0 && is_bracket(s.last()) {
        without_closing(s.drop_last())
    } else {
        s.len()
    }
}

/// Number of leading brackets.
pub open spec fn opening(s: Seq<char>) -> nat
    decreases s.len(),
{
    if s.len() > 0 && is_bracket(s[0]) {
        1 + opening(s.drop_first())
    } else {
        0
    }
}

/// The sequence without the brackets at its start and at its end.
pub open spec fn strip_brackets(s: Seq<char>) -> Seq<char> {
    let start = opening(s);
    let rest = s.skip(start as int);
    rest.take(without_closing(rest) as int)
}

/// Whether every character is a decimal digit, and there is at least one.
pub open spec fn is_digits(s: Seq<char>) -> bool {
    s.len() > 0 && forall|i: int| 0 <= i < s.len() ==> '0' <= #[trigger] s[i] <= '9'
}

/// The number that decimal digits stand for.
pub open spec fn number_of(s: Seq<char>) -> nat
    decreases s.len(),
{
    if s.len() == 0 {
        0
    } else {
        number_of(s.drop_last()) * 10 + (s.last() as u32 - 48) as nat
    }
}

/// The 64-bit integer that a text stands for: an optional sign followed by
/// decimal digits whose number, with the sign, is in range.
pub open spec fn parsed_i64(s: Seq<char>) -> Option<i64> {
    if s.len() == 0 {
        None
    } else {
        let negative = s[0] == '-';
        let digits = if s[0] == '-' || s[0] == '+' {
            s.skip(1)
        } else {
            s
        };
        if !is_digits(digits) {
            None
        } else if negative {
            if number_of(digits) <= 0x8000_0000_0000_0000 {
                Some((-(number_of(digits) as int)) as i64)
            } else {
                None
            }
        } else {
            if number_of(digits) <= 0x7fff_ffff_ffff_ffff {
                Some(number_of(digits) as i64)
            } else {
                None
            }
        }
    }
}

/// The number of the first digits is at most the number of all of them.
pub proof fn lemma_number_grows(s: Seq<char>, n: int)
    requires
        0 <= n <= s.len(),
        is_digits(s),
    ensures
        number_of(s.take(n)) <= number_of(s),
    decreases s.len() - n,
{
    if n < s.len() {
        lemma_number_grows(s, n + 1);
        assert(s.take(n + 1).drop_last() =~= s.take(n));
        assert('0' <= s[n] <= '9');
        assert(s.take(n + 1).last() == s[n]);
    } else {
        assert(s.take(n) =~= s);
    }
}

/// Reads a 64-bit integer from `chars[from..to]`.
pub fn parse_i64(chars: &Vec<char>, from: usize, to: usize) -> (r: Option<i64>)
    requires
        from <= to <= chars@.len(),
    ensures
        r == parsed_i64(chars@.subrange(from as int, to as int)),
{
    let ghost s = chars@.subrange(from as int, to as int);
    if from == to {
        return None;
    }
    assert(s[0] == chars@[from as int]);
    let negative = chars[from] == '-';
    let start: usize = if chars[from] == '-' || chars[from] == '+' {
        from + 1
    } else {
        from
    };
    let ghost digits = chars@.subrange(start as int, to as int);
    assert(digits =~= if s[0] == '-' || s[0] == '+' {
        s.skip(1)
    } else {
        s
    });
    if start == to {
        return None;
    }
    let limit: u64 = if negative {
        0x8000_0000_0000_0000
    } else {
        0x7fff_ffff_ffff_ffff
    };
    let mut value: u64 = 0;
    let mut i: usize = start;
    assert(digits.take(0) =~= Seq::<char>::empty());
    while i < to
        invariant
            start <= i <= to <= chars@.len(),
            from <= start < to,
            s == chars@.subrange(from as int, to as int),
            digits == chars@.subrange(start as int, to as int),
            digits == (if s[0] == '-' || s[0] == '+' {
                s.skip(1)
            } else {
                s
            }),
            negative == (s[0] == '-'),
            limit == (if negative {
                0x8000_0000_0000_0000u64
            } else {
                0x7fff_ffff_ffff_ffffu64
            }),
            is_digits(digits.take(i - start)) || i == start,
            value == number_of(digits.take(i - start)),
            value <= limit,
        decreases to - i,
    {
        let c = chars[i];
        assert(digits[i - start] == c);
        if !('0' <= c && c <= '9') {
            return None;
        }
        let digit: u64 = (c as u32 - 48) as u64;
        let ghost next = digits.take(i - start + 1);
        assert(next.drop_last() =~= digits.take(i - start));
        assert(next.last() == c);
        assert(is_digits(next)) by {
            assert forall|k: int| 0 <= k < next.len() implies '0' <= #[trigger] next[k] <= '9' by {
                if k < next.len() - 1 {
                    assert(digits.take(i - start)[k] == next[k]);
                }
            }
        }
        if value > (limit - digit) / 10 {
            proof {
                assert(number_of(next) == value * 10 + digit);
                assert(number_of(next) > limit);
                if is_digits(digits) {
                    lemma_number_grows(digits, i - start + 1);
                }
            }
            return None;
        }
        value = value * 10 + digit;
        i += 1;
    }
    assert(digits.take(i - start) =~= digits);
    if negative {
        if value == 0x8000_0000_0000_0000 {
            Some(i64::MIN)
        } else {
            Some(-(value as i64))
        }
    } else {
        Some(value as i64)
    }
}

/// The integers that the pieces stand for, once trimmed, as far as every
/// piece up to `count` stands for one.
pub open spec fn parsed_pieces(pieces: Seq<Seq<char>>, count: nat) -> Option<Seq<i64>>
    decreases count,
{
    if count == 0 {
        Some(seq![])
    } else {
        match (parsed_pieces(pieces, (count - 1) as nat), parsed_i64(trim(pieces[count - 1]))) {
            (Some(before), Some(value)) => Some(before.push(value)),
            _ => None,
        }
    }
}

/// The ids that a text lists: the text is trimmed and stripped of the
/// brackets around it, what is left is split at commas, and every piece,
/// trimmed, is read as a 64-bit integer. A text in which a piece is no
/// integer lists no ids at all.
pub open spec fn listed_ids(text: Seq<char>) -> Seq<i64> {
    let pieces = split_on(strip_brackets(trim(text)), ',');
    match parsed_pieces(pieces, pieces.len()) {
        Some(ids) => ids,
        None => seq![],
    }
}

/// Number of leading brackets of `chars[from..to]`.
fn opening_len(chars: &Vec<char>, from: usize, to: usize) -> (r: usize)
    requires
        from <= to <= chars@.len(),
    ensures
        r == opening(chars@.subrange(from as int, to as int)),
        r <= to - from,
{
    let mut start: usize = from;
    while start < to && (chars[start] == '[' || chars[start] == ']')
        invariant
            from <= start <= to <= chars@.len(),
            opening(chars@.subrange(from as int, to as int)) == (start - from) + opening(
                chars@.subrange(start as int, to as int),
            ),
        decreases to - start,
    {
        let ghost cur = chars@.subrange(start as int, to as int);
        assert(cur[0] == chars@[start as int]);
        assert(cur.drop_first() =~= chars@.subrange(start + 1, to as int));
        start += 1;
    }
    proof {
        let cur = chars@.subrange(start as int, to as int);
        if start < to {
            assert(cur[0] == chars@[start as int]);
        }
    }
    start - from
}

/// The length of `chars[from..to]` once trailing brackets are dropped.
fn without_closing_len(chars: &Vec<char>, from: usize, to: usize) -> (r: usize)
    requires
        from <= to <= chars@.len(),
    ensures
        r == without_closing(chars@.subrange(from as int, to as int)),
        r <= to - from,
{
    let mut end: usize = to;
    while end > from && (chars[end - 1] == '[' || chars[end - 1] == ']')
        invariant
            from <= end <= to <= chars@.len(),
            without_closing(chars@.subrange(from as int, to as int)) == without_closing(
                chars@.subrange(from as int, end as int),
            ),
        decreases end,
    {
        let ghost cur = chars@.subrange(from as int, end as int);
        assert(cur.last() == chars@[end - 1]);
        assert(cur.drop_last() =~= chars@.subrange(from as int, end - 1));
        end -= 1;
    }
    proof {
        let cur = chars@.subrange(from as int, end as int);
        if end > from {
            assert(cur.last() == chars@[end - 1]);
        }
    }
    end - from
}

/// Reads a list of token ids from a text. The text may stand in square
/// brackets; the ids are separated by commas, and whitespace around an id
/// does not count. A text in which something else stands where an id is
/// expected, an empty text among them, gives no ids at all.
pub fn parse_token_ids(input_text: &str) -> (r: Vec<i64>)
    ensures
        r@ == listed_ids(input_text@),
{
    let chars = chars_of(input_text);
    let end = trimmed_end_len(&chars, 0, chars.len());
    assert(chars@.subrange(0, chars@.len() as int) =~= chars@);
    let start = trimmed_start_len(&chars, 0, end);
    assert(chars@.subrange(0, end as int) =~= trim_end(chars@));
    assert(chars@.subrange(start as int, end as int) =~= trim(chars@));
    let ghost trimmed = trim(chars@);
    let open = opening_len(&chars, start, end);
    let inner_start = start + open;
    assert(chars@.subrange(inner_start as int, end as int) =~= trimmed.skip(open as int));
    let kept = without_closing_len(&chars, inner_start, end);
    let inner_end = inner_start + kept;
    assert(chars@.subrange(inner_start as int, inner_end as int) =~= strip_brackets(trimmed));
    let pieces = split_chars(&chars, inner_start, inner_end, ',');
    let ghost views = pieces_view(pieces@);
    let mut ids: Vec<i64> = Vec::new();
    let mut i: usize = 0;
    while i < pieces.len()
        invariant
            i <= pieces@.len(),
            views == pieces_view(pieces@),
            views == split_on(strip_brackets(trim(input_text@)), ','),
            parsed_pieces(views, i as nat) == Some(ids@),
        decreases pieces@.len() - i,
    {
        let piece = &pieces[i];
        assert(views[i as int] == piece@);
        let piece_end = trimmed_end_len(piece, 0, piece.len());
        assert(piece@.subrange(0, piece@.len() as int) =~= piece@);
        let piece_start = trimmed_start_len(piece, 0, piece_end);
        assert(piece@.subrange(0, piece_end as int) =~= trim_end(piece@));
        assert(piece@.subrange(piece_start as int, piece_end as int) =~= trim(piece@));
        match parse_i64(piece, piece_start, piece_end) {
            Some(value) => {
                ids.push(value);
            },
            None => {
                proof {
                    lemma_parsed_pieces_fail(views, i as nat, views.len());
                }
                return Vec::new();
            },
        }
        i += 1;
    }
    ids
}

/// Pieces of which one is no integer stand for no list, however many
/// follow it.
pub proof fn lemma_parsed_pieces_fail(pieces: Seq<Seq<char>>, at: nat, count: nat)
    requires
        at < count <= pieces.len(),
        parsed_i64(trim(pieces[at as int])) is None,
    ensures
        parsed_pieces(pieces, count) is None,
    decreases count,
{
    if count > at + 1 {
        lemma_parsed_pieces_fail(pieces, at, (count - 1) as nat);
    }
}

} // verus!
