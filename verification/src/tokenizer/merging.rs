//! The merge engine: starting from one symbol per character, the adjacent
//! pair of lowest rank is merged wherever it occurs, until no adjacent pair
//! has a rank or a single symbol is left.
use vstd::prelude::*;
use vstd::slice::{slice_subrange, slice_to_vec};
use vstd::string::StringExecFns;
use vstd::utf8::{encode_scalar, encode_utf8};
use crate::text::{chars_of, views_of};
use crate::tokenizer::base_tokenizer::{
    Mask, Offset, OffsetSize, positions_bounded, Token, TokenRef, TokenView,
};
use crate::tokenizer::cache::BpeCache;
use crate::tokenizer::constants::{byte_to_char, byte_to_unicode};
use crate::vocab::bpe_vocab::{BpePairRef, BpePairVocab, PiecePair};

verus! {

/// The pairs of neighbouring symbols, from left to right.
pub open spec fn adjacent_pairs(symbols: Seq<Seq<char>>) -> Seq<PiecePair> {
    Seq::new(
        if symbols.len() > 0 {
            (symbols.len() - 1) as nat
        } else {
            0
        },
        |i: int| (symbols[i], symbols[i + 1]),
    )
}

/// The pairs of a sequence without repetitions, each where it first occurs.
pub open spec fn distinct_pairs(pairs: Seq<PiecePair>) -> Seq<PiecePair>
    decreases pairs.len(),
{
    if pairs.len() == 0 {
        seq![]
    } else {
        let before = distinct_pairs(pairs.drop_last());
        if before.contains(pairs.last()) {
            before
        } else {
            before.push(pairs.last())
        }
    }
}

/// The distinct pairs hold what the sequence holds, and nothing twice.
pub proof fn lemma_distinct_pairs(pairs: Seq<PiecePair>)
    ensures
        forall|p: PiecePair| #[trigger] distinct_pairs(pairs).contains(p) <==> pairs.contains(p),
        distinct_pairs(pairs).no_duplicates(),
        distinct_pairs(pairs).len() <= pairs.len(),
    decreases pairs.len(),
{
    if pairs.len() > 0 {
        let front = pairs.drop_last();
        let before = distinct_pairs(front);
        let all = distinct_pairs(pairs);
        lemma_distinct_pairs(front);
        assert forall|p: PiecePair| #[trigger] all.contains(p) <==> pairs.contains(p) by {
            assert(before.contains(p) <==> front.contains(p));
            if pairs.contains(p) {
                let i = choose|i: int| 0 <= i < pairs.len() && pairs[i] == p;
                if i < pairs.len() - 1 {
                    assert(front[i] == p);
                    assert(front.contains(p));
                    let k = choose|k: int| 0 <= k < before.len() && before[k] == p;
                    assert(all[k] == p);
                } else {
                    if before.contains(p) {
                        let k = choose|k: int| 0 <= k < before.len() && before[k] == p;
                        assert(all[k] == p);
                    } else {
                        assert(all[before.len() as int] == p);
                    }
                }
            }
            if all.contains(p) {
                let i = choose|i: int| 0 <= i < all.len() && all[i] == p;
                if i < before.len() {
                    assert(before[i] == p);
                    assert(before.contains(p));
                    assert(front.contains(p));
                    let j = choose|j: int| 0 <= j < front.len() && front[j] == p;
                    assert(pairs[j] == p);
                } else {
                    assert(pairs[pairs.len() - 1] == p);
                }
            }
        }
    }
}

/// The pair of lowest rank among the given ones; of several with that rank,
/// the first. Nothing where no pair has a rank.
pub open spec fn lowest_ranked(pairs: Seq<PiecePair>, ranks: Map<PiecePair, i64>) -> Option<
    PiecePair,
>
    decreases pairs.len(),
{
    if pairs.len() == 0 {
        None
    } else {
        let before = lowest_ranked(pairs.drop_last(), ranks);
        let last = pairs.last();
        if ranks.contains_key(last) && (before is None || ranks[last] < ranks[before->0]) {
            Some(last)
        } else {
            before
        }
    }
}

/// The pair of lowest rank is one of the pairs, has a rank, and no pair
/// with a rank has a lower one.
pub proof fn lemma_lowest_ranked(pairs: Seq<PiecePair>, ranks: Map<PiecePair, i64>)
    ensures
        match lowest_ranked(pairs, ranks) {
            Some(best) => {
                &&& pairs.contains(best)
                &&& ranks.contains_key(best)
                &&& forall|i: int|
                    0 <= i < pairs.len() && ranks.contains_key(#[trigger] pairs[i])
                        ==> ranks[best] <= ranks[pairs[i]]
            },
            None => forall|i: int| 0 <= i < pairs.len() ==> !ranks.contains_key(
                #[trigger] pairs[i],
            ),
        },
    decreases pairs.len(),
{
    if pairs.len() > 0 {
        let front = pairs.drop_last();
        lemma_lowest_ranked(front, ranks);
        match lowest_ranked(pairs, ranks) {
            Some(best) => {
                if best == pairs.last() {
                    assert(pairs[pairs.len() - 1] == best);
                } else {
                    let i = choose|i: int| 0 <= i < front.len() && front[i] == best;
                    assert(pairs[i] == best);
                }
                assert forall|i: int|
                    0 <= i < pairs.len() && ranks.contains_key(
                        #[trigger] pairs[i],
                    ) implies ranks[best] <= ranks[pairs[i]] by {
                    if i < front.len() {
                        assert(front[i] == pairs[i]);
                    }
                }
            },
            None => {
                assert forall|i: int| 0 <= i < pairs.len() implies !ranks.contains_key(
                    #[trigger] pairs[i],
                ) by {
                    if i < front.len() {
                        assert(front[i] == pairs[i]);
                    }
                }
            },
        }
    }
}

/// The symbols with every occurrence of the pair replaced by its
/// concatenation, from left to right and without overlap.
pub open spec fn merge_occurrences(symbols: Seq<Seq<char>>, pair: PiecePair) -> Seq<Seq<char>>
    decreases symbols.len(),
{
    if symbols.len() == 0 {
        seq![]
    } else if symbols.len() >= 2 && symbols[0] == pair.0 && symbols[1] == pair.1 {
        seq![pair.0 + pair.1] + merge_occurrences(symbols.skip(2), pair)
    } else {
        seq![symbols[0]] + merge_occurrences(symbols.skip(1), pair)
    }
}

/// One round of merging: the symbols after it, and whether merging is over.
/// It is over where there are fewer than two symbols, where no adjacent pair
/// has a rank, and where the round leaves a single symbol.
pub open spec fn merge_round(
    symbols: Seq<Seq<char>>,
    ranks: Map<PiecePair, i64>,
) -> (Seq< Seq<char>, >, bool) {
    if symbols.len() <= 1 {
        (symbols, true)
    } else {
        match lowest_ranked(distinct_pairs(adjacent_pairs(symbols)), ranks) {
            Some(best) => {
                let merged = merge_occurrences(symbols, best);
                (merged, merged.len() == 1)
            },
            None => (symbols, true),
        }
    }
}

/// The pieces that merging ends with.
pub open spec fn merged_pieces(symbols: Seq<Seq<char>>, ranks: Map<PiecePair, i64>) -> Seq<
    Seq<char>,
>
    decreases symbols.len(),
{
    let round = merge_round(symbols, ranks);
    if !round.1 && round.0.len() < symbols.len() {
        merged_pieces(round.0, ranks)
    } else {
        round.0
    }
}

/// One symbol for each character.
pub open spec fn single_symbols(text: Seq<char>) -> Seq<Seq<char>> {
    Seq::new(text.len(), |i: int| seq![text[i]])
}

/// The pieces into which a text is merged.
pub open spec fn bpe_pieces(text: Seq<char>, ranks: Map<PiecePair, i64>) -> Seq<Seq<char>> {
    merged_pieces(single_symbols(text), ranks)
}

/// Whether no symbol is empty.
pub open spec fn all_nonempty(symbols: Seq<Seq<char>>) -> bool {
    forall|i: int| 0 <= i < symbols.len() ==> (#[trigger] symbols[i]).len() > 0
}

/// Merging a pair never adds a symbol, keeps the text that the symbols spell,
/// and leaves no symbol empty where none was.
pub proof fn lemma_merge_occurrences(symbols: Seq<Seq<char>>, pair: PiecePair)
    ensures
        merge_occurrences(symbols, pair).len() <= symbols.len(),
        merge_occurrences(symbols, pair).flatten() == symbols.flatten(),
        all_nonempty(symbols) ==> all_nonempty(merge_occurrences(symbols, pair)),
        symbols.len() > 0 ==> merge_occurrences(symbols, pair).len() > 0,
    decreases symbols.len(),
{
    if symbols.len() == 0 {
    } else if symbols.len() >= 2 && symbols[0] == pair.0 && symbols[1] == pair.1 {
        let rest = symbols.skip(2);
        lemma_merge_occurrences(rest, pair);
        let merged = merge_occurrences(symbols, pair);
        let tail = merge_occurrences(rest, pair);
        assert(merged.drop_first() =~= tail);
        assert(symbols.drop_first().drop_first() =~= rest);
        assert(merged.flatten() =~= symbols.flatten()) by {
            assert(merged.flatten() == merged.first() + tail.flatten());
            assert(symbols.flatten() == symbols[0] + symbols.drop_first().flatten());
            assert(symbols.drop_first().flatten() == symbols[1] + rest.flatten());
        }
        if all_nonempty(symbols) {
            assert forall|i: int| 0 <= i < rest.len() implies (#[trigger] rest[i]).len()
                > 0 by {
                assert(rest[i] == symbols[i + 2]);
            }
            assert forall|i: int| 0 <= i < merged.len() implies (#[trigger] merged[i]).len()
                > 0 by {
                if i > 0 {
                    assert(merged[i] == tail[i - 1]);
                }
            }
        }
    } else {
        let rest = symbols.skip(1);
        lemma_merge_occurrences(rest, pair);
        let merged = merge_occurrences(symbols, pair);
        let tail = merge_occurrences(rest, pair);
        assert(merged.drop_first() =~= tail);
        assert(symbols.drop_first() =~= rest);
        if all_nonempty(symbols) {
            assert forall|i: int| 0 <= i < rest.len() implies (#[trigger] rest[i]).len()
                > 0 by {
                assert(rest[i] == symbols[i + 1]);
            }
            assert forall|i: int| 0 <= i < merged.len() implies (#[trigger] merged[i]).len()
                > 0 by {
                if i > 0 {
                    assert(merged[i] == tail[i - 1]);
                }
            }
        }
    }
}

/// Merging a pair that occurs among the symbols leaves fewer symbols.
pub proof fn lemma_merge_removes_a_symbol(symbols: Seq<Seq<char>>, pair: PiecePair, at: int)
    requires
        0 <= at < symbols.len() - 1,
        symbols[at] == pair.0,
        symbols[at + 1] == pair.1,
    ensures
        merge_occurrences(symbols, pair).len() < symbols.len(),
    decreases symbols.len(),
{
    if symbols.len() >= 2 && symbols[0] == pair.0 && symbols[1] == pair.1 {
        lemma_merge_occurrences(symbols.skip(2), pair);
    } else {
        let rest = symbols.skip(1);
        assert(at > 0);
        assert(rest[at - 1] == symbols[at]);
        assert(rest[at] == symbols[at + 1]);
        lemma_merge_removes_a_symbol(rest, pair, at - 1);
    }
}

/// A round that does not end the merging leaves fewer symbols; every round
/// keeps the text that the symbols spell and leaves no symbol empty.
pub proof fn lemma_merge_round(symbols: Seq<Seq<char>>, ranks: Map<PiecePair, i64>)
    ensures
        !merge_round(symbols, ranks).1 ==> merge_round(symbols, ranks).0.len() < symbols.len(),
        merge_round(symbols, ranks).0.flatten() == symbols.flatten(),
        all_nonempty(symbols) ==> all_nonempty(merge_round(symbols, ranks).0),
{
    if symbols.len() > 1 {
        let pairs = adjacent_pairs(symbols);
        match lowest_ranked(distinct_pairs(pairs), ranks) {
            Some(best) => {
                lemma_lowest_ranked(distinct_pairs(pairs), ranks);
                lemma_distinct_pairs(pairs);
                assert(pairs.contains(best));
                let at = choose|i: int| 0 <= i < pairs.len() && pairs[i] == best;
                lemma_merge_removes_a_symbol(symbols, best, at);
                lemma_merge_occurrences(symbols, best);
            },
            None => {},
        }
    }
}

/// The pieces that merging ends with spell the text that the symbols spell,
/// and none of them is empty where no symbol was.
pub proof fn lemma_merged_pieces(symbols: Seq<Seq<char>>, ranks: Map<PiecePair, i64>)
    ensures
        merged_pieces(symbols, ranks).flatten() == symbols.flatten(),
        all_nonempty(symbols) ==> all_nonempty(merged_pieces(symbols, ranks)),
        merged_pieces(symbols, ranks).len() <= symbols.len(),
    decreases symbols.len(),
{
    lemma_merge_round(symbols, ranks);
    let round = merge_round(symbols, ranks);
    if !round.1 && round.0.len() < symbols.len() {
        lemma_merged_pieces(round.0, ranks);
    } else {
        if symbols.len() > 1 {
            match lowest_ranked(distinct_pairs(adjacent_pairs(symbols)), ranks) {
                Some(best) => {
                    lemma_merge_occurrences(symbols, best);
                },
                None => {},
            }
        }
    }
}

/// One symbol per character spells the text, and no symbol is empty.
pub proof fn lemma_single_symbols(text: Seq<char>)
    ensures
        single_symbols(text).flatten() == text,
        all_nonempty(single_symbols(text)),
    decreases text.len(),
{
    let symbols = single_symbols(text);
    if text.len() > 0 {
        let rest = text.drop_first();
        lemma_single_symbols(rest);
        assert(symbols.drop_first() =~= single_symbols(rest));
        assert(symbols.flatten() =~= text);
    }
}

/// The pieces of a text spell the text, none of them is empty, and there
/// are at most as many as the text has characters.
pub proof fn lemma_bpe_pieces(text: Seq<char>, ranks: Map<PiecePair, i64>)
    ensures
        bpe_pieces(text, ranks).flatten() == text,
        all_nonempty(bpe_pieces(text, ranks)),
        bpe_pieces(text, ranks).len() <= text.len(),
{
    lemma_single_symbols(text);
    lemma_merged_pieces(single_symbols(text), ranks);
}

/// The pairs that a list of pair references stands for.
pub open spec fn pair_views(pairs: Seq<BpePairRef<'_>>) -> Seq<PiecePair> {
    pairs.map_values(|p: BpePairRef<'_>| p@)
}

/// Whether the list holds the pair of the two strings.
fn holds_pair(pairs: &Vec<BpePairRef<'_>>, first: &String, second: &String) -> (r: bool)
    ensures
        r == pair_views(pairs@).contains((first@, second@)),
{
    let mut k: usize = 0;
    while k < pairs.len()
        invariant
            k <= pairs@.len(),
            forall|j: int| 0 <= j < k ==> pair_views(pairs@)[j] != (first@, second@),
        decreases pairs@.len() - k,
    {
        if *pairs[k].byte_1 == *first && *pairs[k].byte_2 == *second {
            assert(pair_views(pairs@)[k as int] == (first@, second@));
            return true;
        }
        k += 1;
    }
    false
}

/// The distinct pairs of neighbouring symbols, each where it first occurs.
/// Fewer than two symbols have no pairs.
pub fn get_pairs<'a>(token: &'a [String]) -> (r: Option<Vec<BpePairRef<'a>>>)
    ensures
        r is None <==> token@.len() <= 1,
        r matches Some(pairs) ==> pair_views(pairs@) == distinct_pairs(
            adjacent_pairs(views_of(token@)),
        ),
{
    if token.len() <= 1 {
        return None;
    }
    let ghost all = adjacent_pairs(views_of(token@));
    let mut output: Vec<BpePairRef<'a>> = Vec::new();
    let mut idx: usize = 0;
    assert(all.take(0) =~= Seq::<PiecePair>::empty());
    assert(pair_views(output@) =~= Seq::<PiecePair>::empty());
    while idx < token.len() - 1
        invariant
            idx <= token@.len() - 1,
            token@.len() >= 2,
            all == adjacent_pairs(views_of(token@)),
            pair_views(output@) == distinct_pairs(all.take(idx as int)),
        decreases token@.len() - idx,
    {
        let first = &token[idx];
        let second = &token[idx + 1];
        let ghost before = pair_views(output@);
        assert(all.take(idx + 1).drop_last() =~= all.take(idx as int));
        assert(all.take(idx + 1).last() == (first@, second@));
        if !holds_pair(&output, first, second) {
            output.push(BpePairRef { byte_1: first, byte_2: second });
            assert(pair_views(output@) =~= before.push((first@, second@)));
        }
        idx += 1;
    }
    assert(all.take(idx as int) =~= all);
    Some(output)
}

/// The position in `pairs` of the pair of lowest rank, if any pair has one.
fn lowest_ranked_index(
    pairs: &Vec<BpePairRef<'_>>,
    bpe_ranks: &BpePairVocab,
) -> (r: Option< usize, >)
    ensures
        match r {
            Some(k) => k < pairs@.len() && lowest_ranked(pair_views(pairs@), bpe_ranks@)
                == Some(pairs@[k as int]@),
            None => lowest_ranked(pair_views(pairs@), bpe_ranks@) is None,
        },
{
    let ghost views = pair_views(pairs@);
    let mut best: Option<(usize, i64)> = None;
    let mut k: usize = 0;
    assert(views.take(0) =~= Seq::<PiecePair>::empty());
    while k < pairs.len()
        invariant
            k <= pairs@.len(),
            views == pair_views(pairs@),
            match best {
                Some(found) => {
                    &&& found.0 < k
                    &&& lowest_ranked(views.take(k as int), bpe_ranks@) ==
                        Some(views[found.0 as int])
                    &&& bpe_ranks@.contains_key(views[found.0 as int])
                    &&& bpe_ranks@[views[found.0 as int]] == found.1
                },
                None => lowest_ranked(views.take(k as int), bpe_ranks@) is None,
            },
        decreases pairs@.len() - k,
    {
        assert(views.take(k + 1).drop_last() =~= views.take(k as int));
        assert(views.take(k + 1).last() == pairs@[k as int]@);
        match bpe_ranks.byte_pair_to_id(&pairs[k]) {
            Some(rank) => {
                let better = match best {
                    Some(found) => *rank < found.1,
                    None => true,
                };
                if better {
                    best = Some((k, *rank));
                }
            },
            None => {},
        }
        k += 1;
    }
    assert(views.take(k as int) =~= views);
    match best {
        Some(found) => Some(found.0),
        None => None,
    }
}

/// The symbols with every occurrence of the pair merged into one symbol.
fn merge_pair(tokens: &Vec<String>, first: &String, second: &String) -> (r: Vec<String>)
    ensures
        views_of(r@) == merge_occurrences(views_of(tokens@), (first@, second@)),
{
    let ghost symbols = views_of(tokens@);
    let ghost pair = (first@, second@);
    let mut merged: Vec<String> = Vec::new();
    let mut i: usize = 0;
    assert(symbols.skip(0) =~= symbols);
    assert(views_of(merged@) + merge_occurrences(symbols, pair) =~= merge_occurrences(
        symbols,
        pair,
    ));
    while i < tokens.len()
        invariant
            i <= tokens@.len(),
            symbols == views_of(tokens@),
            pair == (first@, second@),
            views_of(merged@) + merge_occurrences(symbols.skip(i as int), pair)
                == merge_occurrences(symbols, pair),
        decreases tokens@.len() - i,
    {
        let ghost rest = symbols.skip(i as int);
        let ghost done = views_of(merged@);
        assert(rest[0] == tokens@[i as int]@);
        if i + 1 < tokens.len() && tokens[i] == *first && tokens[i + 1] == *second {
            assert(rest[1] == tokens@[i + 1]@);
            let mut combined = first.clone();
            combined.append(second.as_str());
            merged.push(combined);
            assert(rest.skip(2) =~= symbols.skip(i + 2));
            assert(views_of(merged@) =~= done.push(pair.0 + pair.1));
            assert(done.push(pair.0 + pair.1) + merge_occurrences(rest.skip(2), pair) =~= done
                + (seq![pair.0 + pair.1] + merge_occurrences(rest.skip(2), pair)));
            i += 2;
        } else {
            if i + 1 < tokens.len() {
                assert(rest[1] == tokens@[i + 1]@);
            }
            merged.push(tokens[i].clone());
            assert(rest.skip(1) =~= symbols.skip(i + 1));
            assert(views_of(merged@) =~= done.push(rest[0]));
            assert(done.push(rest[0]) + merge_occurrences(rest.skip(1), pair) =~= done + (
            seq![rest[0]] + merge_occurrences(rest.skip(1), pair)));
            i += 1;
        }
    }
    assert(symbols.skip(i as int) =~= Seq::<Seq<char>>::empty());
    assert(views_of(merged@) + Seq::<Seq<char>>::empty() =~= views_of(merged@));
    merged
}

/// One round of merging: finds the adjacent pair of lowest rank and merges
/// it wherever it occurs. Returns the symbols after the round and whether
/// merging is over.
pub fn group_common_pairs(tokens: Vec<String>, bpe_ranks: &BpePairVocab) -> (r: (
    Vec<String>,
    bool,
))
    ensures
        (views_of(r.0@), r.1) == merge_round(views_of(tokens@), bpe_ranks@),
{
    let chosen = match get_pairs(tokens.as_slice()) {
        Some(pairs) => match lowest_ranked_index(&pairs, bpe_ranks) {
            Some(k) => Some((pairs[k].byte_1.clone(), pairs[k].byte_2.clone())),
            None => None,
        },
        None => None,
    };
    match chosen {
        Some(best) => {
            let merged = merge_pair(&tokens, &best.0, &best.1);
            let done = merged.len() == 1;
            (merged, done)
        },
        None => (tokens, true),
    }
}

/// One string for each character of the text.
fn single_char_strings(token: &str) -> (r: Vec<String>)
    ensures
        views_of(r@) == single_symbols(token@),
{
    let chars = chars_of(token);
    let mut symbols: Vec<String> = Vec::new();
    let mut i: usize = 0;
    while i < chars.len()
        invariant
            i <= chars@.len(),
            chars@ == token@,
            symbols@.len() == i,
            views_of(symbols@) == single_symbols(token@.take(i as int)),
        decreases chars@.len() - i,
    {
        let ghost before = views_of(symbols@);
        let mut symbol = String::new();
        symbol.push(chars[i]);
        assert(symbol@ =~= seq![token@[i as int]]);
        symbols.push(symbol);
        i += 1;
        assert forall|j: int| 0 <= j < i implies #[trigger] views_of(symbols@)[j]
            == single_symbols(token@.take(i as int))[j] by {
            if j < i - 1 {
                assert(views_of(symbols@)[j] == before[j]);
                assert(before[j] == single_symbols(token@.take(i - 1))[j]);
            }
        }
        assert(views_of(symbols@) =~= single_symbols(token@.take(i as int)));
    }
    assert(token@.take(i as int) =~= token@);
    symbols
}

/// The number of characters of each piece.
pub open spec fn piece_lengths(pieces: Seq<Seq<char>>) -> Seq<usize> {
    Seq::new(pieces.len(), |i: int| pieces[i].len() as usize)
}

/// Counts the characters of each string.
fn char_counts(pieces: &Vec<String>) -> (r: Vec<usize>)
    ensures
        r@ == piece_lengths(views_of(pieces@)),
{
    let mut counts: Vec<usize> = Vec::new();
    let mut i: usize = 0;
    while i < pieces.len()
        invariant
            i <= pieces@.len(),
            counts@ == piece_lengths(views_of(pieces@).take(i as int)),
        decreases pieces@.len() - i,
    {
        counts.push(pieces[i].as_str().unicode_len());
        i += 1;
        assert(counts@ =~= piece_lengths(views_of(pieces@).take(i as int)));
    }
    assert(views_of(pieces@).take(i as int) =~= views_of(pieces@));
    counts
}

/// Merges a text: starts with one symbol per character and merges the
/// adjacent pair of lowest rank, round after round, until no adjacent pair
/// has a rank or one symbol is left. Returns the pieces and the number of
/// characters of each.
pub fn bpe(token: &str, bpe_ranks: &BpePairVocab) -> (r: (Vec<String>, Vec<usize>))
    ensures
        views_of(r.0@) == bpe_pieces(token@, bpe_ranks@),
        r.1@ == piece_lengths(bpe_pieces(token@, bpe_ranks@)),
{
    let mut symbols = single_char_strings(token);
    let mut done = false;
    while !done
        invariant
            !done ==> merged_pieces(views_of(symbols@), bpe_ranks@) == bpe_pieces(
                token@,
                bpe_ranks@,
            ),
            done ==> views_of(symbols@) == bpe_pieces(token@, bpe_ranks@),
        decreases
                (if done {
                    0
                } else {
                    symbols@.len() + 1
                }),
    {
        proof {
            lemma_merge_round(views_of(symbols@), bpe_ranks@);
        }
        let round = group_common_pairs(symbols, bpe_ranks);
        symbols = round.0;
        done = round.1;
    }
    let counts = char_counts(&symbols);
    (symbols, counts)
}

/// Number of bytes in the UTF-8 encoding of a character.
pub open spec fn utf8_width(c: char) -> nat {
    encode_scalar(c as u32).len()
}

/// Number of bytes in the UTF-8 encoding of a character.
pub fn utf8_len(c: char) -> (r: usize)
    ensures
        r == utf8_width(c),
        1 <= r <= 4,
{
    let u: u32 = c as u32;
    if u <= 0x7F {
        1
    } else if u <= 0x7FF {
        2
    } else if u <= 0xFFFF {
        3
    } else {
        4
    }
}

/// For each byte of the UTF-8 encoding of a text, the index of the character
/// that the byte belongs to.
pub open spec fn byte_char_indices(text: Seq<char>) -> Seq<int>
    decreases text.len(),
{
    if text.len() == 0 {
        seq![]
    } else {
        byte_char_indices(text.drop_last()) + Seq::new(
            utf8_width(text.last()),
            |k: int| text.len() - 1,
        )
    }
}

/// The encoding of a text followed by a character is the encoding of the
/// text followed by that of the character.
pub proof fn lemma_encode_utf8_push(text: Seq<char>, c: char)
    ensures
        encode_utf8(text.push(c)) == encode_utf8(text) + encode_scalar(c as u32),
    decreases text.len(),
{
    let longer = text.push(c);
    if text.len() == 0 {
        assert(longer.drop_first() =~= Seq::<char>::empty());
        assert(encode_utf8(longer.drop_first()) =~= Seq::<u8>::empty());
        assert(encode_utf8(text) =~= Seq::<u8>::empty());
        assert(longer[0] == c);
        assert(encode_utf8(longer) == encode_scalar(c as u32) + encode_utf8(
            longer.drop_first(),
        ));
        assert(encode_utf8(longer) =~= encode_utf8(text) + encode_scalar(c as u32));
    } else {
        assert(longer.drop_first() =~= text.drop_first().push(c));
        lemma_encode_utf8_push(text.drop_first(), c);
        assert(longer[0] == text[0]);
        assert(encode_utf8(longer) == encode_scalar(text[0] as u32) + encode_utf8(
            longer.drop_first(),
        ));
        assert(encode_utf8(text) == encode_scalar(text[0] as u32) + encode_utf8(
            text.drop_first(),
        ));
        assert(encode_utf8(longer) =~= encode_utf8(text) + encode_scalar(c as u32));
    }
}

/// There is one index per byte of the encoding, every index is that of a
/// character of the text, and the indices never decrease.
pub proof fn lemma_byte_char_indices(text: Seq<char>)
    ensures
        byte_char_indices(text).len() == encode_utf8(text).len(),
        forall|k: int|
            0 <= k < byte_char_indices(text).len() ==> 0 <= (#[trigger] byte_char_indices(
                text,
            )[k]) < text.len(),
        forall|j: int, k: int|
            0 <= j <= k < byte_char_indices(text).len() ==> byte_char_indices(text)[j]
                <= byte_char_indices(text)[k],
    decreases text.len(),
{
    if text.len() > 0 {
        let front = text.drop_last();
        lemma_byte_char_indices(front);
        lemma_encode_utf8_push(front, text.last());
        assert(front.push(text.last()) =~= text);
        let all = byte_char_indices(text);
        let before = byte_char_indices(front);
        assert forall|j: int, k: int| 0 <= j <= k < all.len() implies all[j] <= all[k] by {
            if k < before.len() {
                assert(all[j] == before[j]);
                assert(all[k] == before[k]);
            } else if j < before.len() {
                assert(all[j] == before[j]);
                assert(before[j] < front.len());
            }
        }
    }
}

/// The index of the character to which each byte of the text's UTF-8
/// encoding belongs.
pub fn bytes_offsets(text: &str) -> (r: Vec<usize>)
    ensures
        r@.map_values(|i: usize| i as int) == byte_char_indices(text@),
{
    let chars = chars_of(text);
    let mut offsets: Vec<usize> = Vec::new();
    let mut char_idx: usize = 0;
    while char_idx < chars.len()
        invariant
            char_idx <= chars@.len(),
            chars@ == text@,
            offsets@.map_values(|i: usize| i as int) == byte_char_indices(
                text@.take(char_idx as int),
            ),
        decreases chars@.len() - char_idx,
    {
        let width = utf8_len(chars[char_idx]);
        let ghost before = offsets@;
        let ghost next = text@.take(char_idx + 1);
        assert(next.drop_last() =~= text@.take(char_idx as int));
        let mut k: usize = 0;
        while k < width
            invariant
                k <= width,
                offsets@ == before + Seq::new(k as nat, |j: int| char_idx),
            decreases width - k,
        {
            offsets.push(char_idx);
            k += 1;
            assert(offsets@ =~= before + Seq::new(k as nat, |j: int| char_idx));
        }
        assert(offsets@.map_values(|i: usize| i as int) =~= before.map_values(
            |i: usize| i as int,
        ) + Seq::new(width as nat, |j: int| char_idx as int));
        assert(offsets@.map_values(|i: usize| i as int) =~= byte_char_indices(next));
        char_idx += 1;
    }
    assert(text@.take(char_idx as int) =~= text@);
    offsets
}

/// The text that is merged in place of a pre-token: one character of the
/// byte-level alphabet for each byte of the pre-token's UTF-8 encoding.
pub open spec fn projected_text(text: Seq<char>) -> Seq<char> {
    project_bytes(encode_utf8(text))
}

/// The characters of the byte-level alphabet that stand for the given bytes.
pub open spec fn project_bytes(bytes: Seq<u8>) -> Seq<char> {
    Seq::new(bytes.len(), |i: int| byte_to_unicode(bytes[i]))
}

/// The original position of each character of the projected text: that of
/// the character whose encoding the byte belongs to.
pub open spec fn projected_positions(text: Seq<char>, positions: Seq<OffsetSize>) -> Seq<
    OffsetSize,
> {
    byte_char_indices(text).map_values(|i: int| positions[i])
}

/// Where the piece with the given index starts in the text that the pieces spell.
pub open spec fn piece_start(pieces: Seq<Seq<char>>, index: int) -> int {
    pieces.take(index).flatten().len() as int
}

/// The mask of a piece: the first of several begins a run that the others
/// continue; a piece on its own is plain.
pub open spec fn piece_mask(count: nat, index: int) -> Mask {
    if count > 1 {
        if index == 0 {
            Mask::Begin
        } else {
            Mask::Continuation
        }
    } else {
        Mask::Plain
    }
}

/// The token for the piece with the given index: it takes the positions of
/// its characters from the positions of the text that the pieces spell.
pub open spec fn piece_token(
    pieces: Seq<Seq<char>>,
    positions: Seq<OffsetSize>,
    index: int,
) -> TokenView {
    let start = piece_start(pieces, index);
    let end = start + pieces[index].len();
    TokenView {
        text: pieces[index],
        offset: Offset { begin: positions[start], end: (positions[end - 1] + 1) as OffsetSize },
        reference_offsets: positions.subrange(start, end),
        mask: piece_mask(pieces.len(), index),
    }
}

/// The tokens for the pieces of a text, given the positions of its characters.
pub open spec fn piece_tokens(
    pieces: Seq<Seq<char>>,
    positions: Seq<OffsetSize>,
) -> Seq<TokenView> {
    Seq::new(pieces.len(), |i: int| piece_token(pieces, positions, i))
}

/// The values that a sequence of tokens stands for.
pub open spec fn token_views(tokens: Seq<Token>) -> Seq<TokenView> {
    tokens.map_values(|t: Token| t@)
}

/// A piece starts where the piece before it ends, and no piece ends beyond
/// the text that the pieces spell.
pub proof fn lemma_piece_start(pieces: Seq<Seq<char>>, index: int)
    requires
        0 <= index < pieces.len(),
    ensures
        piece_start(pieces, index + 1) == piece_start(pieces, index) + pieces[index].len(),
        piece_start(pieces, index + 1) <= pieces.flatten().len(),
        piece_start(pieces, 0) == 0,
    decreases pieces.len() - index,
{
    assert(pieces.take(index).push(pieces[index]) =~= pieces.take(index + 1));
    pieces.take(index).lemma_flatten_push(pieces[index]);
    assert(pieces.take(0) =~= Seq::<Seq<char>>::empty());
    if index + 1 < pieces.len() {
        lemma_piece_start(pieces, index + 1);
    } else {
        assert(pieces.take(index + 1) =~= pieces);
    }
}

/// The tokens for merged pieces: each piece with the positions of its
/// characters, its offset from the first position to just after the last,
/// and its mask.
pub fn tokens_of_pieces(
    pieces: &Vec<String>,
    counts: &Vec<usize>,
    positions: &Vec<OffsetSize>,
) -> (r: Vec<Token>)
    requires
        all_nonempty(views_of(pieces@)),
        views_of(pieces@).flatten().len() == positions@.len(),
        counts@ == piece_lengths(views_of(pieces@)),
        forall|i: int| 0 <= i < positions@.len() ==> #[trigger] positions@[i] < u32::MAX,
    ensures
        token_views(r@) == piece_tokens(views_of(pieces@), positions@),
{
    let ghost views = views_of(pieces@);
    let mut tokens: Vec<Token> = Vec::new();
    let mut start: usize = 0;
    let mut idx: usize = 0;
    assert(views.take(0) =~= Seq::<Seq<char>>::empty());
    while idx < pieces.len()
        invariant
            idx <= pieces@.len(),
            views == views_of(pieces@),
            all_nonempty(views),
            views.flatten().len() == positions@.len(),
            counts@ == piece_lengths(views),
            forall|i: int| 0 <= i < positions@.len() ==> #[trigger] positions@[i] < u32::MAX,
            start == piece_start(views, idx as int),
            start <= positions@.len(),
            tokens@.len() == idx,
            forall|i: int| 0 <= i < idx ==>
                #[trigger] token_views(tokens@)[i] == piece_token(views, positions@, i),
        decreases pieces@.len() - idx,
    {
        proof {
            lemma_piece_start(views, idx as int);
        }
        let count = counts[idx];
        let available = positions.len();
        assert(views[idx as int].len() <= positions@.len());
        assert(count == piece_lengths(views)[idx as int]);
        assert(count == views[idx as int].len());
        assert(count > 0);
        let end = start + count;
        assert(end <= available);
        let mask = if pieces.len() > 1 {
            if idx == 0 {
                Mask::Begin
            } else {
                Mask::Continuation
            }
        } else {
            Mask::Plain
        };
        let ghost before = token_views(tokens@);
        let token = Token {
            text: pieces[idx].clone(),
            offset: Offset { begin: positions[start], end: positions[end - 1] + 1 },
            reference_offsets: slice_to_vec(slice_subrange(positions.as_slice(), start, end)),
            mask,
        };
        assert(token@ == piece_token(views, positions@, idx as int));
        tokens.push(token);
        assert forall|i: int| 0 <= i < idx + 1 implies #[trigger] token_views(tokens@)[i]
            == piece_token(views, positions@, i) by {
            if i < idx {
                assert(token_views(tokens@)[i] == before[i]);
            }
        }
        start = end;
        idx += 1;
    }
    assert(token_views(tokens@) =~= piece_tokens(views, positions@));
    tokens
}

/// The text that is merged for a token and the positions of its characters:
/// the byte-level projection where `as_bytes` is set, the token's own text
/// and positions otherwise.
pub open spec fn merge_input(token: TokenView, as_bytes: bool) -> (Seq<char>, Seq<OffsetSize>) {
    if as_bytes {
        (projected_text(token.text), projected_positions(token.text, token.reference_offsets))
    } else {
        (token.text, token.reference_offsets)
    }
}

/// The tokens into which a pre-token is merged.
pub open spec fn merged_tokens(token: TokenView, ranks: Map<PiecePair, i64>, as_bytes: bool) -> Seq<
    TokenView,
> {
    let input = merge_input(token, as_bytes);
    piece_tokens(bpe_pieces(input.0, ranks), input.1)
}

/// The byte-level projection of a text.
fn project_text(text: &str) -> (r: String)
    ensures
        r@ == projected_text(text@),
{
    let bytes = text.as_bytes();
    let mut projected = String::new();
    let mut i: usize = 0;
    while i < bytes.len()
        invariant
            i <= bytes@.len(),
            bytes@ == encode_utf8(text@),
            projected@ == projected_text(text@).take(i as int),
        decreases bytes@.len() - i,
    {
        projected.push(byte_to_char(bytes[i]));
        i += 1;
        assert(projected@ =~= projected_text(text@).take(i as int));
    }
    assert(projected_text(text@).take(i as int) =~= projected_text(text@));
    projected
}

/// The original position of each character of the byte-level projection.
fn project_positions(text: &str, positions: &[OffsetSize]) -> (r: Vec<OffsetSize>)
    requires
        positions@.len() == text@.len(),
    ensures
        r@ == projected_positions(text@, positions@),
{
    let indices = bytes_offsets(text);
    let ghost spec_indices = byte_char_indices(text@);
    proof {
        lemma_byte_char_indices(text@);
    }
    let mut projected: Vec<OffsetSize> = Vec::new();
    let mut i: usize = 0;
    while i < indices.len()
        invariant
            i <= indices@.len(),
            positions@.len() == text@.len(),
            spec_indices == byte_char_indices(text@),
            indices@.map_values(|k: usize| k as int) == spec_indices,
            forall|k: int| 0 <= k < spec_indices.len() ==>
                0 <= (#[trigger] spec_indices[k]) < text@.len(),
            projected@ == projected_positions(text@, positions@).take(i as int),
        decreases indices@.len() - i,
    {
        assert(indices@.map_values(|k: usize| k as int)[i as int] == spec_indices[i as int]);
        projected.push(positions[indices[i]]);
        i += 1;
        assert(projected@ =~= projected_positions(text@, positions@).take(i as int));
    }
    assert(projected_positions(text@, positions@).take(i as int) =~= projected_positions(
        text@,
        positions@,
    ));
    projected
}

/// Merges a pre-token into tokens. With `as_bytes` the text is first
/// projected onto the byte-level alphabet. A merge that the cache remembers
/// is taken from it; otherwise the text is merged and the cache is asked to
/// remember the outcome. The cache is never waited for, and the tokens are
/// the same whatever it holds and however its lock stands. The first of
/// several tokens has the mask `Begin` and the others `Continuation`; a
/// single token is `Plain`.
pub fn split_on_bpe_pairs(
    token: TokenRef<'_>,
    bpe_ranks: &BpePairVocab,
    cache: &mut BpeCache,
    as_bytes: bool,
) -> (r: Vec<Token>)
    requires
        token@.is_aligned(),
        forall|i: int|
            0 <= i < token@.reference_offsets.len() ==> #[trigger] token@.reference_offsets[i]
                < u32::MAX,
        old(cache).holds_merges_of(bpe_ranks@),
    ensures
        token_views(r@) == merged_tokens(token@, bpe_ranks@, as_bytes),
        final(cache).holds_merges_of(bpe_ranks@),
        final(cache).lock == old(cache).lock,
        old(cache).entries@.submap_of(final(cache).entries@),
        !old(cache).writable() ==> final(cache).entries@ == old(cache).entries@,
        old(cache).writable() ==> final(cache).entries@.dom() == old(cache).entries@.dom().insert(
            merge_input(token@, as_bytes).0,
        ),
{
    let (text, positions) = if as_bytes {
        (project_text(token.text), project_positions(token.text, token.reference_offsets))
    } else {
        (token.text.to_owned(), slice_to_vec(token.reference_offsets))
    };
    proof {
        lemma_bpe_pieces(text@, bpe_ranks@);
        if as_bytes {
            lemma_byte_char_indices(token.text@);
        }
    }
    match cache.try_get(text.as_str()) {
        Some(merged) => {
            assert(cache.entries@.dom().insert(text@) =~= cache.entries@.dom());
            return tokens_of_pieces(&merged.0, &merged.1, &positions);
        },
        None => {},
    }
    let merged = bpe(text.as_str(), bpe_ranks);
    let tokens = tokens_of_pieces(&merged.0, &merged.1, &positions);
    let ghost before = cache.entries@;
    let ghost key = text@;
    cache.try_insert(text, merged);
    assert(cache.writable() ==> cache.entries@.dom() =~= before.dom().insert(key));
    tokens
}

/// Repairs the masks after merging: a `Continuation` token that stands
/// right after a `Plain` token becomes `Begin`. Nothing else changes.
pub fn fix_mask(tokens: &mut Vec<Token>)
    ensures
        final(tokens)@.len() == old(tokens)@.len(),
        forall|i: int|
            0 <= i < old(tokens)@.len() ==> (#[trigger] final(tokens)@[i])@ == (TokenView {
                mask: repaired_mask(token_views(old(tokens)@), i),
                ..old(tokens)@[i]@
            }),
        masks_repaired(token_views(final(tokens)@)),
        token_views(final(tokens)@) == repaired(token_views(old(tokens)@)),
{
    let ghost before = token_views(tokens@);
    let mut i: usize = 1;
    while i < tokens.len()
        invariant
            1 <= i,
            tokens@.len() == before.len(),
            forall|j: int|
                0 <= j < before.len() && j < i ==> (#[trigger] tokens@[j])@ == (TokenView {
                    mask: repaired_mask(before, j),
                    ..before[j]
                }),
            forall|j: int| i <= j < before.len() ==> (#[trigger] tokens@[j])@ == before[j],
        decreases tokens@.len() - i,
    {
        if tokens[i].mask == Mask::Continuation && tokens[i - 1].mask == Mask::Plain {
            tokens[i].mask = Mask::Begin;
        }
        i += 1;
    }
    assert forall|i: int, j: int| 0 <= i && i + 1 == j && j < tokens@.len() implies !((
    #[trigger] token_views(tokens@)[i]).mask == Mask::Plain && (#[trigger] token_views(
        tokens@,
    )[j]).mask == Mask::Continuation) by {
        assert(tokens@[j]@.mask == repaired_mask(before, j));
        assert(tokens@[i]@.mask == repaired_mask(before, i));
    }
    assert(token_views(tokens@) =~= repaired(before));
}

/// The tokens with their masks repaired: a `Continuation` token that stands
/// right after a `Plain` token is a `Begin` token, and every other token is
/// as it was.
pub open spec fn repaired(tokens: Seq<TokenView>) -> Seq<TokenView> {
    Seq::new(
        tokens.len(),
        |i: int| TokenView { mask: repaired_mask(tokens, i), ..tokens[i] },
    )
}

/// Whether no continuation stands right behind a plain token.
pub open spec fn masks_repaired(tokens: Seq<TokenView>) -> bool {
    forall|i: int, j: int|
        0 <= i && i + 1 == j && j < tokens.len() ==> !((#[trigger] tokens[i]).mask == Mask::Plain
            && (#[trigger] tokens[j]).mask == Mask::Continuation)
}

/// Whether every token has one position for each of its characters.
pub open spec fn all_aligned(tokens: Seq<TokenView>) -> bool {
    forall|i: int| 0 <= i < tokens.len() ==> (#[trigger] tokens[i]).is_aligned()
}

/// Tokens that are aligned and whose positions are bounded stay so when
/// such tokens are put behind them.
pub proof fn lemma_append_tokens(first: Seq<Token>, second: Seq<Token>)
    requires
        all_aligned(token_views(first)),
        all_aligned(token_views(second)),
        positions_bounded(token_views(first)),
        positions_bounded(token_views(second)),
    ensures
        token_views(first + second) == token_views(first) + token_views(second),
        all_aligned(token_views(first + second)),
        positions_bounded(token_views(first + second)),
{
    let all = token_views(first + second);
    assert(all =~= token_views(first) + token_views(second));
    assert forall|i: int| 0 <= i < all.len() implies (#[trigger] all[i]).is_aligned() by {
        if i < first.len() {
            assert(token_views(first)[i].is_aligned());
        } else {
            assert(token_views(second)[i - first.len()].is_aligned());
        }
    }
    assert forall|i: int, k: int|
        0 <= i < all.len() && 0 <= k < all[i].reference_offsets.len() implies
        #[trigger] all[i].reference_offsets[k] < u32::MAX by {
        if i < first.len() {
            assert(token_views(first)[i].reference_offsets[k] < u32::MAX);
        } else {
            assert(token_views(second)[i - first.len()].reference_offsets[k] < u32::MAX);
        }
    }
}

/// The tokens that an aligned pre-token is merged into are aligned.
pub proof fn lemma_merged_aligned(token: TokenView, ranks: Map<PiecePair, i64>, as_bytes: bool)
    requires
        token.is_aligned(),
    ensures
        all_aligned(merged_tokens(token, ranks, as_bytes)),
{
    let input = merge_input(token, as_bytes);
    let pieces = bpe_pieces(input.0, ranks);
    let tokens = merged_tokens(token, ranks, as_bytes);
    lemma_bpe_pieces(input.0, ranks);
    if as_bytes {
        lemma_byte_char_indices(token.text);
    }
    assert forall|i: int| 0 <= i < tokens.len() implies (#[trigger] tokens[i]).is_aligned() by {
        lemma_piece_start(pieces, i);
    }
}

/// The mask of the token with the given index after the repair.
pub open spec fn repaired_mask(tokens: Seq<TokenView>, index: int) -> Mask {
    if index > 0 && tokens[index].mask == Mask::Continuation && tokens[index - 1].mask
        == Mask::Plain {
        Mask::Begin
    } else {
        tokens[index].mask
    }
}

} // verus!
