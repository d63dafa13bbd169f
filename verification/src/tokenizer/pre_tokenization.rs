//! Pre-tokenization: cutting a text at special tokens, folding case, and
//! segmenting what lies between into pre-tokens. Every piece keeps the
//! positions in the original text of the characters that it holds.
use vstd::prelude::*;
use vstd::slice::slice_subrange;
use vstd::string::StringSliceAdditionalSpecFns;
use vstd::utf8::{
    decode_utf8, decode_utf8_split, encode_utf8, is_char_boundary,
    is_char_boundary_iff_not_is_continuation_byte, is_char_boundary_start_end_of_seq, valid_utf8,
    valid_utf8_split,
};
use crate::tokenizer::pattern::{byte_ranges_ordered, find_matches, Pattern, pattern_matches};
use crate::text::{chars_of, is_prefix_of, matches_at, trimmed_end, trimmed_end_len};
use crate::tokenizer::base_tokenizer::{Mask, Offset, OffsetSize, Token, TokenRef, TokenView};
use crate::vocab::base_vocab::{entry_views, str_eq, Vocab, VocabView};

verus! {

/// A stretch of the characters of a text, with the mask of the token that
/// is cut from it.
pub struct SpanView {
    pub begin: int,
    pub end: int,
    pub mask: Mask,
}

/// A stretch of the characters of a text, with the mask of the token that
/// is cut from it.
#[derive(Debug, Clone, Copy)]
pub struct Span {
    pub begin: usize,
    pub end: usize,
    pub mask: Mask,
}

impl View for Span {
    type V = SpanView;

    open spec fn view(&self) -> SpanView {
        SpanView { begin: self.begin as int, end: self.end as int, mask: self.mask }
    }
}

/// The stretches that a sequence of spans stands for.
pub open spec fn span_views(spans: Seq<Span>) -> Seq<SpanView> {
    spans.map_values(|s: Span| s@)
}

/// The spans lie within a text of the given length, none reaches into the
/// next, and they stand in the order of the text.
pub open spec fn spans_ordered(spans: Seq<SpanView>, len: int) -> bool {
    &&& forall|i: int|
        0 <= i < spans.len() ==> 0 <= (#[trigger] spans[i]).begin <= spans[i].end <= len
    &&& forall|i: int, j: int|
        0 <= i < j < spans.len() ==> (#[trigger] spans[i]).end <= (#[trigger] spans[j]).begin
}

/// The token that is cut from a parent at a span: it holds the characters
/// and the positions of the span, and its offset is the span moved by the
/// begin of the parent's offset.
pub open spec fn sub_token(parent: TokenView, span: SpanView) -> TokenView {
    TokenView {
        text: parent.text.subrange(span.begin, span.end),
        offset: Offset {
            begin: (parent.offset.begin + span.begin) as OffsetSize,
            end: (parent.offset.begin + span.end) as OffsetSize,
        },
        reference_offsets: parent.reference_offsets.subrange(span.begin, span.end),
        mask: span.mask,
    }
}

/// The tokens that are cut from a parent at the given spans.
pub open spec fn sub_tokens(parent: TokenView, spans: Seq<SpanView>) -> Seq<TokenView> {
    Seq::new(spans.len(), |i: int| sub_token(parent, spans[i]))
}

/// The values that a sequence of borrowed tokens stands for.
pub open spec fn token_ref_views(tokens: Seq<TokenRef<'_>>) -> Seq<TokenView> {
    tokens.map_values(|t: TokenRef<'_>| t@)
}

/// Whether a token can be cut: it has one position per character, and its
/// offset moved by the number of its characters is still a position.
pub open spec fn can_be_cut(token: TokenView) -> bool {
    &&& token.is_aligned()
    &&& token.offset.begin + token.text.len() <= u32::MAX
}

/// Cuts the tokens for the given spans from a parent.
pub fn tokens_of_spans<'a>(token: TokenRef<'a>, spans: &Vec<Span>) -> (r: Vec<TokenRef<'a>>)
    requires
        can_be_cut(token@),
        spans_ordered(span_views(spans@), token@.text.len() as int),
    ensures
        token_ref_views(r@) == sub_tokens(token@, span_views(spans@)),
{
    let ghost views = span_views(spans@);
    let mut tokens: Vec<TokenRef<'a>> = Vec::new();
    let mut i: usize = 0;
    while i < spans.len()
        invariant
            i <= spans@.len(),
            can_be_cut(token@),
            views == span_views(spans@),
            spans_ordered(views, token@.text.len() as int),
            tokens@.len() == i,
            forall|j: int| 0 <= j < i ==>
                #[trigger] token_ref_views(tokens@)[j] == sub_token(token@, views[j]),
        decreases spans@.len() - i,
    {
        let span = spans[i];
        assert(views[i as int] == span@);
        let ghost before = token_ref_views(tokens@);
        let piece = TokenRef {
            text: token.text.substring_char(span.begin, span.end),
            offset: Offset {
                begin: token.offset.begin + span.begin as OffsetSize,
                end: token.offset.begin + span.end as OffsetSize,
            },
            reference_offsets: slice_subrange(token.reference_offsets, span.begin, span.end),
            mask: span.mask,
        };
        assert(piece@ == sub_token(token@, views[i as int]));
        tokens.push(piece);
        assert forall|j: int| 0 <= j < i + 1 implies #[trigger] token_ref_views(tokens@)[j]
            == sub_token(token@, views[j]) by {
            if j < i {
                assert(token_ref_views(tokens@)[j] == before[j]);
            }
        }
        i += 1;
    }
    assert(token_ref_views(tokens@) =~= sub_tokens(token@, views));
    tokens
}

/// A text at which a token is cut, with the mask of the token that the
/// text itself becomes.
#[derive(Debug, Clone)]
pub struct Separator {
    pub text: String,
    pub mask: Mask,
}

/// A separator as mathematical values.
pub type SeparatorView = (Seq<char>, Mask);

/// The values that a sequence of separators stands for.
pub open spec fn separator_views(separators: Seq<Separator>) -> Seq<SeparatorView> {
    separators.map_values(|s: Separator| (s.text@, s.mask))
}

/// Whether a separator stands at the start of a text. An empty separator
/// stands nowhere.
pub open spec fn stands_at_start(separator: SeparatorView, rest: Seq<char>) -> bool {
    separator.0.len() > 0 && is_prefix_of(separator.0, rest)
}

/// The first of the separators that stands at the start of a text.
pub open spec fn first_separator(separators: Seq<SeparatorView>, rest: Seq<char>) -> Option<int>
    decreases separators.len(),
{
    if separators.len() == 0 {
        None
    } else {
        match first_separator(separators.drop_last(), rest) {
            Some(k) => Some(k),
            None => if stands_at_start(separators.last(), rest) {
                Some(separators.len() - 1)
            } else {
                None
            },
        }
    }
}

/// The first separator that stands at the start of a text is one of the
/// separators and stands there.
pub proof fn lemma_first_separator(separators: Seq<SeparatorView>, rest: Seq<char>)
    ensures
        first_separator(separators, rest) matches Some(k) ==> 0 <= k < separators.len()
            && stands_at_start(separators[k], rest),
    decreases separators.len(),
{
    if separators.len() > 0 {
        lemma_first_separator(separators.drop_last(), rest);
    }
}

/// The span that is flushed in front of a separator found at `at`: the
/// text since `from` without its trailing whitespace, if anything is left
/// of it.
pub open spec fn flushed_span(text: Seq<char>, from: int, at: int) -> Seq<SpanView> {
    let kept = trimmed_end(text.subrange(from, at));
    if from < at && kept > 0 {
        seq![SpanView { begin: from, end: from + kept, mask: Mask::Plain }]
    } else {
        seq![]
    }
}

/// The spans at which a text is cut, scanning from `at` with an unmarked
/// stretch that began at `from`. Where a separator stands, the stretch
/// before it is flushed without its trailing whitespace, the separator
/// becomes a span with its mask if separators are kept, and the scan goes
/// on behind the separator. What is left at the end is a span as it is.
pub open spec fn scan_spans(
    text: Seq<char>,
    separators: Seq<SeparatorView>,
    add_separators: bool,
    at: int,
    from: int,
) -> Seq<SpanView>
    decreases text.len() - at,
{
    if at >= text.len() {
        if from < text.len() {
            seq![SpanView { begin: from, end: text.len() as int, mask: Mask::Plain }]
        } else {
            seq![]
        }
    } else {
        match first_separator(separators, text.skip(at)) {
            Some(k) => {
                let behind = at + separators[k].0.len();
                let marker = if add_separators {
                    seq![SpanView { begin: at, end: behind, mask: separators[k].1 }]
                } else {
                    seq![]
                };
                if at < behind <= text.len() {
                    flushed_span(text, from, at) + marker + scan_spans(
                        text,
                        separators,
                        add_separators,
                        behind,
                        behind,
                    )
                } else {
                    seq![]
                }
            },
            None => scan_spans(text, separators, add_separators, at + 1, from),
        }
    }
}

/// The spans at which a token with the given text and mask is cut. A token
/// that is marked already is not cut: it becomes a single plain span.
pub open spec fn substr_spans(
    text: Seq<char>,
    mask: Mask,
    separators: Seq<SeparatorView>,
    add_separators: bool,
) -> Seq<SpanView> {
    if mask == Mask::Plain {
        scan_spans(text, separators, add_separators, 0, 0)
    } else if text.len() > 0 {
        seq![SpanView { begin: 0, end: text.len() as int, mask: Mask::Plain }]
    } else {
        seq![]
    }
}

/// The first of the separators that stands in `chars` at `at`.
fn find_separator(
    chars: &Vec<char>,
    at: usize,
    separators: &Vec<Vec<char>>,
    Ghost(views): Ghost<Seq<SeparatorView>>,
) -> (r: Option<usize>)
    requires
        at <= chars@.len(),
        views.len() == separators@.len(),
        forall|k: int| 0 <= k < separators@.len() ==> (#[trigger] separators@[k])@ == views[k].0,
    ensures
        match r {
            Some(k) => first_separator(views, chars@.skip(at as int)) == Some(k as int) && k <
                separators@.len(),
            None => first_separator(views, chars@.skip(at as int)) is None,
        },
{
    let ghost rest = chars@.skip(at as int);
    let mut k: usize = 0;
    assert(views.take(0) =~= Seq::<SeparatorView>::empty());
    while k < separators.len()
        invariant
            k <= separators@.len(),
            at <= chars@.len(),
            rest == chars@.skip(at as int),
            views.len() == separators@.len(),
            forall|j: int| 0 <= j < separators@.len() ==>
                (#[trigger] separators@[j])@ == views[j].0,
            first_separator(views.take(k as int), rest) is None,
        decreases separators@.len() - k,
    {
        assert(views.take(k + 1).drop_last() =~= views.take(k as int));
        assert(views.take(k + 1).last() == views[k as int]);
        if separators[k].len() > 0 && matches_at(chars, at, &separators[k]) {
            proof {
                lemma_first_separator_prefix(views, k + 1, rest);
            }
            return Some(k);
        }
        k += 1;
    }
    assert(views.take(k as int) =~= views);
    None
}

/// A separator that is the first among the first `n` is the first among all.
pub proof fn lemma_first_separator_prefix(separators: Seq<SeparatorView>, n: int, rest: Seq<char>)
    requires
        0 <= n <= separators.len(),
        first_separator(separators.take(n), rest) is Some,
    ensures
        first_separator(separators, rest) == first_separator(separators.take(n), rest),
    decreases separators.len() - n,
{
    if n < separators.len() {
        assert(separators.take(n + 1).drop_last() =~= separators.take(n));
        lemma_first_separator_prefix(separators, n + 1, rest);
    } else {
        assert(separators.take(n) =~= separators);
    }
}

/// The characters of each separator.
fn separator_chars(separators: &Vec<Separator>) -> (r: Vec<Vec<char>>)
    ensures
        r@.len() == separators@.len(),
        forall|k: int| 0 <= k < separators@.len() ==>
            (#[trigger] r@[k])@ == separator_views(separators@)[k].0,
{
    let mut all: Vec<Vec<char>> = Vec::new();
    let mut k: usize = 0;
    while k < separators.len()
        invariant
            k <= separators@.len(),
            all@.len() == k,
            forall|j: int| 0 <= j < k ==>
                (#[trigger] all@[j])@ == separator_views(separators@)[j].0,
        decreases separators@.len() - k,
    {
        all.push(chars_of(separators[k].text.as_str()));
        k += 1;
    }
    all
}

/// The spans at which a plain text is cut at the given separators.
fn scan_for_separators(
    chars: &Vec<char>,
    separators: &Vec<Separator>,
    add_separators: bool,
) -> (r: Vec<Span>)
    ensures
        span_views(r@) == scan_spans(chars@, separator_views(separators@), add_separators, 0, 0),
        spans_ordered(span_views(r@), chars@.len() as int),
{
    let ghost text = chars@;
    let ghost views = separator_views(separators@);
    let ghost all = scan_spans(text, views, add_separators, 0, 0);
    let marks = separator_chars(separators);
    let mut spans: Vec<Span> = Vec::new();
    let mut at: usize = 0;
    let mut from: usize = 0;
    assert(span_views(spans@) + all =~= all);
    while at < chars.len()
        invariant
            from <= at <= chars@.len(),
            text == chars@,
            views == separator_views(separators@),
            all == scan_spans(text, views, add_separators, 0, 0),
            marks@.len() == separators@.len(),
            forall|k: int| 0 <= k < separators@.len() ==> (#[trigger] marks@[k])@ == views[k].0,
            span_views(spans@) + scan_spans(text, views, add_separators, at as int, from as int) ==
                all,
            spans_ordered(span_views(spans@), from as int),
        decreases chars@.len() - at,
    {
        let ghost done = span_views(spans@);
        match find_separator(chars, at, &marks, Ghost(views)) {
            Some(k) => {
                proof {
                    lemma_first_separator(views, text.skip(at as int));
                }
                let behind: usize = at + marks[k].len();
                let ghost flushed = flushed_span(text, from as int, at as int);
                let ghost marker = if add_separators {
                    seq![SpanView { begin: at as int, end: behind as int, mask: views[k as int].1 }]
                } else {
                    seq![]
                };
                if from < at {
                    let kept = trimmed_end_len(chars, from, at);
                    if kept > 0 {
                        spans.push(Span { begin: from, end: from + kept, mask: Mask::Plain });
                    }
                }
                assert(span_views(spans@) =~= done + flushed);
                if add_separators {
                    spans.push(Span { begin: at, end: behind, mask: separators[k].mask });
                }
                assert(span_views(spans@) =~= done + flushed + marker);
                assert(done + (flushed + marker + scan_spans(
                    text,
                    views,
                    add_separators,
                    behind as int,
                    behind as int,
                )) =~= done + flushed + marker + scan_spans(
                    text,
                    views,
                    add_separators,
                    behind as int,
                    behind as int,
                ));
                at = behind;
                from = behind;
            },
            None => {
                at += 1;
            },
        }
    }
    let ghost done = span_views(spans@);
    if from < chars.len() {
        spans.push(Span { begin: from, end: chars.len(), mask: Mask::Plain });
        assert(span_views(spans@) =~= done + seq![
            SpanView { begin: from as int, end: text.len() as int, mask: Mask::Plain },
        ]);
    } else {
        assert(done + Seq::<SpanView>::empty() =~= done);
    }
    spans
}

/// Cuts a token at every place where one of the separators stands,
/// scanning from left to right; of several separators that stand at a
/// place the first counts. The stretch in front of a separator becomes a
/// plain token without its trailing whitespace, if anything is left of it;
/// the separator becomes a token with its mask if `add_separators` is set;
/// what remains at the end becomes a plain token as it is. A token whose
/// mask is not `Plain` is not cut.
pub fn split_on_substr<'a>(
    token: TokenRef<'a>,
    separators: &Vec<Separator>,
    add_separators: bool,
) -> (r: Vec<TokenRef<'a>>)
    requires
        can_be_cut(token@),
    ensures
        token_ref_views(r@) == sub_tokens(
            token@,
            substr_spans(token@.text, token@.mask, separator_views(separators@), add_separators),
        ),
        spans_ordered(
            substr_spans(token@.text, token@.mask, separator_views(separators@), add_separators),
            token@.text.len() as int,
        ),
{
    let chars = chars_of(token.text);
    let spans = match token.mask {
        Mask::Plain => scan_for_separators(&chars, separators, add_separators),
        _ => {
            let mut whole: Vec<Span> = Vec::new();
            if chars.len() > 0 {
                whole.push(Span { begin: 0, end: chars.len(), mask: Mask::Plain });
            }
            assert(span_views(whole@) =~= substr_spans(
                token@.text,
                token@.mask,
                separator_views(separators@),
                add_separators,
            ));
            whole
        },
    };
    tokens_of_spans(token, &spans)
}

/// The separators that the special tokens of a vocabulary give: each
/// special token in the order of registration, with the mask `Unknown` for
/// the unknown token and `Special` for the others.
pub open spec fn special_separators(vocab: VocabView) -> Seq<SeparatorView> {
    Seq::new(
        vocab.special_values.len(),
        |i: int|
            (
                vocab.special_values[i].0,
                if vocab.special_values[i].0 == vocab.unknown {
                    Mask::Unknown
                } else {
                    Mask::Special
                },
            ),
    )
}

/// Cuts a token at the special tokens of a vocabulary. Each special token
/// found becomes a token of its own, with the mask `Unknown` where it is
/// the unknown token and `Special` otherwise.
pub fn split_on_special_tokens<'a, V: Vocab>(
    token: TokenRef<'a>,
    vocab: &V,
) -> (r: Vec< TokenRef<'a>, >)
    requires
        can_be_cut(token@),
    ensures
        token_ref_views(r@) == sub_tokens(
            token@,
            substr_spans(token@.text, token@.mask, special_separators(vocab.vocab_view()), true),
        ),
        spans_ordered(
            substr_spans(token@.text, token@.mask, special_separators(vocab.vocab_view()), true),
            token@.text.len() as int,
        ),
{
    let special_values = vocab.special_values();
    let unknown = vocab.get_unknown_value();
    let mut separators: Vec<Separator> = Vec::new();
    let mut i: usize = 0;
    while i < special_values.len()
        invariant
            i <= special_values@.len(),
            entry_views(special_values@) ==
                vocab.vocab_view().special_values,
            unknown@ == vocab.vocab_view().unknown,
            separators@.len() == i,
            forall|j: int| 0 <= j < i ==> #[trigger] separator_views(separators@)[j] ==
                special_separators(vocab.vocab_view())[j],
        decreases special_values@.len() - i,
    {
        let ghost before = separator_views(separators@);
        let text = special_values[i].0.clone();
        assert(entry_views(special_values@)[i as int].0 == text@);
        let mask = if str_eq(text.as_str(), unknown) {
            Mask::Unknown
        } else {
            Mask::Special
        };
        separators.push(Separator { text, mask });
        assert forall|j: int| 0 <= j < i + 1 implies #[trigger] separator_views(separators@)[j]
            == special_separators(vocab.vocab_view())[j] by {
            if j < i {
                assert(separator_views(separators@)[j] == before[j]);
            }
        }
        i += 1;
    }
    assert(entry_views(special_values@).len() == special_values@.len());
    assert(separator_views(separators@) =~= special_separators(vocab.vocab_view()));
    split_on_substr(token, &separators, true)
}

/// What `char::to_lowercase` yields for a character: its lowercase mapping.
pub uninterp spec fn lowercase_of(c: char) -> Seq<char>;

/// Calls `char::to_lowercase` and collects the characters that it yields.
/// They depend on the character alone.
#[verifier::external_body]
fn to_lowercase_chars(c: char) -> (r: Vec<char>)
    ensures
        r@ == lowercase_of(c),
{
    c.to_lowercase().collect()
}

/// The lowercase mapping of the first `n` characters of a text, each
/// character of it with the position of the character that it came from.
pub open spec fn lowercased_upto(text: Seq<char>, positions: Seq<OffsetSize>, n: nat) -> (
    Seq<char>,
    Seq<OffsetSize>,
)
    decreases n,
{
    if n == 0 {
        (seq![], seq![])
    } else {
        let before = lowercased_upto(text, positions, (n - 1) as nat);
        let lower = lowercase_of(text[n - 1]);
        (before.0 + lower, before.1 + Seq::new(lower.len(), |k: int| positions[n - 1]))
    }
}

/// The lowercase mapping of a text with the positions of its characters.
/// Characters without a position, and positions without a character, are
/// left out.
pub open spec fn lowercased(text: Seq<char>, positions: Seq<OffsetSize>) -> (
    Seq<char>,
    Seq<OffsetSize>,
) {
    lowercased_upto(
        text,
        positions,
        if text.len() <= positions.len() {
            text.len()
        } else {
            positions.len()
        },
    )
}

/// The offset that spans the given positions: from the first to just after
/// the last. Without positions it runs from zero to one.
pub open spec fn spanning_offset(positions: Seq<OffsetSize>) -> Offset {
    if positions.len() > 0 {
        Offset { begin: positions.first(), end: (positions.last() + 1) as OffsetSize }
    } else {
        Offset { begin: 0, end: 1 }
    }
}

/// The lowercase mapping keeps the text aligned with its positions, and
/// its positions stay below a bound that the positions of the text respect.
pub proof fn lemma_lowercased_upto(
    text: Seq<char>,
    positions: Seq<OffsetSize>,
    n: nat,
    bound: int,
)
    requires
        n <= text.len(),
        n <= positions.len(),
        forall|i: int| 0 <= i < n ==> #[trigger] positions[i] < bound,
    ensures
        lowercased_upto(text, positions, n).0.len() == lowercased_upto(text, positions, n).1.len(),
        forall|k: int|
            0 <= k < lowercased_upto(text, positions, n).1.len() ==> #[trigger] lowercased_upto(
                text,
                positions,
                n,
            ).1[k] < bound,
    decreases n,
{
    if n > 0 {
        lemma_lowercased_upto(text, positions, (n - 1) as nat, bound);
        let before = lowercased_upto(text, positions, (n - 1) as nat).1;
        let all = lowercased_upto(text, positions, n).1;
        assert forall|k: int| 0 <= k < all.len() implies #[trigger] all[k] < bound by {
            if k < before.len() {
                assert(all[k] == before[k]);
            } else {
                assert(all[k] == positions[n - 1]);
            }
        }
    }
}

/// Folds the text of a token to lower case. Each character of the new text
/// has the position of the character that it came from, whether the
/// mapping of a character is shorter or longer than the character; the
/// offset spans the new positions.
pub fn lowercase(token: &mut Token)
    requires
        forall|i: int|
            0 <= i < old(token)@.reference_offsets.len() ==> #[trigger] old(
                token,
            )@.reference_offsets[i] < u32::MAX,
    ensures
        final(token)@ == (TokenView {
            text: lowercased(old(token)@.text, old(token)@.reference_offsets).0,
            offset: spanning_offset(
                lowercased(old(token)@.text, old(token)@.reference_offsets).1,
            ),
            reference_offsets: lowercased(old(token)@.text, old(token)@.reference_offsets).1,
            mask: old(token)@.mask,
        }),
{
    let chars = chars_of(token.text.as_str());
    let ghost text = token@.text;
    let ghost positions = token@.reference_offsets;
    let count: usize = if chars.len() <= token.reference_offsets.len() {
        chars.len()
    } else {
        token.reference_offsets.len()
    };
    let mut lower_cased_string = String::new();
    let mut character_mapping: Vec<OffsetSize> = Vec::new();
    let mut i: usize = 0;
    while i < count
        invariant
            i <= count,
            count <= chars@.len(),
            count <= token.reference_offsets@.len(),
            chars@ == text,
            token.reference_offsets@ == positions,
            (lower_cased_string@, character_mapping@) == lowercased_upto(text, positions, i as nat),
        decreases count - i,
    {
        let lower = to_lowercase_chars(chars[i]);
        let position = token.reference_offsets[i];
        let ghost text_before = lower_cased_string@;
        let ghost mapping_before = character_mapping@;
        let mut k: usize = 0;
        while k < lower.len()
            invariant
                k <= lower@.len(),
                lower_cased_string@ == text_before + lower@.take(k as int),
                character_mapping@ == mapping_before + Seq::new(k as nat, |j: int| position),
            decreases lower@.len() - k,
        {
            lower_cased_string.push(lower[k]);
            character_mapping.push(position);
            k += 1;
            assert(lower_cased_string@ =~= text_before + lower@.take(k as int));
            assert(character_mapping@ =~= mapping_before + Seq::new(k as nat, |j: int| position));
        }
        assert(lower@.take(k as int) =~= lower@);
        i += 1;
    }
    proof {
        lemma_lowercased_upto(text, positions, count as nat, u32::MAX as int);
    }
    let begin: OffsetSize = if character_mapping.len() > 0 {
        character_mapping[0]
    } else {
        0
    };
    let last: OffsetSize = if character_mapping.len() > 0 {
        character_mapping[character_mapping.len() - 1]
    } else {
        0
    };
    token.text = lower_cased_string;
    token.reference_offsets = character_mapping;
    token.offset.begin = begin;
    token.offset.end = last + 1;
}

/// Number of characters that the first `byte_index` bytes of the encoding
/// of a text hold.
pub open spec fn chars_before(text: Seq<char>, byte_index: int) -> int {
    decode_utf8(encode_utf8(text).subrange(0, byte_index)).len() as int
}

/// The characters in front of a character boundary are a prefix of the
/// text, and a later boundary has at least as many in front of it.
pub proof fn lemma_chars_before(text: Seq<char>, a: int, b: int)
    requires
        0 <= a <= b <= encode_utf8(text).len(),
        is_char_boundary(encode_utf8(text), a),
        is_char_boundary(encode_utf8(text), b),
    ensures
        0 <= chars_before(text, a) <= chars_before(text, b) <= text.len(),
        text.take(chars_before(text, b)) == decode_utf8(encode_utf8(text).subrange(0, b)),
{
    broadcast use vstd::utf8::group_utf8_lib;

    let bytes = encode_utf8(text);
    let front = bytes.subrange(0, b);
    assert(valid_utf8(bytes));
    valid_utf8_split(bytes, b);
    decode_utf8_split(bytes, b);
    assert(decode_utf8(bytes) == text);
    assert(text.take(decode_utf8(front).len() as int) =~= decode_utf8(front));
    if a < b {
        is_char_boundary_iff_not_is_continuation_byte(bytes, a);
        is_char_boundary_iff_not_is_continuation_byte(front, a);
    } else {
        is_char_boundary_start_end_of_seq(front);
    }
    decode_utf8_split(front, a);
    assert(front.subrange(0, a) =~= bytes.subrange(0, a));
}

/// Number of characters in front of a byte index at which a character
/// begins or the text ends.
pub fn char_index(text: &str, byte_index: usize) -> (r: usize)
    requires
        byte_index <= text.spec_bytes().len(),
        is_char_boundary(text.spec_bytes(), byte_index as int),
    ensures
        r == chars_before(text@, byte_index as int),
        r <= text@.len(),
{
    broadcast use vstd::utf8::group_utf8_lib;

    proof {
        lemma_chars_before(text@, byte_index as int, byte_index as int);
    }
    let parts = text.split_at(byte_index);
    assert(decode_utf8(encode_utf8(parts.0@)) == parts.0@);
    parts.0.unicode_len()
}

/// The character spans of byte ranges of a text, each moved by `shift`.
pub open spec fn char_spans_of(text: Seq<char>, ranges: Seq<(usize, usize)>, shift: int) -> Seq<
    SpanView,
> {
    Seq::new(
        ranges.len(),
        |i: int|
            SpanView {
                begin: shift + chars_before(text, ranges[i].0 as int),
                end: shift + chars_before(text, ranges[i].1 as int),
                mask: Mask::Plain,
            },
    )
}

/// Byte ranges in order become character spans in order.
pub proof fn lemma_char_spans_ordered(text: Seq<char>, ranges: Seq<(usize, usize)>, shift: int)
    requires
        byte_ranges_ordered(ranges, encode_utf8(text)),
    ensures
        forall|i: int|
            0 <= i < ranges.len() ==>
                shift <= (#[trigger] char_spans_of(text, ranges, shift)[i]).begin
                <= char_spans_of(text, ranges, shift)[i].end <= shift + text.len(),
        forall|i: int, j: int|
            0 <= i < j < ranges.len() ==> (#[trigger] char_spans_of(text, ranges, shift)[i]).end
                <= (#[trigger] char_spans_of(text, ranges, shift)[j]).begin,
{
    let spans = char_spans_of(text, ranges, shift);
    assert forall|i: int| 0 <= i < ranges.len() implies shift <= (#[trigger] spans[i]).begin
        <= spans[i].end <= shift + text.len() by {
        lemma_chars_before(text, ranges[i].0 as int, ranges[i].1 as int);
    }
    assert forall|i: int, j: int| 0 <= i < j < ranges.len() implies (#[trigger] spans[i]).end <= (
    #[trigger] spans[j]).begin by {
        assert(ranges[i].1 <= ranges[j].0);
        lemma_chars_before(text, ranges[i].1 as int, ranges[j].0 as int);
    }
}

/// Turns the byte ranges of matches in a text into character spans, each
/// moved by `shift`.
pub fn char_spans(text: &str, ranges: &Vec<(usize, usize)>, shift: usize) -> (r: Vec<Span>)
    requires
        byte_ranges_ordered(ranges@, text.spec_bytes()),
        shift + text@.len() <= usize::MAX,
    ensures
        span_views(r@) == char_spans_of(text@, ranges@, shift as int),
{
    let mut spans: Vec<Span> = Vec::new();
    let mut i: usize = 0;
    while i < ranges.len()
        invariant
            i <= ranges@.len(),
            byte_ranges_ordered(ranges@, text.spec_bytes()),
            shift + text@.len() <= usize::MAX,
            spans@.len() == i,
            forall|j: int| 0 <= j < i ==>
                #[trigger] span_views(spans@)[j] == char_spans_of(text@, ranges@, shift as int)[j],
        decreases ranges@.len() - i,
    {
        let range = ranges[i];
        let ghost before = span_views(spans@);
        let begin = char_index(text, range.0);
        let end = char_index(text, range.1);
        spans.push(Span { begin: shift + begin, end: shift + end, mask: Mask::Plain });
        assert forall|j: int| 0 <= j < i + 1 implies #[trigger] span_views(spans@)[j]
            == char_spans_of(text@, ranges@, shift as int)[j] by {
            if j < i {
                assert(span_views(spans@)[j] == before[j]);
            }
        }
        i += 1;
    }
    assert(span_views(spans@) =~= char_spans_of(text@, ranges@, shift as int));
    spans
}

/// The places at which a text is cut in front of a word: for each hit of
/// the lookahead, which ends with whitespace and the first character of a
/// word, the place in front of the last whitespace character, so that this
/// character stays with the word. A hit of fewer than two characters gives
/// no cut, nor does one whose cut would lie in front of the cut before it.
pub open spec fn lookahead_cuts(hits: Seq<SpanView>) -> Seq<int>
    decreases hits.len(),
{
    if hits.len() == 0 {
        seq![]
    } else {
        let before = lookahead_cuts(hits.drop_last());
        let hit = hits.last();
        let last_cut = if before.len() > 0 {
            before.last()
        } else {
            0
        };
        if hit.end - hit.begin >= 2 && hit.end - 2 >= last_cut {
            before.push(hit.end - 2)
        } else {
            before
        }
    }
}

/// The segments between cuts: from the start of the text to the first cut,
/// from each cut to the next, and from the last cut to the end of the text.
pub open spec fn segments_between(cuts: Seq<int>, len: int) -> Seq<(int, int)> {
    Seq::new(
        cuts.len() + 1,
        |i: int|
            (
                if i == 0 {
                    0
                } else {
                    cuts[i - 1]
                },
                if i == cuts.len() {
                    len
                } else {
                    cuts[i]
                },
            ),
    )
}

/// The cuts lie within the text and never go back.
pub proof fn lemma_lookahead_cuts(hits: Seq<SpanView>, len: int)
    requires
        spans_ordered(hits, len),
    ensures
        forall|i: int| 0 <= i < lookahead_cuts(hits).len() ==>
            0 <= #[trigger] lookahead_cuts(hits)[i] <= len,
        forall|i: int, j: int|
            0 <= i <= j < lookahead_cuts(hits).len() ==> lookahead_cuts(hits)[i] <= lookahead_cuts(
                hits,
            )[j],
        lookahead_cuts(hits).len() <= hits.len(),
    decreases hits.len(),
{
    if hits.len() > 0 {
        let front = hits.drop_last();
        assert(spans_ordered(front, len)) by {
            assert forall|i: int| 0 <= i < front.len() implies 0 <= (#[trigger] front[i]).begin
                <= front[i].end <= len by {
                assert(front[i] == hits[i]);
            }
            assert forall|i: int, j: int| 0 <= i < j < front.len() implies (
            #[trigger] front[i]).end <= (#[trigger] front[j]).begin by {
                assert(front[i] == hits[i]);
                assert(front[j] == hits[j]);
            }
        }
        lemma_lookahead_cuts(front, len);
        let before = lookahead_cuts(front);
        let all = lookahead_cuts(hits);
        assert(hits[hits.len() - 1].end <= len);
        assert forall|i: int, j: int| 0 <= i <= j < all.len() implies all[i] <= all[j] by {
            if j < before.len() {
                assert(all[i] == before[i] && all[j] == before[j]);
            } else if i < before.len() {
                assert(all[i] == before[i]);
                assert(before[i] <= before[before.len() - 1]);
            }
        }
    }
}

/// Where a text is cut in front of words, given the hits of the lookahead
/// as character spans: the segments between the cuts.
pub fn lookahead_segments(hits: &Vec<Span>, len: usize) -> (r: Vec<(usize, usize)>)
    requires
        spans_ordered(span_views(hits@), len as int),
    ensures
        r@.map_values(|s: (usize, usize)| (s.0 as int, s.1 as int)) == segments_between(
            lookahead_cuts(span_views(hits@)),
            len as int,
        ),
        forall|i: int| 0 <= i < r@.len() ==> (#[trigger] r@[i]).0 <= r@[i].1 <= len,
        forall|i: int, j: int| 0 <= i < j < r@.len() ==>
            (#[trigger] r@[i]).1 <= (#[trigger] r@[j]).0,
{
    let ghost views = span_views(hits@);
    let mut segments: Vec<(usize, usize)> = Vec::new();
    let mut from: usize = 0;
    let mut k: usize = 0;
    assert(views.take(0) =~= Seq::<SpanView>::empty());
    proof {
        lemma_lookahead_cuts(views, len as int);
    }
    while k < hits.len()
        invariant
            k <= hits@.len(),
            views == span_views(hits@),
            spans_ordered(views, len as int),
            from <= len,
            segments@.len() == lookahead_cuts(views.take(k as int)).len(),
            from == (if segments@.len() > 0 {
                lookahead_cuts(views.take(k as int)).last()
            } else {
                0
            }),
            forall|i: int|
                0 <= i < segments@.len() ==> (#[trigger] segments@[i]) == (
                    (if i == 0 {
                        0
                    } else {
                        lookahead_cuts(views.take(k as int))[i - 1]
                    }) as usize,
                    lookahead_cuts(views.take(k as int))[i] as usize,
                ),
            forall|i: int| 0 <= i < segments@.len() ==>
                (#[trigger] segments@[i]).0 <= segments@[i].1 <= from,
            forall|i: int, j: int| 0 <= i < j < segments@.len() ==>
                (#[trigger] segments@[i]).1 <= (#[trigger] segments@[j]).0,
        decreases hits@.len() - k,
    {
        let hit = hits[k];
        let ghost before = lookahead_cuts(views.take(k as int));
        assert(views.take(k + 1).drop_last() =~= views.take(k as int));
        assert(views.take(k + 1).last() == hit@);
        assert(views[k as int] == hit@);
        if hit.end - hit.begin >= 2 && hit.end - 2 >= from {
            let cut: usize = hit.end - 2;
            segments.push((from, cut));
            from = cut;
        }
        k += 1;
    }
    assert(views.take(k as int) =~= views);
    segments.push((from, len));
    assert(segments@.map_values(|s: (usize, usize)| (s.0 as int, s.1 as int)) =~= segments_between(
        lookahead_cuts(views),
        len as int,
    ));
    segments
}

/// Whether tokens are cut from a parent at spans that lie in the order of
/// the text and do not overlap, each of them plain.
pub open spec fn cut_in_order(tokens: Seq<TokenView>, parent: TokenView) -> bool {
    exists|spans: Seq<SpanView>|
        {
            &&& spans_ordered(spans, parent.text.len() as int)
            &&& forall|i: int| 0 <= i < spans.len() ==> (#[trigger] spans[i]).mask == Mask::Plain
            &&& tokens == #[trigger] sub_tokens(parent, spans)
        }
}

/// The spans of the matches of the tokenization pattern within a segment
/// of a text, as spans of the text.
pub open spec fn segment_spans(
    text: Seq<char>,
    tokenization: Seq<char>,
    segment: (int, int),
) -> Seq<SpanView> {
    let piece = text.subrange(segment.0, segment.1);
    char_spans_of(piece, pattern_matches(tokenization, piece), segment.0)
}

/// The spans of the matches within each of the segments.
pub open spec fn spans_of_segments(
    text: Seq<char>,
    tokenization: Seq<char>,
    segments: Seq<(int, int)>,
) -> Seq<Seq<SpanView>> {
    Seq::new(segments.len(), |s: int| segment_spans(text, tokenization, segments[s]))
}

/// The segments into which the hits of the lookahead pattern cut a text.
pub open spec fn lookahead_segments_of(text: Seq<char>, lookahead: Seq<char>) -> Seq<(int, int)> {
    segments_between(
        lookahead_cuts(char_spans_of(text, pattern_matches(lookahead, text), 0)),
        text.len() as int,
    )
}

/// The spans of the pre-tokens of a text: the hits of the lookahead
/// pattern cut the text into segments, and within each segment every match
/// of the tokenization pattern is a span.
pub open spec fn segmented_spans(
    text: Seq<char>,
    lookahead: Seq<char>,
    tokenization: Seq<char>,
) -> Seq<SpanView> {
    spans_of_segments(text, tokenization, lookahead_segments_of(text, lookahead)).flatten()
}

/// The spans of one segment more are the spans so far, followed by those
/// of the segment.
pub proof fn lemma_spans_of_segments_step(
    text: Seq<char>,
    tokenization: Seq<char>,
    segments: Seq<(int, int)>,
    index: int,
)
    requires
        0 <= index < segments.len(),
    ensures
        spans_of_segments(text, tokenization, segments.take(index + 1)).flatten()
            == spans_of_segments(text, tokenization, segments.take(index)).flatten()
            + segment_spans(text, tokenization, segments[index]),
{
    let before = spans_of_segments(text, tokenization, segments.take(index));
    let added = segment_spans(text, tokenization, segments[index]);
    assert(spans_of_segments(text, tokenization, segments.take(index + 1)) =~= before.push(added))
        by {
        assert forall|j: int| 0 <= j < index + 1 implies #[trigger] spans_of_segments(
            text,
            tokenization,
            segments.take(index + 1),
        )[j] == before.push(added)[j] by {
            if j < index {
                assert(segments.take(index + 1)[j] == segments.take(index)[j]);
            }
        }
    }
    before.lemma_flatten_push(added);
}

/// Segments a plain token into pre-tokens. The hits of the lookahead
/// pattern, which finds whitespace followed by the first character of a
/// word, cut the text so that the last whitespace character stays with the
/// word; within each segment, every match of the tokenization pattern
/// becomes a plain token with the characters and positions that it
/// matched. A token whose mask is not `Plain` is returned as it is.
pub fn split_on_regex_with_lookahead<'a>(
    token: TokenRef<'a>,
    pattern_lookahead: &Pattern,
    pattern_tokenization: &Pattern,
) -> (r: Vec<TokenRef<'a>>)
    requires
        can_be_cut(token@),
    ensures
        token@.mask != Mask::Plain ==> token_ref_views(r@) == seq![token@],
        token@.mask == Mask::Plain ==> token_ref_views(r@) == sub_tokens(
            token@,
            segmented_spans(token@.text, pattern_lookahead@, pattern_tokenization@),
        ),
        token@.mask == Mask::Plain ==> cut_in_order(token_ref_views(r@), token@),
{
    match token.mask {
        Mask::Plain => {},
        _ => {
            let mut unchanged: Vec<TokenRef<'a>> = Vec::new();
            unchanged.push(token);
            assert(token_ref_views(unchanged@) =~= seq![token@]);
            return unchanged;
        },
    }
    let len = token.text.unicode_len();
    let hits = find_matches(pattern_lookahead, token.text);
    proof {
        lemma_char_spans_ordered(token.text@, hits@, 0);
    }
    let hit_spans = char_spans(token.text, &hits, 0);
    let segments = lookahead_segments(&hit_spans, len);
    let ghost text = token@.text;
    let ghost tokenization = pattern_tokenization@;
    let ghost all = segments@.map_values(|s: (usize, usize)| (s.0 as int, s.1 as int));
    let mut spans: Vec<Span> = Vec::new();
    let mut s: usize = 0;
    proof {
        assert(all == lookahead_segments_of(text, pattern_lookahead@));
        assert(spans_of_segments(text, tokenization, all.take(0)) =~= Seq::<
            Seq<SpanView>,
        >::empty());
        assert(span_views(spans@) =~= Seq::<SpanView>::empty());
    }
    while s < segments.len()
        invariant
            s <= segments@.len(),
            len == token@.text.len(),
            text == token@.text,
            tokenization == pattern_tokenization@,
            all == segments@.map_values(|s: (usize, usize)| (s.0 as int, s.1 as int)),
            span_views(spans@) == spans_of_segments(
                text,
                tokenization,
                all.take(s as int),
            ).flatten(),
            forall|i: int| 0 <= i < segments@.len() ==>
                (#[trigger] segments@[i]).0 <= segments@[i].1 <= len,
            forall|i: int, j: int| 0 <= i < j < segments@.len() ==>
                (#[trigger] segments@[i]).1 <= (#[trigger] segments@[j]).0,
            spans_ordered(span_views(spans@), len as int),
            forall|i: int| 0 <= i < spans@.len() ==>
                (#[trigger] span_views(spans@)[i]).mask == Mask::Plain,
            forall|i: int| 0 <= i < spans@.len() && s < segments@.len() ==>
                (#[trigger] span_views(spans@)[i]).end <= segments@[s as int].0,
        decreases segments@.len() - s,
    {
        let segment = segments[s];
        let piece = token.text.substring_char(segment.0, segment.1);
        let found = find_matches(pattern_tokenization, piece);
        proof {
            lemma_char_spans_ordered(piece@, found@, segment.0 as int);
        }
        let found_spans = char_spans(piece, &found, segment.0);
        let ghost before = span_views(spans@);
        let ghost added = span_views(found_spans@);
        let mut extra = found_spans;
        spans.append(&mut extra);
        assert(span_views(spans@) =~= before + added);
        proof {
            assert(all[s as int] == (segment.0 as int, segment.1 as int));
            assert(added == segment_spans(text, tokenization, all[s as int]));
            lemma_spans_of_segments_step(text, tokenization, all, s as int);
        }
        assert forall|i: int, j: int| 0 <= i < j < spans@.len() implies (#[trigger] span_views(
            spans@,
        )[i]).end <= (#[trigger] span_views(spans@)[j]).begin by {
            if j >= before.len() && i < before.len() {
                assert(before[i].end <= segment.0);
            }
        }
        assert forall|i: int| 0 <= i < spans@.len() && s + 1 < segments@.len() implies (
        #[trigger] span_views(spans@)[i]).end <= segments@[s + 1].0 by {
            assert(segments@[s as int].1 <= segments@[s + 1].0);
            if i < before.len() {
                assert(before[i].end <= segment.0);
            }
        }
        s += 1;
    }
    assert(all.take(s as int) =~= all);
    let tokens = tokens_of_spans(token, &spans);
    assert(token_ref_views(tokens@) == sub_tokens(token@, span_views(spans@)));
    tokens
}

} // verus!
