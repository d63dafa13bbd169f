//! The vocabulary: tokens with their ids, ids with their tokens, and an
//! overlay of special tokens that is consulted first in both directions.
use vstd::hash_map::StringHashMap;
use vstd::prelude::*;
use vstd::string::StringExecFns;
use std::collections::HashMap;
use crate::error::TokenizerError;
use crate::text::{
    chars_of, decimal_digits, lines_of, pieces_view, push_decimal, split_chars, string_of_range,
    trim, trim_end, trimmed_end_len, trimmed_start_len, views_of,
};

verus! {

/// A token with its id.
pub type TokenEntry = (Seq<char>, i64);

/// The tokens and ids that a list of entries holds.
pub open spec fn entry_views(entries: Seq<(String, i64)>) -> Seq<TokenEntry> {
    entries.map_values(|e: (String, i64)| (e.0@, e.1))
}

/// The map from token to id that a list of entries describes. Of two
/// entries with the same token the later one counts.
pub open spec fn entries_map(entries: Seq<TokenEntry>) -> Map<Seq<char>, i64>
    decreases entries.len(),
{
    if entries.len() == 0 {
        Map::empty()
    } else {
        entries_map(entries.drop_last()).insert(entries.last().0, entries.last().1)
    }
}

/// The map from id to token that a list of entries describes. Of two
/// entries with the same id the later one counts.
pub open spec fn swapped_map(entries: Seq<TokenEntry>) -> Map<i64, Seq<char>>
    decreases entries.len(),
{
    if entries.len() == 0 {
        Map::empty()
    } else {
        swapped_map(entries.drop_last()).insert(entries.last().1, entries.last().0)
    }
}

/// The tokens of a map from id to token as character sequences.
pub open spec fn index_view(indices: Map<i64, String>) -> Map<i64, Seq<char>> {
    indices.map_values(|s: String| s@)
}

/// Where a token first stands in an overlay.
pub open spec fn overlay_find(overlay: Seq<TokenEntry>, token: Seq<char>) -> Option<int>
    decreases overlay.len(),
{
    if overlay.len() == 0 {
        None
    } else {
        match overlay_find(overlay.drop_last(), token) {
            Some(i) => Some(i),
            None => if overlay.last().0 == token {
                Some(overlay.len() - 1)
            } else {
                None
            },
        }
    }
}

/// The id that an overlay gives a token.
pub open spec fn overlay_lookup(overlay: Seq<TokenEntry>, token: Seq<char>) -> Option<i64> {
    match overlay_find(overlay, token) {
        Some(i) => Some(overlay[i].1),
        None => None,
    }
}

/// The overlay after a token was given an id: the entry of the token is
/// replaced where there is one, and added at the end otherwise.
pub open spec fn overlay_put(overlay: Seq<TokenEntry>, token: Seq<char>, id: i64) -> Seq<
    TokenEntry,
> {
    match overlay_find(overlay, token) {
        Some(i) => overlay.update(i, (token, id)),
        None => overlay.push((token, id)),
    }
}

/// Whether no token stands twice in the overlay.
pub open spec fn overlay_distinct(overlay: Seq<TokenEntry>) -> bool {
    forall|i: int, j: int|
        0 <= i < j < overlay.len() ==> (#[trigger] overlay[i]).0 != (#[trigger] overlay[j]).0
}

/// A token is found at the first index that holds it, and not at all where
/// no index holds it.
pub proof fn lemma_overlay_find(overlay: Seq<TokenEntry>, token: Seq<char>)
    ensures
        match overlay_find(overlay, token) {
            Some(i) => {
                &&& 0 <= i < overlay.len()
                &&& overlay[i].0 == token
                &&& forall|j: int| 0 <= j < i ==> (#[trigger] overlay[j]).0 != token
            },
            None => forall|j: int| 0 <= j < overlay.len() ==> (#[trigger] overlay[j]).0 != token,
        },
    decreases overlay.len(),
{
    if overlay.len() > 0 {
        let front = overlay.drop_last();
        lemma_overlay_find(front, token);
        match overlay_find(front, token) {
            Some(i) => {
                assert forall|j: int| 0 <= j < i implies (#[trigger] overlay[j]).0 != token by {
                    assert(front[j] == overlay[j]);
                }
            },
            None => {
                assert forall|j: int| 0 <= j < overlay.len() - 1 implies (
                #[trigger] overlay[j]).0 != token by {
                    assert(front[j] == overlay[j]);
                }
            },
        }
    }
}

/// Giving a token an id in an overlay without repetitions leaves it without
/// repetitions; the token then has that id and every other token the id it had.
pub proof fn lemma_overlay_put(overlay: Seq<TokenEntry>, token: Seq<char>, id: i64)
    requires
        overlay_distinct(overlay),
    ensures
        overlay_distinct(overlay_put(overlay, token, id)),
        overlay_lookup(overlay_put(overlay, token, id), token) == Some(id),
        forall|other: Seq<char>|
            other != token ==> overlay_lookup(overlay_put(overlay, token, id), other)
                == overlay_lookup(overlay, other),
{
    let after = overlay_put(overlay, token, id);
    lemma_overlay_find(overlay, token);
    lemma_overlay_find(after, token);
    match overlay_find(overlay, token) {
        Some(i) => {
            assert(after[i].0 == token);
        },
        None => {
            assert(after[overlay.len() as int].0 == token);
        },
    }
    assert forall|other: Seq<char>| other != token implies overlay_lookup(after, other)
        == overlay_lookup(overlay, other) by {
        lemma_overlay_find(overlay, other);
        lemma_overlay_find(after, other);
        match overlay_find(overlay, other) {
            Some(k) => {
                assert(after[k].0 == other);
                match overlay_find(after, other) {
                    Some(m) => {
                        if m < k {
                            assert(overlay[m].0 == after[m].0);
                        }
                    },
                    None => {},
                }
            },
            None => {
                match overlay_find(after, other) {
                    Some(m) => {
                        if m < overlay.len() {
                            assert(overlay[m].0 == after[m].0 || after[m].0 == token);
                        }
                    },
                    None => {},
                }
            },
        }
    }
}

/// The id of a token in an overlay, if the overlay holds the token.
pub fn overlay_get(overlay: &Vec<(String, i64)>, token: &str) -> (r: Option<i64>)
    ensures
        r == overlay_lookup(entry_views(overlay@), token@),
{
    match overlay_position(overlay, token) {
        Some(i) => Some(overlay[i].1),
        None => None,
    }
}

/// Where a token first stands in an overlay.
pub fn overlay_position(overlay: &Vec<(String, i64)>, token: &str) -> (r: Option<usize>)
    ensures
        match r {
            Some(i) => overlay_find(entry_views(overlay@), token@) == Some(i as int) && i
                < overlay@.len(),
            None => overlay_find(entry_views(overlay@), token@) is None,
        },
{
    let ghost views = entry_views(overlay@);
    let mut i: usize = 0;
    assert(views.take(0) =~= Seq::<TokenEntry>::empty());
    while i < overlay.len()
        invariant
            i <= overlay@.len(),
            views == entry_views(overlay@),
            overlay_find(views.take(i as int), token@) is None,
        decreases overlay@.len() - i,
    {
        assert(views.take(i + 1).drop_last() =~= views.take(i as int));
        assert(views.take(i + 1).last() == views[i as int]);
        if str_eq(overlay[i].0.as_str(), token) {
            proof {
                lemma_overlay_find_prefix(views, i + 1, token@);
            }
            return Some(i);
        }
        i += 1;
    }
    assert(views.take(i as int) =~= views);
    None
}

/// A token that is found among the first entries is found at the same
/// place among all of them.
pub proof fn lemma_overlay_find_prefix(overlay: Seq<TokenEntry>, n: int, token: Seq<char>)
    requires
        0 <= n <= overlay.len(),
        overlay_find(overlay.take(n), token) is Some,
    ensures
        overlay_find(overlay, token) == overlay_find(overlay.take(n), token),
    decreases overlay.len() - n,
{
    if n < overlay.len() {
        assert(overlay.take(n + 1).drop_last() =~= overlay.take(n));
        lemma_overlay_find_prefix(overlay, n + 1, token);
    } else {
        assert(overlay.take(n) =~= overlay);
    }
}

/// Whether two texts hold the same characters.
pub fn str_eq(a: &str, b: &str) -> (r: bool)
    ensures
        r == (a@ == b@),
{
    let x = a.to_owned();
    let y = b.to_owned();
    x == y
}

/// Gives a token an id in an overlay.
pub fn overlay_set(overlay: &mut Vec<(String, i64)>, token: &str, id: i64)
    ensures
        entry_views(final(overlay)@) == overlay_put(entry_views(old(overlay)@), token@, id),
{
    let ghost before = entry_views(overlay@);
    match overlay_position(overlay, token) {
        Some(i) => {
            overlay.remove(i);
            overlay.insert(i, (token.to_owned(), id));
            assert(entry_views(overlay@) =~= before.update(i as int, (token@, id)));
        },
        None => {
            overlay.push((token.to_owned(), id));
            assert(entry_views(overlay@) =~= before.push((token@, id)));
        },
    }
}

/// The map from id to token of a list of entries: each entry is entered
/// under its id, a later one in place of an earlier one with the same id.
pub fn swap_key_values(input: &Vec<(String, i64)>) -> (r: HashMap<i64, String>)
    ensures
        index_view(r@) == swapped_map(entry_views(input@)),
{
    let ghost views = entry_views(input@);
    let mut swapped: HashMap<i64, String> = HashMap::new();
    let mut i: usize = 0;
    assert(views.take(0) =~= Seq::<TokenEntry>::empty());
    assert(index_view(swapped@) =~= Map::<i64, Seq<char>>::empty());
    while i < input.len()
        invariant
            i <= input@.len(),
            views == entry_views(input@),
            index_view(swapped@) == swapped_map(views.take(i as int)),
        decreases input@.len() - i,
    {
        let ghost before = index_view(swapped@);
        assert(views.take(i + 1).drop_last() =~= views.take(i as int));
        assert(views.take(i + 1).last() == views[i as int]);
        swapped.insert(input[i].1, input[i].0.clone());
        assert(index_view(swapped@) =~= before.insert(views[i as int].1, views[i as int].0));
        i += 1;
    }
    assert(views.take(i as int) =~= views);
    swapped
}

/// The map from token to id of a list of entries: each entry is entered
/// under its token, a later one in place of an earlier one with the same token.
pub fn collect_values(input: &Vec<(String, i64)>) -> (r: StringHashMap<i64>)
    ensures
        r@ == entries_map(entry_views(input@)),
{
    let ghost views = entry_views(input@);
    let mut values: StringHashMap<i64> = StringHashMap::new();
    let mut i: usize = 0;
    assert(views.take(0) =~= Seq::<TokenEntry>::empty());
    while i < input.len()
        invariant
            i <= input@.len(),
            views == entry_views(input@),
            values@ == entries_map(views.take(i as int)),
        decreases input@.len() - i,
    {
        assert(views.take(i + 1).drop_last() =~= views.take(i as int));
        assert(views.take(i + 1).last() == views[i as int]);
        values.insert(input[i].0.clone(), input[i].1);
        i += 1;
    }
    assert(views.take(i as int) =~= views);
    values
}

#[verifier::external_type_specification]
#[verifier::external_body]
pub struct ExJsonError(serde_json::Error);

/// What `serde_json::from_str` makes of a text that is read as an object
/// whose values are 64-bit integers: the members of the object, or nothing
/// where the text is refused.
pub uninterp spec fn json_token_ids(text: Seq<char>) -> Option<Seq<TokenEntry>>;

/// Calls `serde_json::from_str` to read a JSON object that maps strings to
/// 64-bit integers, and hands its members out ordered by key. The outcome
/// depends on the text alone. The members of an object that was read have
/// distinct keys, since they come out of a map.
#[verifier::external_body]
fn parse_json_object(text: &str) -> (r: Result<Vec<(String, i64)>, serde_json::Error>)
    ensures
        match r {
            Ok(entries) => json_token_ids(text@) == Some(entry_views(entries@))
                && overlay_distinct(entry_views(entries@)),
            Err(_) => json_token_ids(text@) is None,
        },
{
    let parsed: Result<std::collections::BTreeMap<String, i64>, serde_json::Error> =
        serde_json::from_str(text);
    parsed.map(|members| members.into_iter().collect())
}

/// Calls `to_string` on an error of `serde_json` for its message.
#[verifier::external_body]
fn json_error_message(error: &serde_json::Error) -> (r: String) {
    error.to_string()
}

/// Reads a vocabulary from a JSON object that maps each token to its id.
/// Fails where the text is not such an object.
pub fn read_json_string(json_str: &str) -> (r: Result<Vec<(String, i64)>, TokenizerError>)
    ensures
        match r {
            Ok(entries) => json_token_ids(json_str@) == Some(entry_views(entries@))
                && overlay_distinct(entry_views(entries@)),
            Err(e) => json_token_ids(json_str@) is None && e is VocabularyParsingError,
        },
{
    match parse_json_object(json_str) {
        Ok(entries) => Ok(entries),
        Err(e) => Err(TokenizerError::VocabularyParsingError(json_error_message(&e))),
    }
}

/// The entries of a flat vocabulary: each line, trimmed, with its line
/// number as id.
pub open spec fn flat_entries(lines: Seq<Seq<char>>) -> Seq<TokenEntry> {
    Seq::new(lines.len(), |i: int| (trim(lines[i]), i as i64))
}

/// Reads a vocabulary from a text with one token per line. Each line is
/// trimmed, and its id is its line number, counted from zero. Fails only
/// where there are more lines than ids.
pub fn read_flat_string(text: &str) -> (r: Result<Vec<(String, i64)>, TokenizerError>)
    ensures
        r is Ok <==> lines_of(text@).len() <= 0x8000_0000_0000_0000,
        r matches Ok(entries) ==> entry_views(entries@) == flat_entries(lines_of(text@)),
        r matches Err(e) ==> e is VocabularyParsingError,
{
    let chars = chars_of(text);
    let pieces = split_chars(&chars, 0, chars.len(), '\n');
    assert(chars@.subrange(0, chars@.len() as int) =~= chars@);
    let line_count: usize = if pieces[pieces.len() - 1].len() == 0 {
        pieces.len() - 1
    } else {
        pieces.len()
    };
    let ghost lines = lines_of(text@);
    assert(lines =~= pieces_view(pieces@).take(line_count as int));
    if line_count > 0 && (line_count - 1) as u64 > 0x7fff_ffff_ffff_ffff {
        return Err(
            TokenizerError::VocabularyParsingError(
                "The vocabulary holds more lines than there are ids".to_owned(),
            ),
        );
    }
    let mut entries: Vec<(String, i64)> = Vec::new();
    let mut i: usize = 0;
    while i < line_count
        invariant
            i <= line_count <= pieces@.len(),
            line_count <= 0x8000_0000_0000_0000,
            lines == pieces_view(pieces@).take(line_count as int),
            entries@.len() == i,
            forall|j: int| 0 <= j < i ==>
                #[trigger] entry_views(entries@)[j] == flat_entries(lines)[j],
        decreases line_count - i,
    {
        let line = &pieces[i];
        let end = trimmed_end_len(line, 0, line.len());
        assert(line@.subrange(0, line@.len() as int) =~= line@);
        let start = trimmed_start_len(line, 0, end);
        assert(line@.subrange(0, end as int) =~= trim_end(line@));
        assert(line@.subrange(start as int, end as int) =~= trim(line@));
        let ghost before = entry_views(entries@);
        let token = string_of_range(line, start, end);
        entries.push((token, i as i64));
        assert forall|j: int| 0 <= j < i + 1 implies #[trigger] entry_views(entries@)[j]
            == flat_entries(lines)[j] by {
            if j < i {
                assert(entry_views(entries@)[j] == before[j]);
            }
        }
        i += 1;
    }
    assert(entry_views(entries@) =~= flat_entries(lines));
    Ok(entries)
}

/// The overlay after the given tokens were registered one after another,
/// each with the id that the values give it.
pub open spec fn registered(
    overlay: Seq<TokenEntry>,
    tokens: Seq<Seq<char>>,
    values: Map<Seq<char>, i64>,
) -> Seq<TokenEntry>
    decreases tokens.len(),
{
    if tokens.len() == 0 {
        overlay
    } else {
        overlay_put(
            registered(overlay, tokens.drop_last(), values),
            tokens.last(),
            values[tokens.last()],
        )
    }
}

/// Whether the values hold every one of the tokens.
pub open spec fn all_known(tokens: Seq<Seq<char>>, values: Map<Seq<char>, i64>) -> bool {
    forall|i: int| 0 <= i < tokens.len() ==> values.contains_key(#[trigger] tokens[i])
}

/// The index of the first of the tokens that the values do not hold; the
/// number of the tokens where the values hold them all.
pub open spec fn first_unknown(tokens: Seq<Seq<char>>, values: Map<Seq<char>, i64>) -> int
    decreases tokens.len(),
{
    if tokens.len() == 0 {
        0
    } else {
        let before = first_unknown(tokens.drop_last(), values);
        if before < tokens.len() - 1 {
            before
        } else if values.contains_key(tokens.last()) {
            tokens.len() as int
        } else {
            tokens.len() - 1
        }
    }
}

/// A token that the values do not hold, behind tokens that they hold, is
/// the first that they do not hold.
pub proof fn lemma_first_unknown(tokens: Seq<Seq<char>>, values: Map<Seq<char>, i64>, at: int)
    requires
        0 <= at < tokens.len(),
        all_known(tokens.take(at), values),
        !values.contains_key(tokens[at]),
    ensures
        first_unknown(tokens, values) == at,
    decreases tokens.len(),
{
    let front = tokens.drop_last();
    if at < tokens.len() - 1 {
        assert(front.take(at) =~= tokens.take(at));
        assert(front[at] == tokens[at]);
        lemma_first_unknown(front, values, at);
    } else {
        assert(front =~= tokens.take(at));
        lemma_all_known(front, values);
    }
}

/// Where the values hold all of the tokens, none of them is the first that
/// they do not hold.
pub proof fn lemma_all_known(tokens: Seq<Seq<char>>, values: Map<Seq<char>, i64>)
    requires
        all_known(tokens, values),
    ensures
        first_unknown(tokens, values) == tokens.len(),
    decreases tokens.len(),
{
    if tokens.len() > 0 {
        let front = tokens.drop_last();
        assert forall|i: int| 0 <= i < front.len() implies values.contains_key(
            #[trigger] front[i],
        ) by {
            assert(front[i] == tokens[i]);
        }
        lemma_all_known(front, values);
        assert(values.contains_key(tokens[tokens.len() - 1]));
    }
}

/// The text of the error for a special token that the vocabulary lacks.
pub open spec fn not_found_message(token: Seq<char>) -> Seq<char> {
    "The special value "@ + token + " could not be found in the vocabulary"@
}

/// Registers a token as a special value: enters it into the overlay with
/// the id that the values give it. Fails where the values do not hold it.
pub fn register_as_special_value(
    token: &str,
    values: &StringHashMap<i64>,
    special_values: &mut Vec<(String, i64)>,
) -> (r: Result<(), TokenizerError>)
    ensures
        r is Ok <==> values@.contains_key(token@),
        r is Ok ==> entry_views(final(special_values)@) == overlay_put(
            entry_views(old(special_values)@),
            token@,
            values@[token@],
        ),
        r matches Err(e) ==> final(special_values)@ == old(special_values)@ && e
            == TokenizerError::TokenNotFound(e->TokenNotFound_0) && e->TokenNotFound_0@
            == not_found_message(token@),
{
    let token_id = match values.get(token) {
        Some(index) => *index,
        None => {
            let mut message = "The special value ".to_owned();
            message.append(token);
            message.append(" could not be found in the vocabulary");
            return Err(TokenizerError::TokenNotFound(message));
        },
    };
    overlay_set(special_values, token, token_id);
    Ok(())
}

/// The special tokens of a vocabulary by role.
#[derive(Debug, Clone)]
pub struct SpecialTokenMap {
    pub unk_token: String,
    pub pad_token: Option<String>,
    pub bos_token: Option<String>,
    pub sep_token: Option<String>,
    pub cls_token: Option<String>,
    pub eos_token: Option<String>,
    pub mask_token: Option<String>,
    pub additional_special_tokens: Option<Vec<String>>,
}

/// The special tokens of a vocabulary by role, as mathematical values.
pub struct SpecialTokenMapView {
    pub unk_token: Seq<char>,
    pub pad_token: Option<Seq<char>>,
    pub bos_token: Option<Seq<char>>,
    pub sep_token: Option<Seq<char>>,
    pub cls_token: Option<Seq<char>>,
    pub eos_token: Option<Seq<char>>,
    pub mask_token: Option<Seq<char>>,
    pub additional_special_tokens: Option<Seq<Seq<char>>>,
}

/// The text of an optional role.
pub open spec fn role_view(role: Option<String>) -> Option<Seq<char>> {
    match role {
        Some(token) => Some(token@),
        None => None,
    }
}

impl View for SpecialTokenMap {
    type V = SpecialTokenMapView;

    open spec fn view(&self) -> SpecialTokenMapView {
        SpecialTokenMapView {
            unk_token: self.unk_token@,
            pad_token: role_view(self.pad_token),
            bos_token: role_view(self.bos_token),
            sep_token: role_view(self.sep_token),
            cls_token: role_view(self.cls_token),
            eos_token: role_view(self.eos_token),
            mask_token: role_view(self.mask_token),
            additional_special_tokens: match self.additional_special_tokens {
                Some(tokens) => Some(views_of(tokens@)),
                None => None,
            },
        }
    }
}

/// The roles of a vocabulary whose only special token is its unknown token.
pub open spec fn unknown_role(unk_token: Seq<char>) -> SpecialTokenMapView {
    SpecialTokenMapView {
        unk_token,
        pad_token: None,
        bos_token: None,
        sep_token: None,
        cls_token: None,
        eos_token: None,
        mask_token: None,
        additional_special_tokens: None,
    }
}

/// The token of an optional role, if the role is filled.
pub open spec fn role_tokens(role: Option<String>) -> Seq<Seq<char>> {
    match role {
        Some(token) => seq![token@],
        None => seq![],
    }
}

impl SpecialTokenMap {
    /// The configured special tokens in the order in which they are
    /// registered: unknown, padding, begin, separator, class, end, mask, and
    /// then the additional ones.
    pub open spec fn configured_tokens(&self) -> Seq<Seq<char>> {
        seq![self.unk_token@] + role_tokens(self.pad_token) + role_tokens(self.bos_token)
            + role_tokens(self.sep_token) + role_tokens(self.cls_token) + role_tokens(
            self.eos_token,
        ) + role_tokens(self.mask_token) + match self.additional_special_tokens {
            Some(tokens) => views_of(tokens@),
            None => seq![],
        }
    }

    /// The configured special tokens in the order in which they are registered.
    pub fn tokens_in_order(&self) -> (r: Vec<String>)
        ensures
            views_of(r@) == self.configured_tokens(),
    {
        let mut tokens: Vec<String> = Vec::new();
        tokens.push(self.unk_token.clone());
        assert(views_of(tokens@) =~= seq![self.unk_token@]);
        push_role(&mut tokens, &self.pad_token);
        push_role(&mut tokens, &self.bos_token);
        push_role(&mut tokens, &self.sep_token);
        push_role(&mut tokens, &self.cls_token);
        push_role(&mut tokens, &self.eos_token);
        push_role(&mut tokens, &self.mask_token);
        match &self.additional_special_tokens {
            Some(additional) => {
                let ghost before = views_of(tokens@);
                let mut i: usize = 0;
                while i < additional.len()
                    invariant
                        i <= additional@.len(),
                        views_of(tokens@) == before + views_of(additional@).take(i as int),
                    decreases additional@.len() - i,
                {
                    let ghost current = views_of(tokens@);
                    tokens.push(additional[i].clone());
                    assert(views_of(tokens@) =~= current.push(additional@[i as int]@));
                    assert(views_of(additional@).take(i + 1) =~= views_of(additional@).take(
                        i as int,
                    ).push(additional@[i as int]@));
                    i += 1;
                    assert(views_of(tokens@) =~= before + views_of(additional@).take(i as int));
                }
                assert(views_of(additional@).take(i as int) =~= views_of(additional@));
            },
            None => {
                assert(views_of(tokens@) =~= views_of(tokens@) + Seq::<Seq<char>>::empty());
            },
        }
        tokens
    }

    /// Registers the configured special tokens in the overlay, each with the
    /// id that the values give it. Fails at the first one that the values
    /// lack; the ones before it are registered by then.
    pub fn register_special_values(
        &self,
        values: &StringHashMap<i64>,
        special_values: &mut Vec<(String, i64)>,
    ) -> (r: Result<(), TokenizerError>)
        ensures
            r is Ok <==> all_known(self.configured_tokens(), values@),
            r is Ok ==> entry_views(final(special_values)@) == registered(
                entry_views(old(special_values)@),
                self.configured_tokens(),
                values@,
            ),
            r matches Err(e) ==> ({
                let missing = first_unknown(self.configured_tokens(), values@);
                &&& 0 <= missing < self.configured_tokens().len()
                &&& e == TokenizerError::TokenNotFound(e->TokenNotFound_0)
                &&& e->TokenNotFound_0@ == not_found_message(self.configured_tokens()[missing])
                &&& entry_views(final(special_values)@) == registered(
                    entry_views(old(special_values)@),
                    self.configured_tokens().take(missing),
                    values@,
                )
            }),
    {
        let tokens = self.tokens_in_order();
        let ghost configured = self.configured_tokens();
        let ghost before = entry_views(special_values@);
        let mut i: usize = 0;
        assert(configured.take(0) =~= Seq::<Seq<char>>::empty());
        while i < tokens.len()
            invariant
                i <= tokens@.len(),
                configured == views_of(tokens@),
                configured == self.configured_tokens(),
                before == entry_views(old(special_values)@),
                all_known(configured.take(i as int), values@),
                entry_views(special_values@) == registered(
                    before,
                    configured.take(i as int),
                    values@,
                ),
            decreases tokens@.len() - i,
        {
            assert(configured.take(i + 1).drop_last() =~= configured.take(i as int));
            assert(configured.take(i + 1).last() == configured[i as int]);
            match register_as_special_value(tokens[i].as_str(), values, special_values) {
                Ok(_) => {},
                Err(e) => {
                    proof {
                        assert(!values@.contains_key(configured[i as int]));
                        lemma_first_unknown(configured, values@, i as int);
                    }
                    return Err(e);
                },
            }
            assert forall|j: int| 0 <= j < i + 1 implies values@.contains_key(
                #[trigger] configured.take(i + 1)[j],
            ) by {
                if j < i {
                    assert(configured.take(i as int)[j] == configured.take(i + 1)[j]);
                }
            }
            i += 1;
        }
        assert(configured.take(i as int) =~= configured);
        Ok(())
    }
}

/// Adds the token of an optional role to the list, if the role is filled.
fn push_role(tokens: &mut Vec<String>, role: &Option<String>)
    ensures
        views_of(final(tokens)@) == views_of(old(tokens)@) + role_tokens(*role),
{
    match role {
        Some(token) => {
            tokens.push(token.clone());
            assert(views_of(tokens@) =~= views_of(old(tokens)@) + seq![token@]);
        },
        None => {
            assert(views_of(tokens@) =~= views_of(old(tokens)@) + Seq::<Seq<char>>::empty());
        },
    }
}

/// A vocabulary as mathematical values.
pub struct VocabView {
    /// Id of each token.
    pub values: Map<Seq<char>, i64>,
    /// Token of each id.
    pub indices: Map<i64, Seq<char>>,
    /// The special tokens with their ids, in the order of their registration.
    pub special_values: Seq<TokenEntry>,
    /// Special token of each special id.
    pub special_indices: Map<i64, Seq<char>>,
    /// The token that stands for everything unknown.
    pub unknown: Seq<char>,
}

/// The tokens among the given ones that the values do not hold, in order.
pub open spec fn unknown_tokens(tokens: Seq<Seq<char>>, values: Map<Seq<char>, i64>) -> Seq<
    Seq<char>,
>
    decreases tokens.len(),
{
    if tokens.len() == 0 {
        seq![]
    } else {
        let before = unknown_tokens(tokens.drop_last(), values);
        if values.contains_key(tokens.last()) {
            before
        } else {
            before.push(tokens.last())
        }
    }
}

impl VocabView {
    /// The id of a token: that of the overlay where the token is special,
    /// else that of the values, else the id of the unknown token.
    pub open spec fn token_id(self, token: Seq<char>) -> i64 {
        match overlay_lookup(self.special_values, token) {
            Some(id) => id,
            None => if self.values.contains_key(token) {
                self.values[token]
            } else {
                self.values[self.unknown]
            },
        }
    }

    /// The token of an id: the special token where the id is special, else
    /// the token that the indices give, else the unknown token.
    pub open spec fn id_token(self, id: i64) -> Seq<char> {
        if self.special_indices.contains_key(id) {
            self.special_indices[id]
        } else if self.indices.contains_key(id) {
            self.indices[id]
        } else {
            self.unknown
        }
    }

    /// Whether the values hold the unknown token.
    pub open spec fn has_unknown(self) -> bool {
        self.values.contains_key(self.unknown)
    }

    /// The values hold the unknown token, the indices lead from the id of
    /// every token back to the token, every special token has in the overlay
    /// the id that the values give it, and the special indices lead from the
    /// special ids back to the special tokens and hold nothing else.
    pub open spec fn wf(self) -> bool {
        &&& self.has_unknown()
        &&& forall|t: Seq<char>| #[trigger]
            self.values.contains_key(t) ==> self.indices.contains_key(self.values[t])
                && self.indices[self.values[t]] == t
        &&& forall|i: int|
            0 <= i < self.special_values.len() ==> {
                let entry = #[trigger] self.special_values[i];
                &&& self.values.contains_key(entry.0)
                &&& self.values[entry.0] == entry.1
                &&& self.special_indices.contains_key(entry.1)
                &&& self.special_indices[entry.1] == entry.0
            }
        &&& forall|id: i64| #[trigger]
            self.special_indices.contains_key(id) ==> overlay_lookup(
                self.special_values,
                self.special_indices[id],
            ) == Some(id)
    }

    /// The vocabulary after the given tokens were added in order, the first
    /// with the id `first_id` and each later one with the next id. Every
    /// added token is special.
    pub open spec fn with_tokens_from(self, tokens: Seq<Seq<char>>, first_id: int) -> VocabView
        decreases tokens.len(),
    {
        if tokens.len() == 0 {
            self
        } else {
            let before = self.with_tokens_from(tokens.drop_last(), first_id);
            let id = (first_id + tokens.len() - 1) as i64;
            let token = tokens.last();
            VocabView {
                values: before.values.insert(token, id),
                indices: before.indices.insert(id, token),
                special_values: overlay_put(before.special_values, token, id),
                special_indices: before.special_indices.insert(id, token),
                unknown: before.unknown,
            }
        }
    }

    /// The vocabulary after those of the given tokens that it did not hold
    /// were added, with the ids that follow the number of tokens it held.
    pub open spec fn with_tokens(self, tokens: Seq<Seq<char>>) -> VocabView {
        self.with_tokens_from(unknown_tokens(tokens, self.values), self.values.len() as int)
    }
}

/// In a well-formed vocabulary the id of a token of the values leads back
/// to the token, and a special token has the id of the overlay even where
/// the values hold the same token.
pub proof fn lemma_token_round_trip(vocab: VocabView, token: Seq<char>)
    requires
        vocab.wf(),
        vocab.values.contains_key(token),
    ensures
        vocab.id_token(vocab.token_id(token)) == token,
        overlay_lookup(vocab.special_values, token) matches Some(id) ==> vocab.token_id(token)
            == id,
{
    lemma_overlay_find(vocab.special_values, token);
    match overlay_find(vocab.special_values, token) {
        Some(i) => {
            assert(vocab.special_values[i].0 == token);
        },
        None => {
            let id = vocab.values[token];
            if vocab.special_indices.contains_key(id) {
                let special = vocab.special_indices[id];
                lemma_overlay_find(vocab.special_values, special);
                let k = overlay_find(vocab.special_values, special)->0;
                assert(vocab.special_values[k].0 == special);
                assert(vocab.values[special] == id);
                assert(vocab.indices[vocab.values[special]] == special);
                assert(vocab.indices[vocab.values[token]] == token);
            }
        },
    }
}

/// The map from id to token for the entries that the values still hold:
/// an entry whose token has another id in the values by now is left out. Of
/// two entries with the same id the later one counts.
pub open spec fn inverse_map(entries: Seq<TokenEntry>, values: Map<Seq<char>, i64>) -> Map<
    i64,
    Seq<char>,
>
    decreases entries.len(),
{
    if entries.len() == 0 {
        Map::empty()
    } else {
        let before = inverse_map(entries.drop_last(), values);
        let entry = entries.last();
        if values.contains_key(entry.0) && values[entry.0] == entry.1 {
            before.insert(entry.1, entry.0)
        } else {
            before
        }
    }
}

/// Whether different tokens have different ids.
pub open spec fn ids_distinct(values: Map<Seq<char>, i64>) -> bool {
    forall|a: Seq<char>, b: Seq<char>|
        #![trigger values[a], values[b]]
        values.contains_key(a) && values.contains_key(b) && values[a] == values[b] ==> a == b
}

/// Every token of the map that entries describe stands in one of the entries
/// with the id that the map gives it.
pub proof fn lemma_entries_map(entries: Seq<TokenEntry>, t: Seq<char>)
    ensures
        entries_map(entries).contains_key(t) ==> exists|i: int|
            0 <= i < entries.len() && #[trigger] entries[i] == (t, entries_map(entries)[t]),
    decreases entries.len(),
{
    if entries.len() > 0 {
        let front = entries.drop_last();
        lemma_entries_map(front, t);
        if entries_map(entries).contains_key(t) {
            if entries.last().0 == t {
                assert(entries[entries.len() - 1] == (t, entries_map(entries)[t]));
            } else {
                let i = choose|i: int|
                    0 <= i < front.len() && #[trigger] front[i] == (t, entries_map(front)[t]);
                assert(entries[i] == front[i]);
            }
        }
    }
}

/// The inverse holds only pairs of the values, and, where different tokens
/// have different ids, it holds the pair of every entry that the values
/// still hold.
pub proof fn lemma_inverse_map(entries: Seq<TokenEntry>, values: Map<Seq<char>, i64>)
    ensures
        forall|id: i64| #[trigger]
            inverse_map(entries, values).contains_key(id) ==> {
                &&& values.contains_key(inverse_map(entries, values)[id])
                &&& values[inverse_map(entries, values)[id]] == id
            },
        ids_distinct(values) ==> forall|i: int|
            0 <= i < entries.len() && values.contains_key((#[trigger] entries[i]).0)
                && values[entries[i].0] == entries[i].1 ==> {
                &&& inverse_map(entries, values).contains_key(entries[i].1)
                &&& inverse_map(entries, values)[entries[i].1] == entries[i].0
            },
    decreases entries.len(),
{
    if entries.len() > 0 {
        let front = entries.drop_last();
        lemma_inverse_map(front, values);
        let before = inverse_map(front, values);
        let all = inverse_map(entries, values);
        assert forall|id: i64| #[trigger] all.contains_key(id) implies values.contains_key(
            all[id],
        ) && values[all[id]] == id by {
            if before.contains_key(id) {
                assert(values.contains_key(before[id]) && values[before[id]] == id);
            }
        }
        if ids_distinct(values) {
            assert forall|i: int|
                0 <= i < entries.len() && values.contains_key((#[trigger] entries[i]).0)
                    && values[entries[i].0] == entries[i].1 implies {
                &&& inverse_map(entries, values).contains_key(entries[i].1)
                &&& inverse_map(entries, values)[entries[i].1] == entries[i].0
            } by {
                if i < front.len() {
                    assert(front[i] == entries[i]);
                    let last = entries.last();
                    if values.contains_key(last.0) && values[last.0] == last.1 && last.1
                        == entries[i].1 {
                        assert(values[last.0] == values[entries[i].0]);
                    }
                }
            }
        }
    }
}

/// The overlay that registration leaves holds each token once, each with
/// the id that the values give it.
pub proof fn lemma_registered(
    overlay: Seq<TokenEntry>,
    tokens: Seq<Seq<char>>,
    values: Map<Seq<char>, i64>,
)
    requires
        overlay_distinct(overlay),
        all_known(tokens, values),
        forall|i: int|
            0 <= i < overlay.len() ==> values.contains_key((#[trigger] overlay[i]).0)
                && values[overlay[i].0] == overlay[i].1,
    ensures
        overlay_distinct(registered(overlay, tokens, values)),
        forall|i: int|
            0 <= i < registered(overlay, tokens, values).len() ==> values.contains_key(
                (#[trigger] registered(overlay, tokens, values)[i]).0,
            ) && values[registered(overlay, tokens, values)[i].0] == registered(
                overlay,
                tokens,
                values,
            )[i].1,
    decreases tokens.len(),
{
    if tokens.len() > 0 {
        let front = tokens.drop_last();
        assert forall|i: int| 0 <= i < front.len() implies values.contains_key(
            #[trigger] front[i],
        ) by {
            assert(front[i] == tokens[i]);
        }
        lemma_registered(overlay, front, values);
        let before = registered(overlay, front, values);
        let token = tokens.last();
        assert(values.contains_key(tokens[tokens.len() - 1]));
        lemma_overlay_put(before, token, values[token]);
        lemma_overlay_find(before, token);
        let after = registered(overlay, tokens, values);
        assert forall|i: int| 0 <= i < after.len() implies values.contains_key(
            (#[trigger] after[i]).0,
        ) && values[after[i].0] == after[i].1 by {
            if i < before.len() && after[i] == before[i] {
            }
        }
    }
}

/// The swapped map of an overlay that holds each token once, where
/// different tokens have different ids, leads from each id back to its
/// token and holds nothing else.
pub proof fn lemma_swapped_overlay(overlay: Seq<TokenEntry>, values: Map<Seq<char>, i64>)
    requires
        overlay_distinct(overlay),
        ids_distinct(values),
        forall|i: int|
            0 <= i < overlay.len() ==> values.contains_key((#[trigger] overlay[i]).0)
                && values[overlay[i].0] == overlay[i].1,
    ensures
        forall|i: int|
            0 <= i < overlay.len() ==> swapped_map(overlay).contains_key(
                (#[trigger] overlay[i]).1,
            ) && swapped_map(overlay)[overlay[i].1] == overlay[i].0,
        forall|id: i64| #[trigger]
            swapped_map(overlay).contains_key(id) ==> overlay_lookup(
                overlay,
                swapped_map(overlay)[id],
            ) == Some(id),
    decreases overlay.len(),
{
    if overlay.len() > 0 {
        let front = overlay.drop_last();
        let last = overlay.last();
        assert forall|i: int| 0 <= i < front.len() implies values.contains_key(
            (#[trigger] front[i]).0,
        ) && values[front[i].0] == front[i].1 by {
            assert(front[i] == overlay[i]);
        }
        assert(overlay_distinct(front)) by {
            assert forall|i: int, j: int| 0 <= i < j < front.len() implies (
            #[trigger] front[i]).0 != (#[trigger] front[j]).0 by {
                assert(front[i] == overlay[i]);
                assert(front[j] == overlay[j]);
            }
        }
        lemma_swapped_overlay(front, values);
        assert forall|i: int| 0 <= i < overlay.len() implies swapped_map(overlay).contains_key(
            (#[trigger] overlay[i]).1,
        ) && swapped_map(overlay)[overlay[i].1] == overlay[i].0 by {
            if i < front.len() {
                assert(front[i] == overlay[i]);
                if overlay[i].1 == last.1 {
                    assert(values[overlay[i].0] == values[overlay[overlay.len() - 1].0]);
                }
            }
        }
        assert forall|id: i64| #[trigger]
            swapped_map(overlay).contains_key(id) implies overlay_lookup(
            overlay,
            swapped_map(overlay)[id],
        ) == Some(id) by {
            let token = swapped_map(overlay)[id];
            lemma_overlay_find(overlay, token);
            lemma_overlay_find(front, token);
            if id == last.1 {
                assert(overlay[overlay.len() - 1].0 == token);
                let k = overlay_find(overlay, token)->0;
                if k < overlay.len() - 1 {
                    assert(overlay[k].0 != overlay[overlay.len() - 1].0);
                }
            } else {
                let k = overlay_find(front, token)->0;
                assert(front[k] == overlay[k]);
            }
        }
    }
}

/// The vocabulary that entries and configured special tokens describe.
pub open spec fn built_vocab(
    entries: Seq<TokenEntry>,
    configured: Seq<Seq<char>>,
    unknown: Seq<char>,
) -> VocabView {
    let values = entries_map(entries);
    let special_values = registered(seq![], configured, values);
    VocabView {
        values,
        indices: inverse_map(entries, values),
        special_values,
        special_indices: swapped_map(special_values),
        unknown,
    }
}

/// A vocabulary built from entries in which different tokens have
/// different ids, with special tokens that the entries hold, the unknown
/// token first among them, is well-formed.
pub proof fn lemma_built_vocab_wf(
    entries: Seq<TokenEntry>,
    configured: Seq<Seq<char>>,
    unknown: Seq<char>,
)
    requires
        ids_distinct(entries_map(entries)),
        all_known(configured, entries_map(entries)),
        configured.len() > 0,
        configured[0] == unknown,
    ensures
        built_vocab(entries, configured, unknown).wf(),
{
    let values = entries_map(entries);
    let vocab = built_vocab(entries, configured, unknown);
    lemma_registered(seq![], configured, values);
    lemma_swapped_overlay(vocab.special_values, values);
    lemma_inverse_map(entries, values);
    assert forall|t: Seq<char>| #[trigger] values.contains_key(t) implies
        vocab.indices.contains_key(
        values[t],
    ) && vocab.indices[values[t]] == t by {
        lemma_entries_map(entries, t);
        let i = choose|i: int| 0 <= i < entries.len() && #[trigger] entries[i] == (t, values[t]);
        assert(entries[i].0 == t);
    }
}

/// The map from id to token for the entries that the values still hold.
pub fn invert_values(
    entries: &Vec<(String, i64)>,
    values: &StringHashMap<i64>,
) -> (r: HashMap< i64, String, >)
    ensures
        index_view(r@) == inverse_map(entry_views(entries@), values@),
{
    let ghost views = entry_views(entries@);
    let mut indices: HashMap<i64, String> = HashMap::new();
    let mut i: usize = 0;
    assert(views.take(0) =~= Seq::<TokenEntry>::empty());
    assert(index_view(indices@) =~= Map::<i64, Seq<char>>::empty());
    while i < entries.len()
        invariant
            i <= entries@.len(),
            views == entry_views(entries@),
            index_view(indices@) == inverse_map(views.take(i as int), values@),
        decreases entries@.len() - i,
    {
        let ghost before = index_view(indices@);
        assert(views.take(i + 1).drop_last() =~= views.take(i as int));
        assert(views.take(i + 1).last() == views[i as int]);
        let current = match values.get(entries[i].0.as_str()) {
            Some(id) => *id == entries[i].1,
            None => false,
        };
        if current {
            indices.insert(entries[i].1, entries[i].0.clone());
            assert(index_view(indices@) =~= before.insert(views[i as int].1, views[i as int].0));
        }
        i += 1;
    }
    assert(views.take(i as int) =~= views);
    indices
}

/// The parts of a vocabulary.
pub struct VocabParts {
    pub values: StringHashMap<i64>,
    pub indices: HashMap<i64, String>,
    pub special_values: Vec<(String, i64)>,
    pub special_indices: HashMap<i64, String>,
}

impl VocabParts {
    /// The parts as mathematical values, together with an unknown token.
    pub open spec fn view_with(&self, unknown: Seq<char>) -> VocabView {
        VocabView {
            values: self.values@,
            indices: index_view(self.indices@),
            special_values: entry_views(self.special_values@),
            special_indices: index_view(self.special_indices@),
            unknown,
        }
    }
}

/// Builds the parts of a vocabulary from its entries and its special
/// tokens. Fails where a configured special token is not among the entries.
pub fn build_vocab(
    values: &Vec<(String, i64)>,
    special_token_map: &SpecialTokenMap,
) -> (r: Result< VocabParts, TokenizerError, >)
    ensures
        r is Ok <==> all_known(
            special_token_map.configured_tokens(),
            entries_map(entry_views(values@)),
        ),
        r matches Ok(parts) ==> parts.view_with(special_token_map.unk_token@) == built_vocab(
            entry_views(values@),
            special_token_map.configured_tokens(),
            special_token_map.unk_token@,
        ),
        r matches Err(e) ==> e is TokenNotFound,
{
    let value_map = collect_values(values);
    let mut special_values: Vec<(String, i64)> = Vec::new();
    assert(entry_views(special_values@) =~= Seq::<TokenEntry>::empty());
    match special_token_map.register_special_values(&value_map, &mut special_values) {
        Ok(_) => {},
        Err(e) => {
            return Err(e);
        },
    }
    let indices = invert_values(values, &value_map);
    let special_indices = swap_key_values(&special_values);
    Ok(VocabParts { values: value_map, indices, special_values, special_indices })
}

/// The ids of the given tokens.
pub open spec fn token_ids(vocab: VocabView, tokens: Seq<Seq<char>>) -> Seq<i64> {
    Seq::new(tokens.len(), |i: int| vocab.token_id(tokens[i]))
}

/// The views of a sequence of borrowed texts.
pub open spec fn str_views(texts: Seq<&str>) -> Seq<Seq<char>> {
    texts.map_values(|s: &str| s@)
}

/// The common interface of the vocabularies.
pub trait Vocab: Sized {
    /// The vocabulary as mathematical values.
    spec fn vocab_view(&self) -> VocabView;

    /// The special tokens of the vocabulary by role.
    spec fn roles(&self) -> SpecialTokenMapView;

    /// The token that stands for everything unknown.
    fn get_unknown_value(&self) -> (r: &str)
        ensures
            r@ == self.vocab_view().unknown,
    ;

    /// The map from tokens to ids.
    fn values(&self) -> (r: &StringHashMap<i64>)
        ensures
            r@ == self.vocab_view().values,
    ;

    /// The map from ids to tokens.
    fn indices(&self) -> (r: &HashMap<i64, String>)
        ensures
            index_view(r@) == self.vocab_view().indices,
    ;

    /// The special tokens with their ids, in the order of their registration.
    fn special_values(&self) -> (r: &Vec<(String, i64)>)
        ensures
            entry_views(r@) == self.vocab_view().special_values,
    ;

    /// The map from special ids to special tokens.
    fn special_indices(&self) -> (r: &HashMap<i64, String>)
        ensures
            index_view(r@) == self.vocab_view().special_indices,
    ;

    /// The map from tokens to ids, to change it.
    fn values_mut(&mut self) -> (r: &mut StringHashMap<i64>)
        ensures
            r@ == old(self).vocab_view().values,
            final(self).vocab_view() == (VocabView {
                values: final(r)@,
                ..old(self).vocab_view()
            }),
    ;

    /// The map from ids to tokens, to change it.
    fn indices_mut(&mut self) -> (r: &mut HashMap<i64, String>)
        ensures
            index_view(r@) == old(self).vocab_view().indices,
            final(self).vocab_view() == (VocabView {
                indices: index_view(final(r)@),
                ..old(self).vocab_view()
            }),
    ;

    /// The special tokens with their ids, to change them.
    fn special_values_mut(&mut self) -> (r: &mut Vec<(String, i64)>)
        ensures
            entry_views(r@) == old(self).vocab_view().special_values,
            final(self).vocab_view() == (VocabView {
                special_values: entry_views(final(r)@),
                ..old(self).vocab_view()
            }),
    ;

    /// The map from special ids to special tokens, to change it.
    fn special_indices_mut(&mut self) -> (r: &mut HashMap<i64, String>)
        ensures
            index_view(r@) == old(self).vocab_view().special_indices,
            final(self).vocab_view() == (VocabView {
                special_indices: index_view(final(r)@),
                ..old(self).vocab_view()
            }),
    ;

    /// Reads a vocabulary from a text in the format of the implementor.
    fn from_cache(text: &str) -> (r: Result<Self, TokenizerError>)
        ensures
            r matches Ok(vocab) ==> vocab.vocab_view().has_unknown(),
    ;

    /// Builds a vocabulary from entries and special tokens. Fails where a
    /// configured special token is not among the entries.
    fn from_values_and_special_token_map(
        values: Vec<(String, i64)>,
        special_token_map: SpecialTokenMap,
    ) -> (r: Result<Self, TokenizerError>)
        ensures
            r is Ok <==> all_known(
                special_token_map.configured_tokens(),
                entries_map(entry_views(values@)),
            ),
            r matches Ok(vocab) ==> vocab.vocab_view() == built_vocab(
                entry_views(values@),
                special_token_map.configured_tokens(),
                special_token_map.unk_token@,
            ),
            r matches Ok(vocab) ==> vocab.roles() == special_token_map@,
            r matches Err(e) ==> e is TokenNotFound,
    ;

    /// The id of a token, given the maps: that of the overlay where the
    /// token is special, else that of the values, else the id of the unknown
    /// token.
    fn _token_to_id(
        &self,
        token: &str,
        values: &StringHashMap<i64>,
        special_values: &Vec<(String, i64)>,
        unknown_value: &str,
    ) -> (r: i64)
        requires
            values@.contains_key(unknown_value@),
        ensures
            r == (VocabView {
                values: values@,
                indices: Map::empty(),
                special_values: entry_views(special_values@),
                special_indices: Map::empty(),
                unknown: unknown_value@,
            }).token_id(token@),
    {
        match overlay_get(special_values, token) {
            Some(index) => index,
            None => match values.get(token) {
                Some(index) => *index,
                None => *values.get(unknown_value).unwrap(),
            },
        }
    }

    /// The token of an id, given the maps: the special token where the id
    /// is special, else the token that the indices give, else the unknown
    /// token.
    fn _id_to_token(
        &self,
        id: &i64,
        indices: &HashMap<i64, String>,
        special_indices: &HashMap<i64, String>,
        unknown_value: &str,
    ) -> (r: String)
        ensures
            r@ == (VocabView {
                values: Map::empty(),
                indices: index_view(indices@),
                special_values: seq![],
                special_indices: index_view(special_indices@),
                unknown: unknown_value@,
            }).id_token(*id),
    {
        match special_indices.get(id) {
            Some(token) => token.clone(),
            None => match indices.get(id) {
                Some(token) => token.clone(),
                None => unknown_value.to_owned(),
            },
        }
    }

    /// The id of a token. A token that the vocabulary does not hold has the
    /// id of the unknown token.
    fn token_to_id(&self, token: &str) -> (r: i64)
        requires
            self.vocab_view().has_unknown(),
        ensures
            r == self.vocab_view().token_id(token@),
    ;

    /// The token of an id. An id that the vocabulary does not hold gives the
    /// unknown token.
    fn id_to_token(&self, id: &i64) -> (r: String)
        ensures
            r@ == self.vocab_view().id_token(*id),
    ;

    /// The ids of the given tokens.
    fn convert_tokens_to_ids(&self, tokens: &[&str]) -> (r: Vec<i64>)
        requires
            self.vocab_view().has_unknown(),
        ensures
            r@ == token_ids(self.vocab_view(), str_views(tokens@)),
    {
        let mut ids: Vec<i64> = Vec::new();
        let mut i: usize = 0;
        while i < tokens.len()
            invariant
                i <= tokens@.len(),
                self.vocab_view().has_unknown(),
                ids@ == token_ids(self.vocab_view(), str_views(tokens@)).take(i as int),
            decreases tokens@.len() - i,
        {
            ids.push(self.token_to_id(tokens[i]));
            i += 1;
            assert(ids@ =~= token_ids(self.vocab_view(), str_views(tokens@)).take(i as int));
        }
        assert(token_ids(self.vocab_view(), str_views(tokens@)).take(i as int) =~= token_ids(
            self.vocab_view(),
            str_views(tokens@),
        ));
        ids
    }

    /// Adds the tokens `<extra_id_0>`, `<extra_id_1>` and so on to the
    /// vocabulary, as many as asked for, as special tokens.
    fn add_extra_ids(&mut self, num_extra_ids: i64)
        requires
            old(self).vocab_view().values.len() + extra_id_tokens(num_extra_ids as int).len()
                <= i64::MAX,
        ensures
            final(self).vocab_view() == old(self).vocab_view().with_tokens(
                extra_id_tokens(num_extra_ids as int),
            ),
            final(self).roles() == old(self).roles(),
    {
        let names = extra_id_names(num_extra_ids);
        let borrowed = borrow_all(&names);
        self.add_tokens(borrowed.as_slice());
    }

    /// Adds to the vocabulary those of the given tokens that it does not
    /// hold yet, with the ids that follow the number of tokens held, and
    /// makes each of them special. Tokens that it holds stay as they are.
    fn add_tokens(&mut self, tokens: &[&str])
        requires
            old(self).vocab_view().values.len() + tokens@.len() <= i64::MAX,
        ensures
            final(self).vocab_view() == old(self).vocab_view().with_tokens(str_views(tokens@)),
            final(self).roles() == old(self).roles(),
    ;
}

/// Base vocabulary, read from a text with one token per line. Its unknown
/// token is `[UNK]`.
pub struct BaseVocab {
    /// Id of each token.
    pub values: StringHashMap<i64>,
    /// Token of each id.
    pub indices: HashMap<i64, String>,
    /// The special tokens by role.
    pub special_token_map: SpecialTokenMap,
    /// The special tokens with their ids, in the order of their registration.
    pub special_values: Vec<(String, i64)>,
    /// Special token of each special id.
    pub special_indices: HashMap<i64, String>,
}

pub const DEFAULT_UNK_TOKEN: &'static str = "[UNK]";

/// A special token map with the given unknown token and no other role filled.
pub fn unknown_only(unk_token: &str) -> (r: SpecialTokenMap)
    ensures
        r@ == unknown_role(unk_token@),
        r.configured_tokens() == seq![unk_token@],
{
    let map = SpecialTokenMap {
        unk_token: unk_token.to_owned(),
        pad_token: None,
        bos_token: None,
        sep_token: None,
        cls_token: None,
        eos_token: None,
        mask_token: None,
        additional_special_tokens: None,
    };
    assert(map.configured_tokens() =~= seq![unk_token@]);
    map
}

impl Vocab for BaseVocab {
    open spec fn roles(&self) -> SpecialTokenMapView {
        self.special_token_map@
    }

    open spec fn vocab_view(&self) -> VocabView {
        VocabView {
            values: self.values@,
            indices: index_view(self.indices@),
            special_values: entry_views(self.special_values@),
            special_indices: index_view(self.special_indices@),
            unknown: self.special_token_map.unk_token@,
        }
    }

    fn get_unknown_value(&self) -> (r: &str) {
        self.special_token_map.unk_token.as_str()
    }

    fn values(&self) -> (r: &StringHashMap<i64>) {
        &self.values
    }

    fn indices(&self) -> (r: &HashMap<i64, String>) {
        &self.indices
    }

    fn special_values(&self) -> (r: &Vec<(String, i64)>) {
        &self.special_values
    }

    fn special_indices(&self) -> (r: &HashMap<i64, String>) {
        &self.special_indices
    }

    fn values_mut(&mut self) -> (r: &mut StringHashMap<i64>) {
        &mut self.values
    }

    fn indices_mut(&mut self) -> (r: &mut HashMap<i64, String>) {
        &mut self.indices
    }

    fn special_values_mut(&mut self) -> (r: &mut Vec<(String, i64)>) {
        &mut self.special_values
    }

    fn special_indices_mut(&mut self) -> (r: &mut HashMap<i64, String>) {
        &mut self.special_indices
    }

    /// Reads a vocabulary from a text with one token per line, the id of a
    /// token being the number of its line. Fails where no line holds `[UNK]`.
    fn from_cache(text: &str) -> (r: Result<BaseVocab, TokenizerError>)
        ensures
            r is Ok <==> lines_of(text@).len() <= 0x8000_0000_0000_0000 && entries_map(
                flat_entries(lines_of(text@)),
            ).contains_key(DEFAULT_UNK_TOKEN@),
            r matches Ok(vocab) ==> vocab.vocab_view() == built_vocab(
                flat_entries(lines_of(text@)),
                seq![DEFAULT_UNK_TOKEN@],
                DEFAULT_UNK_TOKEN@,
            ),
            r matches Ok(vocab) ==> vocab.roles() == unknown_role(DEFAULT_UNK_TOKEN@),
    {
        let values = match read_flat_string(text) {
            Ok(values) => values,
            Err(e) => {
                return Err(e);
            },
        };
        let special_token_map = unknown_only(DEFAULT_UNK_TOKEN);
        proof {
            let tokens = seq![DEFAULT_UNK_TOKEN@];
            let map = entries_map(entry_views(values@));
            assert(all_known(tokens, map) <==> map.contains_key(tokens[0]));
        }
        let built = Self::from_values_and_special_token_map(values, special_token_map);
        proof {
            if built is Ok {
                lemma_built_has_unknown(
                    flat_entries(lines_of(text@)),
                    seq![DEFAULT_UNK_TOKEN@],
                    DEFAULT_UNK_TOKEN@,
                );
            }
        }
        built
    }

    fn from_values_and_special_token_map(
        values: Vec<(String, i64)>,
        special_token_map: SpecialTokenMap,
    ) -> (r: Result<Self, TokenizerError>) {
        match build_vocab(&values, &special_token_map) {
            Ok(parts) => Ok(
                BaseVocab {
                    values: parts.values,
                    indices: parts.indices,
                    special_token_map,
                    special_values: parts.special_values,
                    special_indices: parts.special_indices,
                },
            ),
            Err(e) => Err(e),
        }
    }

    fn token_to_id(&self, token: &str) -> (r: i64) {
        self._token_to_id(token, &self.values, &self.special_values, self.get_unknown_value())
    }

    fn id_to_token(&self, id: &i64) -> (r: String) {
        self._id_to_token(id, &self.indices, &self.special_indices, self.get_unknown_value())
    }

    fn add_tokens(&mut self, tokens: &[&str]) {
        let mut parts = VocabParts {
            values: StringHashMap::new(),
            indices: HashMap::new(),
            special_values: Vec::new(),
            special_indices: HashMap::new(),
        };
        core::mem::swap(&mut parts.values, &mut self.values);
        core::mem::swap(&mut parts.indices, &mut self.indices);
        core::mem::swap(&mut parts.special_values, &mut self.special_values);
        core::mem::swap(&mut parts.special_indices, &mut self.special_indices);
        add_tokens_to(&mut parts, tokens);
        self.values = parts.values;
        self.indices = parts.indices;
        self.special_values = parts.special_values;
        self.special_indices = parts.special_indices;
        assert(self.vocab_view() == parts.view_with(self.special_token_map.unk_token@));
    }
}

/// A vocabulary that was built with its unknown token among the configured
/// special tokens holds the unknown token.
pub proof fn lemma_built_has_unknown(
    entries: Seq<TokenEntry>,
    configured: Seq<Seq<char>>,
    unknown: Seq<char>,
)
    requires
        all_known(configured, entries_map(entries)),
        configured.len() > 0,
        configured[0] == unknown,
    ensures
        built_vocab(entries, configured, unknown).has_unknown(),
{
}

/// The tokens that are added as extra ids: `<extra_id_0>`, `<extra_id_1>`
/// and so on, as many as asked for.
pub open spec fn extra_id_tokens(count: int) -> Seq<Seq<char>> {
    Seq::new(
        if count > 0 {
            count as nat
        } else {
            0
        },
        |i: int| "<extra_id_"@ + decimal_digits(i as nat) + ">"@,
    )
}

/// The names of the extra ids.
pub fn extra_id_names(num_extra_ids: i64) -> (r: Vec<String>)
    ensures
        views_of(r@) == extra_id_tokens(num_extra_ids as int),
        r@.len() == extra_id_tokens(num_extra_ids as int).len(),
{
    let mut names: Vec<String> = Vec::new();
    let mut extra_id: i64 = 0;
    while extra_id < num_extra_ids
        invariant
            0 <= extra_id,
            extra_id <= num_extra_ids || num_extra_ids < 0,
            num_extra_ids < 0 ==> extra_id == 0,
            names@.len() == extra_id,
            forall|j: int| 0 <= j < extra_id ==>
                #[trigger] views_of(names@)[j] == extra_id_tokens(num_extra_ids as int)[j],
        decreases num_extra_ids - extra_id,
    {
        let ghost before = views_of(names@);
        let mut name = "<extra_id_".to_owned();
        push_decimal(extra_id as u64, &mut name);
        name.append(">");
        names.push(name);
        assert forall|j: int| 0 <= j < extra_id + 1 implies #[trigger] views_of(names@)[j]
            == extra_id_tokens(num_extra_ids as int)[j] by {
            if j < extra_id {
                assert(views_of(names@)[j] == before[j]);
            }
        }
        extra_id += 1;
    }
    assert(views_of(names@) =~= extra_id_tokens(num_extra_ids as int));
    names
}

/// The given strings, borrowed.
pub fn borrow_all<'a>(texts: &'a Vec<String>) -> (r: Vec<&'a str>)
    ensures
        str_views(r@) == views_of(texts@),
        r@.len() == texts@.len(),
{
    let mut borrowed: Vec<&'a str> = Vec::new();
    let mut i: usize = 0;
    while i < texts.len()
        invariant
            i <= texts@.len(),
            borrowed@.len() == i,
            str_views(borrowed@) == views_of(texts@).take(i as int),
        decreases texts@.len() - i,
    {
        let ghost before = str_views(borrowed@);
        borrowed.push(texts[i].as_str());
        assert(str_views(borrowed@) =~= before.push(texts@[i as int]@));
        assert(views_of(texts@).take(i + 1) =~= views_of(texts@).take(i as int).push(
            texts@[i as int]@,
        ));
        i += 1;
        assert(str_views(borrowed@) =~= views_of(texts@).take(i as int));
    }
    assert(views_of(texts@).take(i as int) =~= views_of(texts@));
    borrowed
}

/// Those of the given tokens that the values do not hold.
fn select_unknown<'a>(tokens: &[&'a str], values: &StringHashMap<i64>) -> (r: Vec<&'a str>)
    ensures
        str_views(r@) == unknown_tokens(str_views(tokens@), values@),
        r@.len() <= tokens@.len(),
{
    let ghost views = str_views(tokens@);
    let mut selected: Vec<&'a str> = Vec::new();
    let mut i: usize = 0;
    assert(views.take(0) =~= Seq::<Seq<char>>::empty());
    while i < tokens.len()
        invariant
            i <= tokens@.len(),
            views == str_views(tokens@),
            selected@.len() <= i,
            str_views(selected@) == unknown_tokens(views.take(i as int), values@),
        decreases tokens@.len() - i,
    {
        let ghost before = str_views(selected@);
        assert(views.take(i + 1).drop_last() =~= views.take(i as int));
        assert(views.take(i + 1).last() == tokens@[i as int]@);
        if !values.contains_key(tokens[i]) {
            selected.push(tokens[i]);
            assert(str_views(selected@) =~= before.push(tokens@[i as int]@));
        }
        i += 1;
    }
    assert(views.take(i as int) =~= views);
    selected
}

/// Adds to the parts of a vocabulary those of the given tokens that the
/// values do not hold yet, with the ids that follow the number of tokens
/// held, and makes each of them special.
pub fn add_tokens_to(parts: &mut VocabParts, tokens: &[&str])
    requires
        old(parts).values@.len() + tokens@.len() <= i64::MAX,
    ensures
        forall|unknown: Seq<char>|
            #[trigger] final(parts).view_with(unknown) == old(parts).view_with(
                unknown,
            ).with_tokens(str_views(tokens@)),
{
    broadcast use vstd::hash_map::axiom_string_hash_map_spec_len;

    let to_add = select_unknown(tokens, &parts.values);
    let first: usize = parts.values.len();
    let ghost added = str_views(to_add@);
    let ghost start = *parts;
    let mut k: usize = 0;
    assert(added.take(0) =~= Seq::<Seq<char>>::empty());
    while k < to_add.len()
        invariant
            k <= to_add@.len(),
            added == str_views(to_add@),
            first + to_add@.len() <= i64::MAX,
            forall|unknown: Seq<char>|
                #[trigger] parts.view_with(unknown) == start.view_with(unknown).with_tokens_from(
                    added.take(k as int),
                    first as int,
                ),
        decreases to_add@.len() - k,
    {
        let ghost before = *parts;
        let id: i64 = first as i64 + k as i64;
        let token = to_add[k];
        assert(added.take(k + 1).drop_last() =~= added.take(k as int));
        assert(added.take(k + 1).last() == token@);
        parts.values.insert(token.to_owned(), id);
        parts.indices.insert(id, token.to_owned());
        overlay_set(&mut parts.special_values, token, id);
        parts.special_indices.insert(id, token.to_owned());
        assert(index_view(parts.indices@) =~= index_view(before.indices@).insert(id, token@));
        assert(index_view(parts.special_indices@) =~= index_view(
            before.special_indices@,
        ).insert(id, token@));
        k += 1;
        assert forall|unknown: Seq<char>|
            #[trigger] parts.view_with(unknown) == start.view_with(unknown).with_tokens_from(
                added.take(k as int),
                first as int,
            ) by {
            let earlier = start.view_with(unknown).with_tokens_from(
                added.take(k - 1),
                first as int,
            );
            assert(earlier == before.view_with(unknown));
            assert(id == (first + added.take(k as int).len() - 1) as i64);
        }
    }
    assert(added.take(k as int) =~= added);
}

} // verus!
