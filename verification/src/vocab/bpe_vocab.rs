//! The merge table: ordered pairs of pieces, each with the rank at which it
//! is merged. A lower rank merges first.
use vstd::hash_map::StringHashMap;
use vstd::prelude::*;
use crate::error::TokenizerError;
use crate::text::{
    chars_of, lines_of, pieces_view, split_chars, split_on, string_of, trim, trim_end,
    trimmed_end_len, trimmed_start_len,
};

verus! {

/// An ordered pair of pieces.
pub type PiecePair = (Seq<char>, Seq<char>);

/// A pair of pieces to look up in the merge table.
#[derive(Debug, Clone, Copy)]
pub struct BpePairRef<'a> {
    pub byte_1: &'a String,
    pub byte_2: &'a String,
}

impl<'a> View for BpePairRef<'a> {
    type V = PiecePair;

    open spec fn view(&self) -> PiecePair {
        (self.byte_1@, self.byte_2@)
    }
}

/// The merge table. Each first piece has a number, under which the pieces
/// that may follow it are kept with the rank of the pair.
pub struct BpePairVocab {
    /// Number of each first piece: an index into `seconds`.
    pub first_index: StringHashMap<usize>,
    /// For each first piece, the second pieces with the rank of the pair.
    pub seconds: Vec<StringHashMap<i64>>,
}

impl View for BpePairVocab {
    type V = Map<PiecePair, i64>;

    open spec fn view(&self) -> Map<PiecePair, i64> {
        Map::new(
            |p: PiecePair| self.has_pair(p),
            |p: PiecePair| self.seconds@[self.first_index@[p.0] as int]@[p.1],
        )
    }
}

/// The pair that a line of a merge table stands for: the first two pieces
/// between single spaces of the trimmed line, where there are at least two.
pub open spec fn merge_pair_of_line(line: Seq<char>) -> Option<PiecePair> {
    let parts = split_on(trim(line), ' ');
    if parts.len() > 1 {
        Some((parts[0], parts[1]))
    } else {
        None
    }
}

/// The pairs that the given lines stand for, in the order of the lines.
pub open spec fn merge_pairs_of(lines: Seq<Seq<char>>) -> Seq<PiecePair>
    decreases lines.len(),
{
    if lines.len() == 0 {
        seq![]
    } else {
        let before = merge_pairs_of(lines.drop_last());
        match merge_pair_of_line(lines.last()) {
            Some(pair) => before.push(pair),
            None => before,
        }
    }
}

/// Each pair with its position in the sequence as its rank. A pair that
/// occurs more than once has the rank of its last occurrence.
pub open spec fn ranked(pairs: Seq<PiecePair>) -> Map<PiecePair, i64>
    decreases pairs.len(),
{
    if pairs.len() == 0 {
        Map::empty()
    } else {
        ranked(pairs.drop_last()).insert(pairs.last(), (pairs.len() - 1) as i64)
    }
}

/// The lines of a merge table that follow its header line.
pub open spec fn merge_lines_of(text: Seq<char>) -> Seq<Seq<char>> {
    let lines = lines_of(text);
    if lines.len() > 0 {
        lines.skip(1)
    } else {
        lines
    }
}

/// The merge table that a text describes: the first line is a header, and
/// each later line that holds a pair gives that pair the next rank.
pub open spec fn merge_table_of(text: Seq<char>) -> Map<PiecePair, i64> {
    ranked(merge_pairs_of(merge_lines_of(text)))
}

/// Largest number of pairs whose ranks fit the rank type.
pub open spec fn max_merge_pairs() -> nat {
    0x8000_0000_0000_0000
}

impl BpePairVocab {
    /// Whether the table holds the pair.
    pub open spec fn has_pair(&self, p: PiecePair) -> bool {
        &&& self.first_index@.contains_key(p.0)
        &&& self.first_index@[p.0] < self.seconds@.len()
        &&& self.seconds@[self.first_index@[p.0] as int]@.contains_key(p.1)
    }

    /// Every first piece has a number of its own, and `seconds` has an entry
    /// for it.
    pub open spec fn wf(&self) -> bool {
        &&& forall|a: Seq<char>| #[trigger]
            self.first_index@.contains_key(a) ==> self.first_index@[a] < self.seconds@.len()
        &&& forall|a: Seq<char>, b: Seq<char>|
            self.first_index@.contains_key(a) && self.first_index@.contains_key(b)
                && #[trigger] self.first_index@[a] == #[trigger] self.first_index@[b] ==> a == b
    }

    /// A table without pairs.
    pub fn new() -> (r: BpePairVocab)
        ensures
            r.wf(),
            r@ == Map::<PiecePair, i64>::empty(),
    {
        let table = BpePairVocab { first_index: StringHashMap::new(), seconds: Vec::new() };
        assert(table@ =~= Map::<PiecePair, i64>::empty());
        table
    }

    /// Gives a pair a rank, in place of the rank that it had.
    pub fn insert(&mut self, first: String, second: String, rank: i64)
        requires
            old(self).wf(),
        ensures
            final(self).wf(),
            final(self)@ == old(self)@.insert((first@, second@), rank),
    {
        let ghost before = *self;
        let known = match self.first_index.get(first.as_str()) {
            Some(index) => Some(*index),
            None => None,
        };
        match known {
            Some(index) => {
                let mut followers = self.seconds.remove(index);
                followers.insert(second, rank);
                self.seconds.insert(index, followers);
                assert(self.seconds@.len() == before.seconds@.len());
                assert forall|j: int| 0 <= j < self.seconds@.len() && j != index implies
                    #[trigger] self.seconds@[j] == before.seconds@[j] by {}
                assert(self.seconds@[index as int]@ == before.seconds@[index as int]@.insert(
                    second@,
                    rank,
                ));
                assert(self@ =~= before@.insert((first@, second@), rank)) by {
                    assert forall|p: PiecePair|
                        self.has_pair(p) == before@.insert((first@, second@), rank).contains_key(
                            p,
                        ) by {
                        if before.first_index@.contains_key(p.0) {
                            let j = before.first_index@[p.0];
                            if j == index {
                                assert(p.0 == first@);
                            }
                        }
                    }
                    assert forall|p: PiecePair| self.has_pair(p) implies #[trigger] self@[p]
                        == before@.insert((first@, second@), rank)[p] by {
                        let j = before.first_index@[p.0];
                        if j == index {
                            assert(p.0 == first@);
                        }
                    }
                }
            },
            None => {
                let index = self.seconds.len();
                let mut followers: StringHashMap<i64> = StringHashMap::new();
                followers.insert(second, rank);
                self.seconds.push(followers);
                self.first_index.insert(first, index);
                assert(self@ =~= before@.insert((first@, second@), rank)) by {
                    assert forall|p: PiecePair|
                        self.has_pair(p) == before@.insert((first@, second@), rank).contains_key(
                            p,
                        ) by {
                        if p.0 != first@ && before.first_index@.contains_key(p.0) {
                            assert(self.seconds@[before.first_index@[p.0] as int]
                                == before.seconds@[before.first_index@[p.0] as int]);
                        }
                    }
                    assert forall|p: PiecePair| self.has_pair(p) implies #[trigger] self@[p]
                        == before@.insert((first@, second@), rank)[p] by {
                        if p.0 != first@ {
                            assert(self.seconds@[before.first_index@[p.0] as int]
                                == before.seconds@[before.first_index@[p.0] as int]);
                        }
                    }
                }
            },
        }
    }

    /// The rank of a pair, where the table holds it.
    pub fn byte_pair_to_id(&self, byte_pair: &BpePairRef) -> (r: Option<&i64>)
        ensures
            match r {
                Some(rank) => self@.contains_key(byte_pair@) && *rank == self@[byte_pair@],
                None => !self@.contains_key(byte_pair@),
            },
    {
        match self.first_index.get(byte_pair.byte_1.as_str()) {
            Some(index) => {
                if *index < self.seconds.len() {
                    self.seconds[*index].get(byte_pair.byte_2.as_str())
                } else {
                    None
                }
            },
            None => None,
        }
    }

    /// Reads a merge table from a text. The first line is a header and is
    /// skipped. Each later line is trimmed and split at single spaces; where
    /// that gives at least two pieces, the first two form a pair, whose rank
    /// is the number of pairs read before it. Fails only where there are
    /// more pairs than there are ranks.
    pub fn from_cache(text: &str) -> (r: Result<BpePairVocab, TokenizerError>)
        ensures
            r is Ok <==> merge_pairs_of(merge_lines_of(text@)).len() <= max_merge_pairs(),
            r matches Ok(table) ==> table.wf() && table@ == merge_table_of(text@),
            r matches Err(e) ==> e is VocabularyParsingError,
    {
        let chars = chars_of(text);
        let pieces = split_chars(&chars, 0, chars.len(), '\n');
        assert(chars@.subrange(0, chars@.len() as int) =~= chars@);
        let line_count: usize = if pieces[pieces.len() - 1].len() == 0 {
            pieces.len() - 1
        } else {
            pieces.len()
        };
        let ghost all_lines = lines_of(text@);
        assert(all_lines =~= pieces_view(pieces@).take(line_count as int));
        let ghost lines = merge_lines_of(text@);
        let mut table = BpePairVocab::new();
        let mut count: usize = 0;
        let mut i: usize = 1;
        if line_count == 0 {
            assert(merge_pairs_of(lines) =~= Seq::<PiecePair>::empty());
            return Ok(table);
        }
        assert(lines.take(0) =~= Seq::<Seq<char>>::empty());
        while i < line_count
            invariant
                1 <= i <= line_count <= pieces@.len(),
                all_lines == pieces_view(pieces@).take(line_count as int),
                lines == all_lines.skip(1),
                lines == merge_lines_of(text@),
                table.wf(),
                count == merge_pairs_of(lines.take(i - 1)).len(),
                count <= i - 1,
                count <= max_merge_pairs(),
                table@ == ranked(merge_pairs_of(lines.take(i - 1))),
            decreases line_count - i,
        {
            let line = &pieces[i];
            let ghost done = lines.take(i - 1);
            let ghost next = lines.take(i as int);
            assert(next.drop_last() =~= done);
            assert(next.last() == line@);
            let end = trimmed_end_len(line, 0, line.len());
            assert(line@.subrange(0, line@.len() as int) =~= line@);
            let start = trimmed_start_len(line, 0, end);
            assert(line@.subrange(0, end as int) =~= trim_end(line@));
            assert(line@.subrange(start as int, end as int) =~= trim(line@));
            let parts = split_chars(line, start, end, ' ');
            if parts.len() > 1 {
                if count as u64 > 0x7fff_ffff_ffff_ffff {
                    proof {
                        assert(merge_pair_of_line(line@) is Some);
                        assert(merge_pairs_of(next).len() == count + 1);
                        lemma_merge_pairs_grow(lines, i as int);
                    }
                    return Err(
                        TokenizerError::VocabularyParsingError(
                            "The merge table holds more pairs than there are ranks".to_owned(),
                        ),
                    );
                }
                let first = string_of(&parts[0]);
                let second = string_of(&parts[1]);
                let ghost pairs = merge_pairs_of(next);
                assert(pairs == merge_pairs_of(done).push((first@, second@)));
                assert(pairs.drop_last() =~= merge_pairs_of(done));
                table.insert(first, second, count as i64);
                count += 1;
            }
            i += 1;
        }
        assert(lines.take(line_count - 1) =~= lines);
        Ok(table)
    }
}

/// The pairs read from the first lines of a table are among those read from
/// all of it.
pub proof fn lemma_merge_pairs_grow(lines: Seq<Seq<char>>, n: int)
    requires
        0 <= n <= lines.len(),
    ensures
        merge_pairs_of(lines.take(n)).len() <= merge_pairs_of(lines).len(),
    decreases lines.len() - n,
{
    if n < lines.len() {
        lemma_merge_pairs_grow(lines, n + 1);
        assert(lines.take(n + 1).drop_last() =~= lines.take(n));
    } else {
        assert(lines.take(n) =~= lines);
    }
}

} // verus!
