//! Search patterns. A pattern is compiled once and keeps its source, by
//! which everything that is said of its matches is said.
use vstd::prelude::*;
use vstd::string::StringSliceAdditionalSpecFns;
use vstd::utf8::is_char_boundary;
use regex::Regex;

verus! {

#[verifier::external_type_specification]
#[verifier::external_body]
pub struct ExRegex(Regex);

/// Whether `Regex::new` accepts a text as a pattern.
pub uninterp spec fn pattern_accepted(pattern: Seq<char>) -> bool;

/// What `Regex::find_iter` finds in a text for the pattern compiled from
/// the given source: the byte range of every match, from left to right.
pub uninterp spec fn pattern_matches(pattern: Seq<char>, text: Seq<char>) -> Seq<(usize, usize)>;

/// Byte ranges as a search reports them: each lies within the bytes, begins
/// and ends where a character begins or the bytes end, and none reaches
/// into the next.
pub open spec fn byte_ranges_ordered(ranges: Seq<(usize, usize)>, bytes: Seq<u8>) -> bool {
    &&& forall|i: int|
        0 <= i < ranges.len() ==> {
            let range = #[trigger] ranges[i];
            &&& range.0 <= range.1 <= bytes.len()
            &&& is_char_boundary(bytes, range.0 as int)
            &&& is_char_boundary(bytes, range.1 as int)
        }
    &&& forall|i: int, j: int|
        0 <= i < j < ranges.len() ==> (#[trigger] ranges[i]).1 <= (#[trigger] ranges[j]).0
}

/// A compiled pattern together with the source that it was compiled from.
/// Nothing but `compile_pattern` makes one, so the two always belong together.
pub struct Pattern {
    compiled: Regex,
    source: String,
}

impl View for Pattern {
    type V = Seq<char>;

    /// The source of the pattern.
    closed spec fn view(&self) -> Seq<char> {
        self.source@
    }
}

/// Calls `Regex::new` to compile a pattern and keeps the source beside
/// what was compiled; nothing where the pattern is refused. Whether a
/// pattern is accepted depends on the pattern alone.
#[verifier::external_body]
fn compile_pattern(pattern: &str) -> (r: Option<Pattern>)
    ensures
        r is Some <==> pattern_accepted(pattern@),
        r matches Some(compiled) ==> compiled@ == pattern@,
{
    Regex::new(pattern).ok().map(|compiled| Pattern { compiled, source: pattern.to_owned() })
}

/// Calls `Regex::find_iter` and collects the byte range of every match.
/// The matches depend on the source of the pattern and on the text alone.
/// They are successive and do not overlap, and each begins and ends at a
/// character boundary inside the text.
#[verifier::external_body]
pub(crate) fn find_matches(pattern: &Pattern, text: &str) -> (r: Vec<(usize, usize)>)
    ensures
        r@ == pattern_matches(pattern@, text@),
        byte_ranges_ordered(r@, text.spec_bytes()),
{
    pattern.compiled.find_iter(text).map(|found| (found.start(), found.end())).collect()
}

impl Pattern {
    /// Compiles a pattern. Succeeds exactly on the sources that the pattern
    /// compiler accepts, and the pattern then has that source.
    pub fn compile(source: &str) -> (r: Option<Pattern>)
        ensures
            r is Some <==> pattern_accepted(source@),
            r matches Some(pattern) ==> pattern@ == source@,
    {
        compile_pattern(source)
    }

    /// The source that the pattern was compiled from.
    pub fn source(&self) -> (r: &str)
        ensures
            r@ == self@,
    {
        self.source.as_str()
    }
}

} // verus!
