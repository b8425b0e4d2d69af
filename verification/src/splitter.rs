//! The splitter: a compiled pattern applied to a text chunk yields its
//! pretoken substrings. The pattern engine and the worker pool live outside;
//! everything this module states about them is trusted and marked so.

use vstd::prelude::*;
use rayon::iter::IntoParallelRefIterator;
use rayon::iter::ParallelIterator;

verus! {

#[verifier::external_type_specification]
#[verifier::external_body]
pub struct ExRegex(fancy_regex::Regex);

#[verifier::external_type_specification]
#[verifier::external_body]
pub struct ExRegexError(fancy_regex::Error);

/// Whether the pattern engine accepts `pat`; decided by the pattern alone.
pub uninterp spec fn regex_valid(pat: Seq<char>) -> bool;

/// The pattern a compiled regex was built from: what the opaque value holds.
pub uninterp spec fn regex_pattern(re: fancy_regex::Regex) -> Seq<char>;

/// What scanning `text` with the pattern `pat` yields: the successive
/// non-overlapping matched substrings in order of position, or nothing when
/// the match engine gives up on this pattern and text. A pure function of the
/// pattern and the text.
pub uninterp spec fn split_of(pat: Seq<char>, text: Seq<char>) -> Option<Seq<Seq<char>>>;

/// The character sequences of a list of strings.
pub open spec fn str_views(v: Seq<String>) -> Seq<Seq<char>> {
    v.map(|i: int, s: String| s@)
}

/// Relies on fancy_regex::Regex::new: compiling succeeds or fails by the
/// pattern alone, and the compiled value holds the pattern it was built from.
#[verifier::external_body]
pub fn compile_pattern(pat: &str) -> (r: Result<fancy_regex::Regex, fancy_regex::Error>)
    ensures
        r is Ok <==> regex_valid(pat@),
        r matches Ok(re) ==> regex_pattern(re) == pat@,
{
    fancy_regex::Regex::new(pat)
}

/// Relies on fancy_regex::Regex::find_iter: it yields the successive
/// non-overlapping matches of the pattern in the text, in order, each one a
/// substring of the text, and it fails (the engine giving up, not a partial
/// answer) as a function of the pattern and the text alone.
#[verifier::external_body]
fn find_pieces(re: &fancy_regex::Regex, text: &str) -> (r: Result<
    Vec<String>,
    fancy_regex::Error,
>)
    ensures
        r is Ok <==> split_of(regex_pattern(*re), text@) is Some,
        r matches Ok(v) ==> Some(str_views(v@)) == split_of(regex_pattern(*re), text@),
{
    let mut out: Vec<String> = Vec::new();
    for m in re.find_iter(text) {
        out.push(m?.as_str().to_string());
    }
    Ok(out)
}

/// One chunk through the splitter: the pretoken substrings of `text` under
/// the given compiled pattern, or the engine's error.
pub fn split_chunk(re: &fancy_regex::Regex, text: &str) -> (r: Result<
    Vec<String>,
    fancy_regex::Error,
>)
    ensures
        r is Ok <==> split_of(regex_pattern(*re), text@) is Some,
        r matches Ok(v) ==> Some(str_views(v@)) == split_of(regex_pattern(*re), text@),
{
    find_pieces(re, text)
}

/// Relies on rayon: `par_iter().map(..).collect::<Result<..>>()` runs the
/// verified `split_chunk` once per chunk on private data, keeps the chunk
/// order in the collected `Ok` values, and yields an error exactly when some
/// chunk's scan fails.
#[verifier::external_body]
pub fn par_split(re: &fancy_regex::Regex, chunks: &[String]) -> (r: Result<
    Vec<Vec<String>>,
    fancy_regex::Error,
>)
    ensures
        r is Ok <==> (forall|i: int|
            0 <= i < chunks@.len() ==> (#[trigger] split_of(regex_pattern(*re), chunks@[i]@))
                is Some),
        r matches Ok(v) ==> v@.len() == chunks@.len() && forall|i: int|
            0 <= i < chunks@.len() ==> Some(str_views((#[trigger] v@[i])@)) == split_of(
                regex_pattern(*re),
                chunks@[i]@,
            ),
{
    chunks.par_iter().map(|s| split_chunk(re, s)).collect()
}

} // verus!
