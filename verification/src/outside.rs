//! Trusted declarations for the two outside crates the layout engine calls:
//! the line breaker and the randomness source.

use vstd::prelude::*;

verus! {

/// What `textwrap::wrap` returns for the given text, width and first-line
/// indent, under the optimal-fit algorithm with default penalties, long
/// words left unbroken, words separated by ASCII spaces, and hyphen
/// splitting. The result is a pure function of the three arguments.
pub uninterp spec fn wrap_of(text: Seq<char>, width: int, indent: Seq<char>) -> Seq<Seq<char>>;

/// Relies on `textwrap::wrap`: every returned line is the indent followed by
/// a contiguous piece of one input line with trailing whitespace removed, so
/// a line never holds more characters than the input and the indent
/// together. Each line covers at least one input character (or is the sole
/// line of an empty piece), so there is at most one line per input character
/// plus one.
#[verifier::external_body]
pub(crate) fn wrap_lines(text: &str, width: usize, indent: &str) -> (r: Vec<String>)
    ensures
        r@.len() == wrap_of(text@, width as int, indent@).len(),
        forall|i: int|
            0 <= i < r@.len() ==> (#[trigger] r@[i])@ == wrap_of(text@, width as int, indent@)[i],
        forall|i: int|
            0 <= i < r@.len() ==> (#[trigger] r@[i])@.len() <= text@.len() + indent@.len(),
        r@.len() <= text@.len() + 1,
{
    let opts = textwrap::Options::new(width)
        .break_words(false)
        .word_separator(textwrap::WordSeparator::AsciiSpace)
        .wrap_algorithm(textwrap::WrapAlgorithm::OptimalFit(
            textwrap::wrap_algorithms::Penalties::default(),
        ))
        .initial_indent(indent);
    textwrap::wrap(text, opts).into_iter().map(|c| c.into_owned()).collect()
}

/// fastrand's generator, declared so library functions can carry one; the
/// library sees nothing of its state.
#[verifier::external_type_specification]
#[verifier::external_body]
pub struct ExRng(fastrand::Rng);

/// Relies on `fastrand::Rng::i64`: a draw from within the given inclusive
/// bounds. The call panics only on an empty range, which the precondition
/// excludes; nothing else is assumed of the value.
#[verifier::external_body]
pub(crate) fn rng_in_range(rng: &mut fastrand::Rng, lo: i64, hi: i64) -> (r: i64)
    requires
        lo <= hi,
    ensures
        lo <= r <= hi,
{
    rng.i64(lo..=hi)
}

} // verus!
