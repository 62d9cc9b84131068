//! Generation of random words that sound like the words of a given language.
//!
//! A [`ProbabilityTable`] records, for every window of `accuracy` consecutive
//! characters seen in a corpus, how often each character followed that window.
//! Sampling walks the table from an all-separator context, drawing each next
//! character with probability proportional to its recorded count, until a
//! separator is drawn.

use vstd::prelude::*;

pub mod model;
pub mod sampler;
pub mod table;

use crate::model::{corpus_stream, follows_stream, spaces, window_count, word_views};
use crate::sampler::{generate_multiple_words, no_separator, sorted_by_len, valid_sample};
use crate::table::ProbabilityTable;

verus! {

/// The ways in which building a table or sampling words can fail.
#[derive(Debug, Clone, Copy, PartialEq, Eq, Structural)]
pub enum WordGenError {
    /// The requested context length (accuracy) was zero.
    InvalidConfiguration,
    /// The corpus is too short to yield even one context window.
    InsufficientCorpus,
    /// Sampling reached a context that the table has no entry for.
    MissingContext,
    /// Sampling drew the maximum number of characters without a separator.
    LengthLimitExceeded,
}

/// Build a table for `words` with context length `accuracy` and generate
/// `amount` words from it, sorted by non-decreasing length.
///
/// Configuration and corpus errors are reported exactly as
/// [`ProbabilityTable::from_words`] reports them; a failed draw aborts the
/// whole batch with its error.
pub fn generate_words(words: &Vec<String>, accuracy: usize, amount: u32) -> (r: Result<
    Vec<String>,
    WordGenError,
>)
    ensures
        accuracy == 0 ==> r == Err::<Vec<String>, WordGenError>(
            WordGenError::InvalidConfiguration,
        ),
        accuracy >= 1 && corpus_stream(words@, accuracy as nat).len() <= accuracy ==> r == Err::<
            Vec<String>,
            WordGenError,
        >(WordGenError::InsufficientCorpus),
        accuracy >= 1 && corpus_stream(words@, accuracy as nat).len() > accuracy && amount == 0
            ==> r is Ok,
        accuracy >= 1 && corpus_stream(words@, accuracy as nat).len() > accuracy ==> (r is Ok || r
            == Err::<Vec<String>, WordGenError>(WordGenError::MissingContext) || r == Err::<
            Vec<String>,
            WordGenError,
        >(WordGenError::LengthLimitExceeded)),
        r matches Ok(v) ==> v@.len() == amount,
        r matches Ok(v) ==> sorted_by_len(word_views(v@)),
        r matches Ok(v) ==> (forall|i: int|
            0 <= i < v@.len() ==> no_separator(#[trigger] word_views(v@)[i])),
        r matches Ok(v) ==> (forall|i: int|
            0 <= i < v@.len() ==> follows_stream(
                corpus_stream(words@, accuracy as nat),
                accuracy as nat,
                spaces(accuracy as nat) + #[trigger] word_views(v@)[i] + seq![' '],
            )),
{
    match ProbabilityTable::from_words(words, accuracy) {
        Ok(t) => {
            let r = generate_multiple_words(&t, amount);
            proof {
                let k = accuracy as nat;
                let stream = corpus_stream(words@, k);
                if r is Ok {
                    let v = r->Ok_0;
                    assert forall|i: int| 0 <= i < v@.len() implies follows_stream(
                        stream,
                        k,
                        spaces(k) + #[trigger] word_views(v@)[i] + seq![' '],
                    ) by {
                        let w = word_views(v@)[i];
                        let full = spaces(k) + w + seq![' '];
                        assert(valid_sample(t, w));
                        assert forall|j: int| k <= j < full.len() implies window_count(
                            stream,
                            k,
                            #[trigger] full.subrange(j - k, j),
                            full[j],
                        ) >= 1 by {
                            assert(t.count(full.subrange(j - t.accuracy, j), full[j]) >= 1);
                            assert(t.count(full.subrange(j - k, j), full[j]) == window_count(
                                stream,
                                k,
                                full.subrange(j - k, j),
                                full[j],
                            ));
                        }
                    }
                }
            }
            r
        },
        Err(e) => Err(e),
    }
}

} // verus!
