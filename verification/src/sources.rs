//! What a roll takes from outside: a random choice and the time of day.
//! Verus does not look into these two functions; it takes their contracts
//! on trust.

use crate::db::Restaurant;
use rand::seq::IndexedRandom;
use vstd::prelude::*;

verus! {

/// Draws one element of `options` with `rand`'s `IndexedRandom::choose`, on
/// the thread's generator, `rand::rng()`.
///
/// Trusted: `choose` returns `None` for an empty slice and otherwise a
/// reference to one of the slice's elements. Which one is left open, so
/// whatever is proved of a roll holds for every draw; that the draw is
/// uniform is `rand`'s word and no part of the contract. The call panics only
/// where the operating system gives the thread's generator no seed.
#[verifier::external_body]
pub(crate) fn draw<'a>(options: &'a Vec<Restaurant>) -> (drawn: Option<&'a Restaurant>)
    ensures
        options@.len() == 0 ==> drawn is None,
        options@.len() > 0 ==> drawn is Some && options@.contains(*drawn->Some_0),
{
    options.choose(&mut rand::rng())
}

/// Reads the clock with `chrono::Utc::now` and writes the instant as an
/// RFC 3339 timestamp with `DateTime::to_rfc3339`.
///
/// Trusted, and nothing is claimed of the text: the store orders timestamps
/// as text and is proved for every text that may come back, a clock that
/// runs backwards included. The call panics only where the system's clock
/// stands before 1970.
#[verifier::external_body]
pub(crate) fn now_rfc3339() -> String {
    chrono::Utc::now().to_rfc3339()
}

} // verus!
