use vstd::prelude::*;

verus! {

/// Opaque identifier bound to a bucket at creation.
///
/// Equality is the only operation; a fresh token is drawn from a random
/// source, so two buckets created in one process carry distinct tokens with
/// overwhelming probability.
#[derive(Debug, Clone, Copy, PartialEq, Eq, Hash, Structural)]
pub struct Token(u64);

impl Token {
    /// Draws a fresh token.
    ///
    /// Relies on `rand::random`: a pseudo-random value from the thread-local
    /// generator. Nothing is assumed about which value comes back.
    #[verifier::external_body]
    pub fn new() -> Token {
        Token(rand::random::<u64>())
    }
}

} // verus!
