//! Raw token timing of one inference request.
//!
//! The probe records when each token arrived, in nanoseconds since the request
//! was sent. No derived figure is computed here.
use vstd::prelude::*;

verus! {

/// The arrival of one generated token.
#[derive(Debug, Clone, Copy, PartialEq, Eq, Structural)]
pub struct TokenArrival {
    /// Zero-based position of the token in the generated sequence.
    pub index: u32,
    /// Nanoseconds from request start to the token's arrival.
    pub elapsed_ns: u64,
}

impl TokenArrival {
    /// Creates an arrival record.
    pub fn new(index: u32, elapsed_ns: u64) -> (arrival: Self)
        ensures
            arrival == (TokenArrival { index, elapsed_ns }),
    {
        TokenArrival { index, elapsed_ns }
    }
}

/// The complete timing record of one request.
///
/// `total_ns` stands apart from the tokens: a request can take measurable time
/// after its last token.
#[derive(Debug, Clone, PartialEq, Eq)]
pub struct RequestTiming {
    /// Arrivals in generation order; empty if no token was produced.
    pub tokens: Vec<TokenArrival>,
    /// Nanoseconds from request start to completion.
    pub total_ns: u64,
}

impl RequestTiming {
    /// Creates a record from the arrivals and the total duration.
    pub fn new(tokens: Vec<TokenArrival>, total_ns: u64) -> (timing: Self)
        ensures
            timing.tokens == tokens,
            timing.total_ns == total_ns,
    {
        RequestTiming { tokens, total_ns }
    }

    /// The number of tokens recorded.
    pub fn token_count(&self) -> (n: usize)
        ensures
            n == self.tokens@.len(),
    {
        self.tokens.len()
    }

    /// Whether no token was recorded. That is an outcome, not an error.
    pub fn is_empty(&self) -> (b: bool)
        ensures
            b == (self.tokens@.len() == 0),
    {
        self.tokens.len() == 0
    }
}

} // verus!
