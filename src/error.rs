use vstd::prelude::*;

use crate::lexer::{Token, TokenView};

verus! {

/// A parse failure: the token that the grammar asked for, and the token that
/// stood in its place (`None` where the stream had ended).
#[derive(Debug, PartialEq)]
pub struct ParserError {
    pub expected: Token,
    pub found: Option<Token>,
}

impl View for ParserError {
    /// The expected token and the found one, as views.
    type V = (TokenView, Option<TokenView>);

    open spec fn view(&self) -> (TokenView, Option<TokenView>) {
        (
            self.expected@,
            match self.found {
                Some(t) => Some(t@),
                None => None,
            },
        )
    }
}

impl ParserError {
    pub fn new(expected: Token, found: Option<Token>) -> (r: Self)
        ensures
            r.expected == expected,
            r.found == found,
    {
        Self { expected, found }
    }
}

} // verus!
