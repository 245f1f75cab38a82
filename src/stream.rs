use vstd::prelude::*;

use itertools::MultiPeek;

use crate::lexer::Token;

verus! {

#[verifier::external_type_specification]
#[verifier::external_body]
#[verifier::reject_recursive_types(I)]
pub struct ExMultiPeek<I: Iterator>(MultiPeek<I>);

/// A stream of tokens with a peeking cursor.
pub type TokenStream = MultiPeek<std::vec::IntoIter<Token>>;

/// The tokens that the stream has yet to hand out by `next`, in order.
pub uninterp spec fn pending(m: MultiPeek<std::vec::IntoIter<Token>>) -> Seq<Token>;

/// How many pending tokens the peeking cursor has passed.
pub uninterp spec fn peeked(m: MultiPeek<std::vec::IntoIter<Token>>) -> nat;

/// Relies on `itertools::multipeek`: the stream yields the vector's items in
/// order, with its cursor at the front.
#[verifier::external_body]
pub(crate) fn stream_of(tokens: Vec<Token>) -> (m: TokenStream)
    ensures
        pending(m) == tokens@,
        peeked(m) == 0,
{
    itertools::multipeek(tokens)
}

/// Relies on `MultiPeek::next`: it hands out the front item and resets the
/// cursor.
#[verifier::external_body]
pub(crate) fn next_of(m: &mut TokenStream) -> (r: Option<Token>)
    ensures
        peeked(*final(m)) == 0,
        pending(*old(m)).len() > 0 ==> r == Some(pending(*old(m))[0]) && pending(*final(m))
            == pending(*old(m)).drop_first(),
        pending(*old(m)).len() == 0 ==> r is None && pending(*final(m)) == pending(*old(m)),
{
    m.next()
}

/// Relies on `MultiPeek::reset_peek`: it moves the cursor back to the front.
#[verifier::external_body]
pub(crate) fn reset_of(m: &mut TokenStream)
    ensures
        peeked(*final(m)) == 0,
        pending(*final(m)) == pending(*old(m)),
{
    m.reset_peek()
}

/// Relies on `MultiPeek::peek`: it shows the item under the cursor, without
/// handing it out, and moves the cursor one further (the cursor never passes
/// the buffered items). The item is returned as a clone, which `Token`'s
/// derived `Clone` makes field by field.
#[verifier::external_body]
pub(crate) fn peek_of(m: &mut TokenStream) -> (r: Option<Token>)
    ensures
        pending(*final(m)) == pending(*old(m)),
        peeked(*old(m)) < pending(*old(m)).len() ==> r == Some(pending(*old(m))[peeked(*old(m)) as int])
            && peeked(*final(m)) == peeked(*old(m)) + 1,
        peeked(*old(m)) >= pending(*old(m)).len() ==> r is None && peeked(*final(m)) == peeked(
            *old(m),
        ),
{
    m.peek().cloned()
}

} // verus!
