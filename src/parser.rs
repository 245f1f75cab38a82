use vstd::prelude::*;

use crate::error::ParserError;
use crate::lexer::{Token, TokenView, punctuation_token, views};
use crate::stream::{TokenStream, next_of, peek_of, pending, reset_of, stream_of};

verus! {

/// A node of the syntax tree.
#[derive(Debug, PartialEq)]
pub enum Expression {
    Identifier(String),
    FunctionDefinition(Box<Expression>, Box<Expression>),
    FunctionApplication(Box<Expression>, Box<Expression>),
    ExpressionGroup(Box<Expression>),
    Empty,
}

/// The mathematical value of a syntax tree.
pub enum ExprView {
    Identifier(Seq<char>),
    FunctionDefinition(Box<ExprView>, Box<ExprView>),
    FunctionApplication(Box<ExprView>, Box<ExprView>),
    ExpressionGroup(Box<ExprView>),
    Empty,
}

pub open spec fn expr_view(e: Expression) -> ExprView
    decreases e,
{
    match e {
        Expression::Identifier(s) => ExprView::Identifier(s@),
        Expression::FunctionDefinition(a, b) => ExprView::FunctionDefinition(
            Box::new(expr_view(*a)),
            Box::new(expr_view(*b)),
        ),
        Expression::FunctionApplication(a, b) => ExprView::FunctionApplication(
            Box::new(expr_view(*a)),
            Box::new(expr_view(*b)),
        ),
        Expression::ExpressionGroup(a) => ExprView::ExpressionGroup(Box::new(expr_view(*a))),
        Expression::Empty => ExprView::Empty,
    }
}

impl View for Expression {
    type V = ExprView;

    open spec fn view(&self) -> ExprView {
        expr_view(*self)
    }
}

pub open spec fn expr_views(es: Seq<Expression>) -> Seq<ExprView> {
    es.map_values(|e: Expression| e@)
}

/// What a parse error holds: the expected token and the one found.
pub type ErrView = (TokenView, Option<TokenView>);

/// The outcome of parsing at the front of a token sequence: the tree or the
/// error, and the tokens left once every step of the rule has run.
pub type Parsed = (Result<ExprView, ErrView>, Seq<TokenView>);

/// What an executed parse returned, as views.
pub open spec fn outcome(r: Result<Expression, ParserError>) -> Result<ExprView, ErrView> {
    match r {
        Ok(e) => Ok(e@),
        Err(x) => Err(x@),
    }
}

/// What an executed parse of every node returned, as views.
pub open spec fn outcomes(r: Result<Vec<Expression>, ParserError>) -> Result<
    Seq<ExprView>,
    ErrView,
> {
    match r {
        Ok(v) => Ok(expr_views(v@)),
        Err(x) => Err(x@),
    }
}

pub open spec fn punct(c: char) -> TokenView {
    TokenView::Punctuation(seq![c])
}

/// Tokens at which an expression stops.
pub open spec fn ends_expression(t: TokenView) -> bool {
    t == punct(')') || t is Newline || t is EOF
}

/// `ts` after its first token, if it has one.
pub open spec fn take_one(ts: Seq<TokenView>) -> Seq<TokenView> {
    if ts.len() > 0 {
        ts.drop_first()
    } else {
        ts
    }
}

/// Takes one token, whatever it is; it must be `want`.
pub open spec fn expect_spec(ts: Seq<TokenView>, want: TokenView) -> (
    Result<(), ErrView>,
    Seq<TokenView>,
) {
    (
        if ts.len() == 0 {
            Err((want, None))
        } else if ts[0] == want {
            Ok(())
        } else {
            Err((want, Some(ts[0])))
        },
        take_one(ts),
    )
}

/// Takes one token, whatever it is; it must be an identifier.
pub open spec fn identifier_spec(ts: Seq<TokenView>) -> Parsed {
    (
        if ts.len() == 0 {
            Err((TokenView::Identifier(seq![]), None))
        } else {
            match ts[0] {
                TokenView::Identifier(s) => Ok(ExprView::Identifier(s)),
                t => Err((TokenView::Identifier(seq![]), Some(t))),
            }
        },
        take_one(ts),
    )
}

/// `Element := FunctionDefinition | ExpressionGroup | Identifier`, chosen by
/// the first token; a token that starts no element is left in place.
pub open spec fn element_spec(ts: Seq<TokenView>) -> Parsed
    decreases ts.len(), 1nat,
{
    if ts.len() == 0 {
        (Err((TokenView::EOF, None)), ts)
    } else if ts[0] == punct('\\') {
        definition_spec(ts)
    } else if ts[0] == punct('(') {
        group_spec(ts)
    } else if ts[0] is Identifier {
        identifier_spec(ts)
    } else {
        (Err((ts[0], None)), ts)
    }
}

/// `FunctionDefinition := '\' Identifier '.' Element`. All four parts run,
/// each on what the one before left, failed or not; the first failing part
/// gives the error.
pub open spec fn definition_spec(ts: Seq<TokenView>) -> Parsed
    decreases ts.len(), 0nat,
{
    if ts.len() == 0 {
        // Every part finds the stream ended; the first one reports it.
        (Err((punct('\\'), None)), ts)
    } else {
        let (lambda, r1) = expect_spec(ts, punct('\\'));
        let (param, r2) = identifier_spec(r1);
        let (dot, r3) = expect_spec(r2, punct('.'));
        let (body, r4) = element_spec(r3);
        (
            match (lambda, param, dot, body) {
                (Err(e), _, _, _) => Err(e),
                (Ok(_), Err(e), _, _) => Err(e),
                (Ok(_), Ok(_), Err(e), _) => Err(e),
                (Ok(_), Ok(_), Ok(_), Err(e)) => Err(e),
                (Ok(_), Ok(p), Ok(_), Ok(b)) => Ok(
                    ExprView::FunctionDefinition(Box::new(p), Box::new(b)),
                ),
            },
            r4,
        )
    }
}

/// `ExpressionGroup := '(' Expression ')'`. All three parts run, each on what
/// the one before left; the first failing part gives the error.
pub open spec fn group_spec(ts: Seq<TokenView>) -> Parsed
    decreases ts.len(), 0nat,
{
    if ts.len() == 0 {
        // Every part finds the stream ended; the first one reports it.
        (Err((punct('('), None)), ts)
    } else {
        let (lparen, r1) = expect_spec(ts, punct('('));
        let (inner, r2) = expression_from(ExprView::Empty, r1);
        let (rparen, r3) = expect_spec(r2, punct(')'));
        (
            match (lparen, inner, rparen) {
                (Err(e), _, _) => Err(e),
                (Ok(_), Err(e), _) => Err(e),
                (Ok(_), Ok(_), Err(e)) => Err(e),
                (Ok(_), Ok(x), Ok(_)) => Ok(ExprView::ExpressionGroup(Box::new(x))),
            },
            r3,
        )
    }
}

/// Elements up to the next token that ends an expression, folded to the left
/// onto `acc` (`Empty` while none has been read); the first element that
/// fails stops the expression.
pub open spec fn expression_from(acc: ExprView, ts: Seq<TokenView>) -> Parsed
    decreases ts.len(), 2nat,
{
    if ts.len() == 0 || ends_expression(ts[0]) {
        (Ok(acc), ts)
    } else {
        let (el, r) = element_spec(ts);
        match el {
            Err(e) => (Err(e), r),
            Ok(x) => {
                if r.len() < ts.len() {
                    expression_from(
                        if acc is Empty {
                            x
                        } else {
                            ExprView::FunctionApplication(Box::new(acc), Box::new(x))
                        },
                        r,
                    )
                } else {
                    // Never taken: see `lemma_element_consumes`.
                    (Err((ts[0], None)), r)
                }
            },
        }
    }
}

/// `Expression := Element*`.
pub open spec fn expression_spec(ts: Seq<TokenView>) -> Parsed {
    expression_from(ExprView::Empty, ts)
}

pub open spec fn skip_newlines(ts: Seq<TokenView>) -> Seq<TokenView>
    decreases ts.len(),
{
    if ts.len() > 0 && ts[0] is Newline {
        skip_newlines(ts.drop_first())
    } else {
        ts
    }
}

/// `Node := Expression Newline*`, then the end marker where it comes next. A
/// closing parenthesis may not end a node: it is reported, as a newline
/// expected in its place, and left in place.
pub open spec fn node_spec(ts: Seq<TokenView>) -> Parsed {
    let (res, r) = expression_spec(ts);
    match res {
        Err(e) => (Err(e), r),
        Ok(e) => {
            if r.len() > 0 && r[0] == punct(')') {
                (Err((TokenView::Newline, Some(r[0]))), r)
            } else {
                let r2 = skip_newlines(r);
                if r2.len() > 0 && r2[0] is EOF {
                    (Ok(e), r2.drop_first())
                } else {
                    (Ok(e), r2)
                }
            }
        },
    }
}

/// All nodes of `ts`, in order, or the first error; and the tokens left.
pub open spec fn program_spec(ts: Seq<TokenView>) -> (
    Result<Seq<ExprView>, ErrView>,
    Seq<TokenView>,
)
    decreases ts.len(),
{
    if ts.len() == 0 {
        (Ok(seq![]), ts)
    } else {
        let (res, r) = node_spec(ts);
        match res {
            Err(e) => (Err(e), r),
            Ok(e) => {
                if r.len() < ts.len() {
                    let (rs, r2) = program_spec(r);
                    (
                        match rs {
                            Err(x) => Err(x),
                            Ok(es) => Ok(seq![e] + es),
                        },
                        r2,
                    )
                } else {
                    // Never taken: see `lemma_node_consumes`.
                    (Err((ts[0], None)), r)
                }
            },
        }
    }
}

/// An element never adds tokens, and one that parses takes at least one.
pub proof fn lemma_element_consumes(ts: Seq<TokenView>)
    ensures
        element_spec(ts).1.len() <= ts.len(),
        element_spec(ts).0 is Ok ==> element_spec(ts).1.len() < ts.len(),
    decreases ts.len(), 1nat,
{
    if ts.len() > 0 {
        if ts[0] == punct('\\') {
            lemma_definition_consumes(ts);
        } else if ts[0] == punct('(') {
            lemma_group_consumes(ts);
        }
    }
}

proof fn lemma_definition_consumes(ts: Seq<TokenView>)
    ensures
        definition_spec(ts).1.len() <= ts.len(),
        definition_spec(ts).0 is Ok ==> definition_spec(ts).1.len() < ts.len(),
    decreases ts.len(), 0nat,
{
    if ts.len() > 0 {
        let r1 = expect_spec(ts, punct('\\')).1;
        let r2 = identifier_spec(r1).1;
        let r3 = expect_spec(r2, punct('.')).1;
        lemma_element_consumes(r3);
    }
}

proof fn lemma_group_consumes(ts: Seq<TokenView>)
    ensures
        group_spec(ts).1.len() <= ts.len(),
        group_spec(ts).0 is Ok ==> group_spec(ts).1.len() < ts.len(),
    decreases ts.len(), 0nat,
{
    if ts.len() > 0 {
        let r1 = expect_spec(ts, punct('(')).1;
        lemma_expression_consumes(ExprView::Empty, r1);
    }
}

/// An expression never adds tokens, and one that parses stops at its end: no
/// tokens are left, or the next one ends expressions.
pub proof fn lemma_expression_consumes(acc: ExprView, ts: Seq<TokenView>)
    ensures
        expression_from(acc, ts).1.len() <= ts.len(),
        expression_from(acc, ts) matches (Ok(_), r) ==> r.len() == 0 || ends_expression(r[0]),
    decreases ts.len(), 2nat,
{
    if !(ts.len() == 0 || ends_expression(ts[0])) {
        lemma_element_consumes(ts);
        let (el, r) = element_spec(ts);
        if let Ok(x) = el {
            let next = if acc is Empty {
                x
            } else {
                ExprView::FunctionApplication(Box::new(acc), Box::new(x))
            };
            lemma_expression_consumes(next, r);
        }
    }
}

proof fn lemma_skip_newlines(ts: Seq<TokenView>)
    ensures
        skip_newlines(ts).len() <= ts.len(),
        ts.len() > 0 && ts[0] is Newline ==> skip_newlines(ts).len() < ts.len(),
    decreases ts.len(),
{
    if ts.len() > 0 && ts[0] is Newline {
        lemma_skip_newlines(ts.drop_first());
    }
}

/// A node that parses from a nonempty sequence takes at least one token.
pub proof fn lemma_node_consumes(ts: Seq<TokenView>)
    requires
        ts.len() > 0,
    ensures
        node_spec(ts).0 is Ok ==> node_spec(ts).1.len() < ts.len(),
{
    lemma_expression_consumes(ExprView::Empty, ts);
    let (res, r) = expression_spec(ts);
    if res is Ok {
        lemma_skip_newlines(r);
        if r.len() == ts.len() {
            // Nothing was read, so the first token ends the expression.
            assert(r =~= ts) by {
                if !(ts.len() == 0 || ends_expression(ts[0])) {
                    lemma_element_consumes(ts);
                    if let Ok(x) = element_spec(ts).0 {
                        lemma_expression_consumes(x, element_spec(ts).1);
                    }
                }
            }
        }
    }
}

fn ends_expression_token(t: &Token) -> (r: bool)
    ensures
        r == ends_expression(t@),
{
    match t {
        Token::Newline | Token::EOF => true,
        _ => *t == punctuation_token(')'),
    }
}

/// A recursive-descent parser over a stream of tokens.
pub struct Parser {
    input: TokenStream,
}

impl View for Parser {
    type V = Seq<TokenView>;

    /// The tokens not yet consumed.
    closed spec fn view(&self) -> Seq<TokenView> {
        views(pending(self.input))
    }
}

impl Parser {
    pub fn new(tokens: Vec<Token>) -> (r: Parser)
        ensures
            r@ == views(tokens@),
    {
        Parser { input: stream_of(tokens) }
    }

    /// The first unconsumed token, left in place.
    fn front(&mut self) -> (r: Option<Token>)
        ensures
            final(self)@ == old(self)@,
            old(self)@.len() == 0 ==> r is None,
            old(self)@.len() > 0 ==> (r matches Some(t) && t@ == old(self)@[0]),
    {
        reset_of(&mut self.input);
        peek_of(&mut self.input)
    }

    /// Takes the first unconsumed token.
    fn next(&mut self) -> (r: Option<Token>)
        ensures
            old(self)@.len() == 0 ==> r is None && final(self)@ == old(self)@,
            old(self)@.len() > 0 ==> (r matches Some(t) && t@ == old(self)@[0] && final(self)@
                == old(self)@.drop_first()),
    {
        let r = next_of(&mut self.input);
        proof {
            if old(self)@.len() > 0 {
                assert(self@ =~= old(self)@.drop_first());
            }
        }
        r
    }

    /// Takes one token, which must equal `expected`.
    fn expect(&mut self, expected: Token) -> (r: Result<Token, ParserError>)
        ensures
            final(self)@.len() <= old(self)@.len(),
            (
                match r {
                    Ok(_) => Ok(()),
                    Err(x) => Err(x@),
                },
                final(self)@,
            ) == expect_spec(old(self)@, expected@),
    {
        match self.next() {
            Some(token) => {
                if token == expected {
                    Ok(token)
                } else {
                    Err(ParserError::new(expected, Some(token)))
                }
            },
            None => Err(ParserError::new(expected, None)),
        }
    }

    fn parse_identifier(&mut self) -> (r: Result<Expression, ParserError>)
        ensures
            final(self)@.len() <= old(self)@.len(),
            (outcome(r), final(self)@) == identifier_spec(old(self)@),
    {
        match self.next() {
            Some(Token::Identifier(s)) => Ok(Expression::Identifier(s)),
            Some(token) => Err(ParserError::new(Token::Identifier(String::new()), Some(token))),
            None => Err(ParserError::new(Token::Identifier(String::new()), None)),
        }
    }

    /// Every node of the stream, in order; the first malformed node gives
    /// the error.
    pub fn parse_all(&mut self) -> (r: Result<Vec<Expression>, ParserError>)
        ensures
            (outcomes(r), final(self)@) == program_spec(old(self)@),
            r is Ok ==> final(self)@.len() == 0,
    {
        let ghost start = self@;
        let mut nodes: Vec<Expression> = Vec::new();
        while self.front().is_some()
            invariant
                start == old(self)@,
                program_spec(start) == (
                    match program_spec(self@).0 {
                        Ok(es) => Ok(expr_views(nodes@) + es),
                        Err(e) => Err(e),
                    },
                    program_spec(self@).1,
                ),
            decreases self@.len(),
        {
            let ghost before = self@;
            proof {
                lemma_node_consumes(before);
            }
            match self.parse() {
                Err(e) => {
                    return Err(e);
                },
                Ok(node) => {
                    let ghost ns = expr_views(nodes@);
                    nodes.push(node);
                    assert(expr_views(nodes@) =~= ns.push(node@));
                    proof {
                        if let Ok(es) = program_spec(self@).0 {
                            assert(expr_views(nodes@) + es =~= ns + (seq![node@] + es));
                        }
                    }
                },
            }
        }
        assert(expr_views(nodes@) + seq![] =~= expr_views(nodes@));
        Ok(nodes)
    }

    /// One node: an expression, then the newlines after it, then the end
    /// marker where it comes next. A closing parenthesis right after the
    /// expression cannot end a node: it is reported as
    /// `ParserError { expected: Newline, found: Some(")") }` and left unread.
    pub fn parse(&mut self) -> (r: Result<Expression, ParserError>)
        ensures
            final(self)@.len() <= old(self)@.len(),
            (outcome(r), final(self)@) == node_spec(old(self)@),
            r is Ok && old(self)@.len() > 0 ==> final(self)@.len() < old(self)@.len(),
    {
        let node = match self.parse_expression() {
            Ok(e) => e,
            Err(e) => return Err(e),
        };
        match self.front() {
            Some(token) => {
                if token == punctuation_token(')') {
                    return Err(ParserError::new(Token::Newline, Some(token)));
                }
            },
            None => {},
        }
        let ghost after = self@;
        loop
            invariant
                skip_newlines(after) == skip_newlines(self@),
                self@.len() <= after.len(),
                self@.len() < after.len() || self@ == after,
            ensures
                after.len() > 0 && after[0] is Newline ==> self@.len() < after.len(),
                skip_newlines(after) == self@,
                self@.len() <= after.len(),
                self@.len() < after.len() || self@ == after,
            decreases self@.len(),
        {
            match self.front() {
                Some(Token::Newline) => {
                    self.next();
                },
                _ => break,
            }
        }
        match self.front() {
            Some(Token::EOF) => {
                self.next();
            },
            _ => {},
        }
        Ok(node)
    }

    /// Elements up to the next closing parenthesis, newline or end marker,
    /// applied to one another from the left.
    fn parse_expression(&mut self) -> (r: Result<Expression, ParserError>)
        ensures
            final(self)@.len() <= old(self)@.len(),
            (outcome(r), final(self)@) == expression_spec(old(self)@),
            r is Ok ==> final(self)@.len() == 0 || ends_expression(final(self)@[0]),
            r is Ok ==> final(self)@.len() < old(self)@.len() || final(self)@ == old(self)@,
        decreases old(self)@.len(), 2nat,
    {
        let ghost start = self@;
        let mut result = Expression::Empty;
        loop
            invariant
                start == old(self)@,
                self@.len() <= start.len(),
                self@.len() < start.len() || self@ == start,
                expression_spec(start) == expression_from(result@, self@),
            ensures
                self@.len() <= start.len(),
                self@.len() < start.len() || self@ == start,
                expression_spec(start) == (Ok::<ExprView, ErrView>(result@), self@),
                self@.len() == 0 || ends_expression(self@[0]),
            decreases self@.len(),
        {
            let token = match self.front() {
                Some(t) => t,
                None => break,
            };
            if ends_expression_token(&token) {
                break;
            }
            let ghost before = self@;
            match self.parse_element() {
                Err(e) => return Err(e),
                Ok(element) => {
                    result =
                    match result {
                        Expression::Empty => element,
                        other => Expression::FunctionApplication(
                            Box::new(other),
                            Box::new(element),
                        ),
                    };
                },
            }
            assert(self@.len() < before.len());
        }
        Ok(result)
    }

    fn parse_element(&mut self) -> (r: Result<Expression, ParserError>)
        ensures
            final(self)@.len() <= old(self)@.len(),
            (outcome(r), final(self)@) == element_spec(old(self)@),
            r is Ok ==> final(self)@.len() < old(self)@.len(),
        decreases old(self)@.len(), 1nat,
    {
        match self.front() {
            Some(token) => {
                if token == punctuation_token('\\') {
                    self.parse_function_definition()
                } else if token == punctuation_token('(') {
                    self.parse_expression_group()
                } else if let Token::Identifier(_) = token {
                    self.parse_identifier()
                } else {
                    Err(ParserError::new(token, None))
                }
            },
            None => Err(ParserError::new(Token::EOF, None)),
        }
    }

    /// Runs every part of the definition, then reports the first part that
    /// failed.
    fn parse_function_definition(&mut self) -> (r: Result<Expression, ParserError>)
        requires
            old(self)@.len() > 0,
            old(self)@[0] == punct('\\'),
        ensures
            final(self)@.len() <= old(self)@.len(),
            (outcome(r), final(self)@) == definition_spec(old(self)@),
            r is Ok ==> final(self)@.len() < old(self)@.len(),
        decreases old(self)@.len(), 0nat,
    {
        let lambda = self.expect(punctuation_token('\\'));
        let argument = self.parse_identifier();
        let dot = self.expect(punctuation_token('.'));
        let body = self.parse_element();
        match (lambda, argument, dot, body) {
            (Ok(_), Ok(argument), Ok(_), Ok(body)) => Ok(
                Expression::FunctionDefinition(Box::new(argument), Box::new(body)),
            ),
            (Ok(_), Ok(_), Ok(_), Err(e)) => Err(e),
            (Ok(_), Ok(_), Err(e), _) => Err(e),
            (Ok(_), Err(e), _, _) => Err(e),
            (Err(e), _, _, _) => Err(e),
        }
    }

    /// Runs every part of the group, then reports the first part that failed.
    fn parse_expression_group(&mut self) -> (r: Result<Expression, ParserError>)
        requires
            old(self)@.len() > 0,
            old(self)@[0] == punct('('),
        ensures
            final(self)@.len() <= old(self)@.len(),
            (outcome(r), final(self)@) == group_spec(old(self)@),
            r is Ok ==> final(self)@.len() < old(self)@.len(),
        decreases old(self)@.len(), 0nat,
    {
        let lparen = self.expect(punctuation_token('('));
        let expr = self.parse_expression();
        let rparen = self.expect(punctuation_token(')'));
        match (lparen, expr, rparen) {
            (Ok(_), Ok(expr), Ok(_)) => Ok(Expression::ExpressionGroup(Box::new(expr))),
            (Ok(_), Ok(_), Err(e)) => Err(e),
            (Ok(_), Err(e), _) => Err(e),
            (Err(e), _, _) => Err(e),
        }
    }
}

} // verus!
