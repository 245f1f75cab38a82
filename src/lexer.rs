use vstd::prelude::*;

verus! {

/// A lexical unit.
#[derive(Debug, Clone)]
pub enum Token {
    Identifier(String),
    Punctuation(String),
    Newline,
    EOF,
    Comment(String),
}

/// The mathematical value of a token: its tag and its text as characters.
pub enum TokenView {
    Identifier(Seq<char>),
    Punctuation(Seq<char>),
    Newline,
    EOF,
    Comment(Seq<char>),
}

impl View for Token {
    type V = TokenView;

    open spec fn view(&self) -> TokenView {
        match self {
            Token::Identifier(s) => TokenView::Identifier(s@),
            Token::Punctuation(s) => TokenView::Punctuation(s@),
            Token::Newline => TokenView::Newline,
            Token::EOF => TokenView::EOF,
            Token::Comment(s) => TokenView::Comment(s@),
        }
    }
}

impl PartialEq for Token {
    fn eq(&self, other: &Token) -> (r: bool)
        ensures
            r == (self@ == other@),
    {
        match (self, other) {
            (Token::Identifier(a), Token::Identifier(b)) => *a == *b,
            (Token::Punctuation(a), Token::Punctuation(b)) => *a == *b,
            (Token::Newline, Token::Newline) => true,
            (Token::EOF, Token::EOF) => true,
            (Token::Comment(a), Token::Comment(b)) => *a == *b,
            _ => false,
        }
    }
}

impl vstd::std_specs::cmp::PartialEqSpecImpl for Token {
    open spec fn obeys_eq_spec() -> bool {
        true
    }

    open spec fn eq_spec(&self, other: &Token) -> bool {
        self@ == other@
    }
}


pub open spec fn is_punct(c: char) -> bool {
    c == '\\' || c == '.' || c == '(' || c == ')'
}

pub open spec fn is_newline_char(c: char) -> bool {
    c == '\n'
}

pub open spec fn is_space(c: char) -> bool {
    c == ' ' || c == '\t' || c == '\r'
}

/// Whether `char::is_alphabetic` holds of a character (Unicode's Alphabetic property).
pub uninterp spec fn alphabetic(c: char) -> bool;

/// Whether `char::is_alphanumeric` holds of a character.
pub uninterp spec fn alphanumeric(c: char) -> bool;

/// Relies on `char::is_alphabetic`, which tells whether `c` has the Alphabetic property.
#[verifier::external_body]
fn char_is_alphabetic(c: char) -> (r: bool)
    ensures
        r == alphabetic(c),
{
    c.is_alphabetic()
}

/// Relies on `char::is_alphanumeric`, documented as `is_alphabetic() || is_numeric()`.
#[verifier::external_body]
fn char_is_alphanumeric(c: char) -> (r: bool)
    ensures
        r == alphanumeric(c),
        alphabetic(c) ==> r,
{
    c.is_alphanumeric()
}

/// Relies on `String::push`, which appends one character.
#[verifier::external_body]
fn push_char(s: &mut String, c: char)
    ensures
        final(s)@ == old(s)@.push(c),
{
    s.push(c)
}

/// Length of the leading run of alphanumeric characters of `s`, which ends
/// at the first separator.
pub open spec fn word_len(s: Seq<char>) -> nat
    decreases s.len(),
{
    if s.len() > 0 && !is_separator(s[0]) && alphanumeric(s[0]) {
        1 + word_len(s.drop_first())
    } else {
        0
    }
}

/// Length of the leading run of characters of `s` that are not a newline.
pub open spec fn line_len(s: Seq<char>) -> nat
    decreases s.len(),
{
    if s.len() > 0 && !is_newline_char(s[0]) {
        1 + line_len(s.drop_first())
    } else {
        0
    }
}

/// The token at the front of `s` and the input left after it, trying the
/// character classes in their fixed order; `None` where the next character
/// after any spaces belongs to no class.
pub open spec fn front_token(s: Seq<char>) -> Option<(TokenView, Seq<char>)>
    decreases s.len(),
{
    if s.len() == 0 {
        Some((TokenView::EOF, s))
    } else if is_punct(s[0]) {
        Some((TokenView::Punctuation(s.take(1)), s.drop_first()))
    } else if is_newline_char(s[0]) {
        Some((TokenView::Newline, s.drop_first()))
    } else if is_space(s[0]) {
        front_token(s.drop_first())
    } else if s[0] == '#' {
        let n: int = line_len(s.drop_first()) as int;
        Some((TokenView::Comment(s.drop_first().take(n)), s.drop_first().skip(n)))
    } else if alphabetic(s[0]) {
        let n: int = 1 + word_len(s.drop_first()) as int;
        Some((TokenView::Identifier(s.take(n)), s.skip(n)))
    } else {
        None
    }
}


/// The tokens of `s`, up to and including the end marker; `None` where some
/// character on the way belongs to no class.
pub open spec fn tokens_of(s: Seq<char>) -> Option<Seq<TokenView>>
    decreases s.len(),
{
    match front_token(s) {
        None => None,
        Some((t, rest)) => {
            if t is EOF {
                Some(seq![t])
            } else if rest.len() < s.len() {
                match tokens_of(rest) {
                    None => None,
                    Some(ts) => Some(seq![t] + ts),
                }
            } else {
                None
            }
        },
    }
}

/// The views of a sequence of tokens.
pub open spec fn views(ts: Seq<Token>) -> Seq<TokenView> {
    ts.map_values(|t: Token| t@)
}

proof fn lemma_word_len_bound(s: Seq<char>)
    ensures
        word_len(s) <= s.len(),
    decreases s.len(),
{
    if s.len() > 0 {
        lemma_word_len_bound(s.drop_first());
    }
}

proof fn lemma_line_len_bound(s: Seq<char>)
    ensures
        line_len(s) <= s.len(),
    decreases s.len(),
{
    if s.len() > 0 {
        lemma_line_len_bound(s.drop_first());
    }
}

/// What `front_token` leaves is a suffix of its input, shorter unless the
/// token is the end marker, and empty when it is.
pub proof fn lemma_front_token_suffix(s: Seq<char>)
    ensures
        front_token(s) matches Some((t, rest)) ==> {
            &&& rest.len() <= s.len()
            &&& rest == s.skip(s.len() - rest.len())
            &&& t is EOF ==> rest.len() == 0
            &&& !(t is EOF) ==> rest.len() < s.len()
        },
    decreases s.len(),
{
    if s.len() > 0 {
        let n = s.len();
        lemma_word_len_bound(s.drop_first());
        lemma_line_len_bound(s.drop_first());
        if !is_punct(s[0]) && !is_newline_char(s[0]) && is_space(s[0]) {
            lemma_front_token_suffix(s.drop_first());
            if let Some((t, rest)) = front_token(s) {
                assert(s.drop_first().skip(s.drop_first().len() - rest.len()) =~= s.skip(
                    s.len() - rest.len(),
                ));
            }
        } else if !is_punct(s[0]) && !is_newline_char(s[0]) && s[0] == '#' {
            let k = line_len(s.drop_first()) as int;
            assert(s.drop_first().skip(k) =~= s.skip(1 + k));
        } else if !is_punct(s[0]) && !is_newline_char(s[0]) && alphabetic(s[0]) {
        } else {
            assert(s.drop_first() =~= s.skip(1));
        }
    }
}

/// A token that is no run of layout: an identifier opens with an alphabetic
/// character (which `char::is_alphanumeric` counts too), goes on with
/// alphanumeric ones and holds no space, newline or `#`; punctuation is one
/// punctuation character.
pub open spec fn solid(t: TokenView) -> bool {
    match t {
        TokenView::Identifier(w) => {
            &&& w.len() > 0
            &&& alphabetic(w[0])
            &&& !is_punct(w[0])
            &&& forall|i: int| 1 <= i < w.len() ==> alphanumeric(#[trigger] w[i])
            &&& forall|i: int| 0 <= i < w.len() ==> !is_separator(#[trigger] w[i])
        },
        TokenView::Punctuation(p) => p.len() == 1 && is_punct(p[0]),
        _ => true,
    }
}

proof fn lemma_front_token_solid(s: Seq<char>)
    ensures
        front_token(s) matches Some((t, _)) ==> solid(t),
    decreases s.len(),
{
    if s.len() > 0 && !is_punct(s[0]) && !is_newline_char(s[0]) && is_space(s[0]) {
        lemma_front_token_solid(s.drop_first());
    } else if s.len() > 0 && !is_punct(s[0]) && !is_newline_char(s[0]) && s[0] != '#'
        && alphabetic(s[0]) {
        let u = s.drop_first();
        let n = 1 + word_len(u) as int;
        lemma_word_len_bound(u);
        let w = s.take(n);
        assert forall|i: int| 1 <= i < w.len() implies alphanumeric(#[trigger] w[i]) && !is_separator(
            w[i],
        ) by {
            lemma_word_chars(u, i - 1);
            assert(w[i] == u[i - 1]);
        }
        assert forall|i: int| 0 <= i < w.len() implies !is_separator(#[trigger] w[i]) by {
            if i > 0 {
                lemma_word_chars(u, i - 1);
                assert(w[i] == u[i - 1]);
            }
        }
    }
}

/// Lexing an input whose characters all belong to the known classes gives
/// tokens that end in exactly one end marker, and no token made of layout.
pub proof fn lemma_tokens_end_once(s: Seq<char>)
    requires
        tokens_of(s) is Some,
    ensures
        ({
            let ts = tokens_of(s)->0;
            &&& ts.len() > 0
            &&& ts.last() is EOF
            &&& forall|i: int| 0 <= i < ts.len() - 1 ==> !(#[trigger] ts[i] is EOF)
            &&& forall|i: int| 0 <= i < ts.len() ==> solid(#[trigger] ts[i])
        }),
    decreases s.len(),
{
    lemma_front_token_suffix(s);
    lemma_front_token_solid(s);
    let (t, rest) = front_token(s)->0;
    if !(t is EOF) {
        lemma_tokens_end_once(rest);
        let ts = tokens_of(s)->0;
        let tail = tokens_of(rest)->0;
        assert(ts == seq![t] + tail);
        assert forall|i: int| 0 <= i < ts.len() - 1 implies !(#[trigger] ts[i] is EOF) by {
            if i > 0 {
                assert(ts[i] == tail[i - 1]);
            }
        }
        assert forall|i: int| 0 <= i < ts.len() implies solid(#[trigger] ts[i]) by {
            if i > 0 {
                assert(ts[i] == tail[i - 1]);
            }
        }
    }
}

/// The text that a token carries of the input: none for a newline or the end
/// marker, and a comment without its `#`.
pub open spec fn token_text(t: TokenView) -> Seq<char> {
    match t {
        TokenView::Identifier(w) => w,
        TokenView::Punctuation(p) => p,
        TokenView::Comment(c) => c,
        _ => seq![],
    }
}

/// The texts of a token sequence, concatenated.
pub open spec fn texts(ts: Seq<TokenView>) -> Seq<char>
    decreases ts.len(),
{
    if ts.len() == 0 {
        seq![]
    } else {
        token_text(ts[0]) + texts(ts.drop_first())
    }
}

/// `s` without spaces and newlines, where the `#` that opens a comment is
/// dropped and the comment's own characters are kept (`in_comment` says
/// whether `s` starts inside a comment).
pub open spec fn without_layout(s: Seq<char>, in_comment: bool) -> Seq<char>
    decreases s.len(),
{
    if s.len() == 0 {
        s
    } else if in_comment {
        if is_newline_char(s[0]) {
            without_layout(s.drop_first(), false)
        } else {
            seq![s[0]] + without_layout(s.drop_first(), true)
        }
    } else if s[0] == '#' {
        without_layout(s.drop_first(), true)
    } else if is_space(s[0]) || is_newline_char(s[0]) {
        without_layout(s.drop_first(), false)
    } else {
        seq![s[0]] + without_layout(s.drop_first(), false)
    }
}

/// A character that separates tokens: `#`, a space or a newline.
pub open spec fn is_separator(c: char) -> bool {
    c == '#' || is_space(c) || is_newline_char(c)
}


proof fn lemma_word_chars(s: Seq<char>, i: int)
    requires
        0 <= i < word_len(s),
    ensures
        i < s.len(),
        alphanumeric(s[i]),
        !is_separator(s[i]),
    decreases s.len(),
{
    if i > 0 {
        lemma_word_chars(s.drop_first(), i - 1);
    }
}

proof fn lemma_without_layout_keeps(s: Seq<char>, k: int)
    requires
        0 <= k <= s.len(),
        forall|i: int| 0 <= i < k ==> !is_separator(#[trigger] s[i]),
    ensures
        without_layout(s, false) == s.take(k) + without_layout(s.skip(k), false),
    decreases k,
{
    if k == 0 {
        assert(s.skip(0) =~= s);
        assert(s.take(0) + s =~= s);
    } else {
        lemma_without_layout_keeps(s.drop_first(), k - 1);
        assert(s.drop_first().skip(k - 1) =~= s.skip(k));
        assert(seq![s[0]] + s.drop_first().take(k - 1) =~= s.take(k));
        assert(without_layout(s, false) == seq![s[0]] + without_layout(s.drop_first(), false));
        assert(seq![s[0]] + (s.drop_first().take(k - 1) + without_layout(s.skip(k), false))
            =~= s.take(k) + without_layout(s.skip(k), false));
    }
}

proof fn lemma_without_layout_comment(u: Seq<char>)
    ensures
        without_layout(u, true) == u.take(line_len(u) as int) + without_layout(
            u.skip(line_len(u) as int),
            false,
        ),
    decreases u.len(),
{
    let n = line_len(u) as int;
    if u.len() == 0 {
        assert(u.take(0) + without_layout(u.skip(0), false) =~= u);
    } else if is_newline_char(u[0]) {
        assert(u.skip(0) =~= u);
        assert(u.take(0) + without_layout(u, false) =~= without_layout(u, false));
    } else {
        lemma_without_layout_comment(u.drop_first());
        lemma_line_len_bound(u.drop_first());
        assert(n == 1 + line_len(u.drop_first()));
        assert(u.drop_first().skip(n - 1) =~= u.skip(n));
        assert(seq![u[0]] + u.drop_first().take(n - 1) =~= u.take(n));
        assert(seq![u[0]] + (u.drop_first().take(n - 1) + without_layout(u.skip(n), false))
            =~= u.take(n) + without_layout(u.skip(n), false));
    }
}

proof fn lemma_texts_prepend(t: TokenView, ts: Seq<TokenView>)
    ensures
        texts(seq![t] + ts) == token_text(t) + texts(ts),
{
    assert((seq![t] + ts).drop_first() =~= ts);
}

/// Spaces in front of a token change neither the token nor what follows.
proof fn lemma_tokens_of_space(s: Seq<char>)
    requires
        s.len() > 0,
        !is_punct(s[0]),
        !is_newline_char(s[0]),
        is_space(s[0]),
    ensures
        tokens_of(s) == tokens_of(s.drop_first()),
{
    lemma_front_token_suffix(s.drop_first());
}

/// Joining the texts of the tokens of an input gives back the input without
/// its spaces and newlines, where each comment keeps its characters and loses
/// its `#`.
pub proof fn lemma_texts_rebuild_input(s: Seq<char>)
    requires
        tokens_of(s) is Some,
    ensures
        texts(tokens_of(s)->0) == without_layout(s, false),
    decreases s.len(),
{
    lemma_front_token_suffix(s);
    if s.len() == 0 {
        let ts = seq![TokenView::EOF];
        assert(tokens_of(s)->0 == ts);
        assert(ts.drop_first() =~= Seq::<TokenView>::empty());
        assert(texts(ts.drop_first()) == Seq::<char>::empty());
        assert(texts(ts) =~= Seq::<char>::empty());
        return;
    }
    let (t, rest) = front_token(s)->0;
    let c = s[0];
    if is_punct(c) || is_newline_char(c) || !is_space(c) {
        lemma_texts_rebuild_input(rest);
        lemma_texts_prepend(t, tokens_of(rest)->0);
        assert(tokens_of(s)->0 == seq![t] + tokens_of(rest)->0);
        if is_punct(c) {
            assert(seq![c] =~= s.take(1));
        } else if is_newline_char(c) {
            assert(token_text(t) + texts(tokens_of(rest)->0) =~= texts(tokens_of(rest)->0));
        } else if c == '#' {
            lemma_without_layout_comment(s.drop_first());
        } else {
            let n = 1 + word_len(s.drop_first()) as int;
            lemma_word_len_bound(s.drop_first());
            assert(!is_separator(c));
            assert forall|i: int| 0 <= i < n implies !is_separator(#[trigger] s[i]) by {
                if i > 0 {
                    lemma_word_chars(s.drop_first(), i - 1);
                    assert(s.drop_first()[i - 1] == s[i]);
                }
            }
            lemma_without_layout_keeps(s, n);
        }
    } else {
        lemma_tokens_of_space(s);
        lemma_texts_rebuild_input(s.drop_first());
    }
}

/// Keeps the characters that are neither spaces nor newlines.
pub open spec fn not_layout() -> spec_fn(char) -> bool {
    |c: char| !is_space(c) && !is_newline_char(c)
}

proof fn lemma_without_layout_plain(s: Seq<char>)
    requires
        !s.contains('#'),
    ensures
        without_layout(s, false) == s.filter(not_layout()),
    decreases s.len(),
{
    reveal_with_fuel(Seq::filter, 2);
    if s.len() > 0 {
        let c = s[0];
        assert(!s.drop_first().contains('#')) by {
            if s.drop_first().contains('#') {
                let i = choose|i: int| 0 <= i < s.drop_first().len() && s.drop_first()[i] == '#';
                assert(s[i + 1] == '#');
            }
        }
        assert(c != '#') by {
            assert(s[0] == c);
        }
        lemma_without_layout_plain(s.drop_first());
        assert(s =~= seq![c] + s.drop_first());
        Seq::filter_distributes_over_add(seq![c], s.drop_first(), not_layout());
        assert(seq![c].drop_last() =~= Seq::<char>::empty());
        if not_layout()(c) {
            assert(seq![c].filter(not_layout()) =~= seq![c]);
        } else {
            assert(seq![c].filter(not_layout()) =~= Seq::<char>::empty());
            assert(Seq::<char>::empty() + s.drop_first().filter(not_layout()) =~= s.drop_first().filter(
                not_layout(),
            ));
        }
    }
}

/// In an input without comments, joining the texts of the tokens gives back
/// the input with its spaces and newlines removed.
pub proof fn lemma_texts_without_comments(s: Seq<char>)
    requires
        tokens_of(s) is Some,
        !s.contains('#'),
    ensures
        texts(tokens_of(s)->0) == s.filter(not_layout()),
{
    lemma_texts_rebuild_input(s);
    lemma_without_layout_plain(s);
}

/// A cursor over the characters of one input.
#[derive(Debug)]
pub struct Lexer {
    chars: Vec<char>,
    pos: usize,
}

impl View for Lexer {
    type V = Seq<char>;

    /// The characters not yet consumed.
    closed spec fn view(&self) -> Seq<char> {
        self.chars@.skip(self.pos as int)
    }
}

impl Lexer {
    pub closed spec fn wf(&self) -> bool {
        self.pos <= self.chars.len()
    }

    pub fn new(input: &str) -> (r: Lexer)
        ensures
            r.wf(),
            r@ == input@,
    {
        let mut chars: Vec<char> = Vec::new();
        for c in it: input.chars()
            invariant
                chars@ == it.seq().take(it.index() as int),
        {
            chars.push(c);
        }
        assert(chars@ =~= input@);
        let r = Lexer { chars, pos: 0 };
        assert(r@ =~= chars@);
        r
    }

    fn peek_char(&self) -> (r: Option<char>)
        requires
            self.wf(),
        ensures
            r == (if self@.len() > 0 {
                Some(self@[0])
            } else {
                None::<char>
            }),
    {
        if self.pos < self.chars.len() {
            Some(self.chars[self.pos])
        } else {
            None
        }
    }

    fn bump(&mut self)
        requires
            old(self).wf(),
            old(self)@.len() > 0,
        ensures
            final(self).wf(),
            final(self)@ == old(self)@.drop_first(),
            final(self).pos == old(self).pos + 1,
    {
        self.pos = self.pos + 1;
        assert(self@ =~= old(self)@.drop_first());
    }

    fn lex_punctuation(&mut self) -> (r: Token)
        requires
            old(self).wf(),
            old(self)@.len() > 0,
        ensures
            final(self).wf(),
            r@ == TokenView::Punctuation(old(self)@.take(1)),
            final(self)@ == old(self)@.drop_first(),
    {
        let c = self.chars[self.pos];
        self.bump();
        let mut text = String::new();
        push_char(&mut text, c);
        assert(text@ =~= old(self)@.take(1));
        Token::Punctuation(text)
    }

    fn lex_identifier(&mut self) -> (r: Token)
        requires
            old(self).wf(),
            old(self)@.len() > 0,
            alphabetic(old(self)@[0]),
            !is_separator(old(self)@[0]),
        ensures
            final(self).wf(),
            r@ == TokenView::Identifier(old(self)@.take(1 + word_len(old(self)@.drop_first()) as int)),
            final(self)@ == old(self)@.skip(1 + word_len(old(self)@.drop_first()) as int),
    {
        let ghost start = self@;
        let mut identifier = String::new();
        let mut k: usize = 0;
        loop
            invariant
                self.wf(),
                k <= start.len(),
                self@ == start.skip(k as int),
                identifier@ == start.take(k as int),
                word_len(start) == k + word_len(self@),
                start.len() > 0,
                alphabetic(start[0]),
                !is_separator(start[0]),
                k <= self.pos,
                k == 0 ==> self@ == start,
                k > 0 ==> alphanumeric(start[0]),
            ensures
                k > 0,
                word_len(self@) == 0,
            decreases self@.len(),
        {
            match self.peek_char() {
                Some(x) => {
                    if x == '#' || is_whitespace(&x) || is_newline(&x) || !char_is_alphanumeric(
                        x,
                    ) {
                        break;
                    }
                    push_char(&mut identifier, x);
                    self.bump();
                    k = k + 1;
                    assert(identifier@ =~= start.take(k as int));
                    assert(self@ =~= start.skip(k as int));
                },
                None => break,
            }
        }
        assert(word_len(start) == 1 + word_len(start.drop_first()));
        Token::Identifier(identifier)
    }

    fn lex_newline(&mut self) -> (r: Token)
        requires
            old(self).wf(),
            old(self)@.len() > 0,
        ensures
            final(self).wf(),
            r@ == TokenView::Newline,
            final(self)@ == old(self)@.drop_first(),
    {
        self.bump();
        Token::Newline
    }

    fn lex_eof(&mut self) -> (r: Token)
        ensures
            r@ == TokenView::EOF,
            *final(self) == *old(self),
    {
        Token::EOF
    }

    fn lex_comment(&mut self) -> (r: Token)
        requires
            old(self).wf(),
            old(self)@.len() > 0,
        ensures
            final(self).wf(),
            r@ == TokenView::Comment(
                old(self)@.drop_first().take(line_len(old(self)@.drop_first()) as int),
            ),
            final(self)@ == old(self)@.drop_first().skip(line_len(old(self)@.drop_first()) as int),
    {
        // The marker itself is not part of the comment.
        self.bump();
        let ghost start = self@;
        let mut comment = String::new();
        let mut k: usize = 0;
        loop
            invariant
                self.wf(),
                k <= start.len(),
                self@ == start.skip(k as int),
                comment@ == start.take(k as int),
                line_len(start) == k + line_len(self@),
                k <= self.pos,
            ensures
                line_len(self@) == 0,
            decreases self@.len(),
        {
            match self.peek_char() {
                Some(x) => {
                    if x == '\n' {
                        break;
                    }
                    push_char(&mut comment, x);
                    self.bump();
                    k = k + 1;
                    assert(comment@ =~= start.take(k as int));
                    assert(self@ =~= start.skip(k as int));
                },
                None => break,
            }
        }
        Token::Comment(comment)
    }

    /// The next token, or `None` where the next character after any spaces
    /// belongs to no class. Spaces and `#` are told apart before the
    /// character classes are asked.
    fn try_lex(&mut self) -> (r: Option<Token>)
        requires
            old(self).wf(),
        ensures
            final(self).wf(),
            match front_token(old(self)@) {
                None => r is None,
                Some((t, rest)) => r matches Some(tok) && tok@ == t && final(self)@ == rest,
            },
        decreases old(self)@.len(),
    {
        match self.peek_char() {
            Some(x) => {
                if is_punctuation(&x) {
                    Some(self.lex_punctuation())
                } else if is_newline(&x) {
                    Some(self.lex_newline())
                } else if is_whitespace(&x) {
                    self.bump();
                    self.try_lex()
                } else if x == '#' {
                    Some(self.lex_comment())
                } else if char_is_alphabetic(x) {
                    Some(self.lex_identifier())
                } else {
                    None
                }
            },
            None => Some(self.lex_eof()),
        }
    }

    /// The next token; characters outside the known classes are excluded.
    pub fn lex(&mut self) -> (r: Token)
        requires
            old(self).wf(),
            front_token(old(self)@) is Some,
        ensures
            final(self).wf(),
            front_token(old(self)@) == Some((r@, final(self)@)),
    {
        match self.try_lex() {
            Some(t) => t,
            None => {
                proof {
                    assert(false);
                }
                Token::EOF
            },
        }
    }

    /// All tokens of the rest of the input, up to and including the end marker.
    pub fn lex_all(&mut self) -> (r: Vec<Token>)
        requires
            old(self).wf(),
            tokens_of(old(self)@) is Some,
        ensures
            final(self).wf(),
            tokens_of(old(self)@) == Some(views(r@)),
            final(self)@.len() == 0,
    {
        let ghost start = self@;
        let mut tokens: Vec<Token> = Vec::new();
        let mut is_eof = false;
        while !is_eof
            invariant
                self.wf(),
                !is_eof ==> tokens_of(self@) is Some && tokens_of(start) == Some(
                    views(tokens@) + tokens_of(self@)->0,
                ),
                is_eof ==> tokens_of(start) == Some(views(tokens@)) && self@.len() == 0,
            decreases self@.len() + if is_eof {
                0int
            } else {
                1int
            },
        {
            proof {
                lemma_front_token_suffix(self@);
            }
            let ghost before = self@;
            let token = self.lex();
            let ghost ts = views(tokens@);
            if token == Token::EOF {
                is_eof = true;
            }
            tokens.push(token);
            assert(views(tokens@) =~= ts.push(token@));
            if !is_eof {
                assert(tokens_of(before) == Some(seq![token@] + tokens_of(self@)->0));
                assert(views(tokens@) + tokens_of(self@)->0 =~= ts + (seq![token@] + tokens_of(
                    self@,
                )->0));
            } else {
                assert(tokens_of(before) == Some(seq![token@]));
            }
        }
        tokens
    }
}

/// The tokens of `text`, up to and including the end marker; `None` where
/// some character belongs to no class.
pub fn tokenize(text: &str) -> (r: Option<Vec<Token>>)
    ensures
        match r {
            Some(v) => tokens_of(text@) == Some(views(v@)),
            None => tokens_of(text@) is None,
        },
{
    let mut probe = Lexer::new(text);
    if probe.lexes_through() {
        let mut lexer = Lexer::new(text);
        Some(lexer.lex_all())
    } else {
        None
    }
}

impl Lexer {
    /// Whether every character of the rest of the input, up to the end,
    /// belongs to a known class; consumes the input on the way.
    fn lexes_through(&mut self) -> (r: bool)
        requires
            old(self).wf(),
        ensures
            r == (tokens_of(old(self)@) is Some),
    {
        let ghost start = self@;
        loop
            invariant
                self.wf(),
                start == old(self)@,
                (tokens_of(start) is Some) == (tokens_of(self@) is Some),
            decreases self@.len(),
        {
            proof {
                lemma_front_token_suffix(self@);
            }
            match self.try_lex() {
                None => return false,
                Some(token) => {
                    if token == Token::EOF {
                        return true;
                    }
                },
            }
        }
    }
}

/// The punctuation token for `c`.
pub(crate) fn punctuation_token(c: char) -> (r: Token)
    ensures
        r@ == TokenView::Punctuation(seq![c]),
{
    let mut text = String::new();
    push_char(&mut text, c);
    assert(text@ =~= seq![c]);
    Token::Punctuation(text)
}

fn is_whitespace(c: &char) -> (r: bool)
    ensures
        r == is_space(*c),
{
    *c == ' ' || *c == '\t' || *c == '\r'
}

fn is_newline(c: &char) -> (r: bool)
    ensures
        r == is_newline_char(*c),
{
    *c == '\n'
}

fn is_punctuation(c: &char) -> (r: bool)
    ensures
        r == is_punct(*c),
{
    let c = *c;
    c == '\\' || c == '.' || c == '(' || c == ')'
}

} // verus!
