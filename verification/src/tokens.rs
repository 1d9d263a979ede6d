use vstd::prelude::*;

verus! {

/// Where a token comes from.
#[derive(Clone, Copy, Debug, PartialEq, Eq, Structural)]
pub enum Span {
    /// The token was written by the expansion itself.
    CallSite,
    /// The token is the caller's; the number finds it again in the caller's input.
    Source(usize),
}

/// The brackets round a group of tokens.
#[derive(Clone, Copy, Debug, PartialEq, Eq, Structural)]
pub enum Delimiter {
    Parenthesis,
    Brace,
    Bracket,
    /// A group that was never written with brackets: one operand all the same.
    Invisible,
}

/// One token tree.
#[derive(Debug, PartialEq, Eq)]
pub enum Token {
    Ident { text: String, span: Span },
    Punct { ch: char, joint: bool, span: Span },
    Literal { text: String, span: Span },
    Group { delimiter: Delimiter, inner: Vec<Token>, span: Span },
}

/// What a token tree is, down to its leaves.
pub enum TokenView {
    Ident { text: Seq<char>, span: Span },
    Punct { ch: char, joint: bool, span: Span },
    Literal { text: Seq<char>, span: Span },
    Group { delimiter: Delimiter, inner: Seq<TokenView>, span: Span },
}

/// An identifier with its place.
#[derive(Debug, PartialEq, Eq)]
pub struct Ident {
    pub text: String,
    pub span: Span,
}

/// What an identifier is: its characters and its place.
pub struct IdentView {
    pub text: Seq<char>,
    pub span: Span,
}

impl View for Ident {
    type V = IdentView;

    open spec fn view(&self) -> IdentView {
        IdentView { text: self.text@, span: self.span }
    }
}

impl IdentView {
    /// The identifier as a token.
    pub open spec fn token(self) -> TokenView {
        TokenView::Ident { text: self.text, span: self.span }
    }
}

impl Clone for Ident {
    fn clone(&self) -> (copy: Ident)
        ensures
            copy@ == self@,
    {
        Ident { text: self.text.clone(), span: self.span }
    }
}

impl Ident {
    /// The identifier as a token.
    pub fn into_token(self) -> (t: Token)
        ensures
            t@ == self@.token(),
    {
        Token::Ident { text: self.text, span: self.span }
    }
}

/// The view of a token: its own fields, and the views of the tokens inside it.
pub open spec fn token_view(t: Token) -> TokenView
    decreases t,
{
    match t {
        Token::Ident { text, span } => TokenView::Ident { text: text@, span },
        Token::Punct { ch, joint, span } => TokenView::Punct { ch, joint, span },
        Token::Literal { text, span } => TokenView::Literal { text: text@, span },
        Token::Group { delimiter, inner, span } => TokenView::Group {
            delimiter,
            inner: Seq::new(
                inner@.len(),
                |i: int|
                    if 0 <= i < inner@.len() {
                        token_view(inner@[i])
                    } else {
                        arbitrary()
                    },
            ),
            span,
        },
    }
}

impl View for Token {
    type V = TokenView;

    open spec fn view(&self) -> TokenView {
        token_view(*self)
    }
}

/// The views of a run of tokens, one for one.
pub open spec fn views(tokens: Seq<Token>) -> Seq<TokenView> {
    tokens.map_values(|t: Token| t@)
}

/// A group's view holds the views of the tokens inside it.
pub proof fn lemma_group_view(delimiter: Delimiter, inner: Vec<Token>, span: Span)
    ensures
        (Token::Group { delimiter, inner, span })@ == (TokenView::Group {
            delimiter,
            inner: views(inner@),
            span,
        }),
{
    let t = Token::Group { delimiter, inner, span };
    reveal_with_fuel(token_view, 2);
    assert(t@->Group_inner =~= views(inner@));
}

impl TokenView {
    pub open spec fn span(self) -> Span {
        match self {
            TokenView::Ident { span, .. } => span,
            TokenView::Punct { span, .. } => span,
            TokenView::Literal { span, .. } => span,
            TokenView::Group { span, .. } => span,
        }
    }

    /// The token is the punctuation mark `ch`, whatever follows it.
    pub open spec fn is_punct(self, ch: char) -> bool {
        self matches TokenView::Punct { ch: c, .. } && c == ch
    }
}

/// The text that opens a group.
pub open spec fn opening(delimiter: Delimiter) -> Seq<char> {
    match delimiter {
        Delimiter::Parenthesis | Delimiter::Invisible => seq!['('],
        Delimiter::Brace => seq!['{'],
        Delimiter::Bracket => seq!['['],
    }
}

/// The text that closes a group.
pub open spec fn closing(delimiter: Delimiter) -> Seq<char> {
    match delimiter {
        Delimiter::Parenthesis | Delimiter::Invisible => seq![')'],
        Delimiter::Brace => seq!['}'],
        Delimiter::Bracket => seq![']'],
    }
}

/// One token as source text. A blank follows it, unless it is a punctuation
/// mark that is joined to the next one. An invisible group is written in
/// parentheses: it stands for one operand, as a parenthesised one does.
pub open spec fn token_text(t: TokenView) -> Seq<char>
    decreases t, 0nat,
{
    match t {
        TokenView::Ident { text, .. } => text + seq![' '],
        TokenView::Literal { text, .. } => text + seq![' '],
        TokenView::Punct { ch, joint, .. } => if joint {
            seq![ch]
        } else {
            seq![ch, ' ']
        },
        TokenView::Group { delimiter, inner, .. } => opening(delimiter) + seq![' '] + stream_text(
            inner,
        ) + closing(delimiter) + seq![' '],
    }
}

/// A run of tokens as source text: the text of each, in order.
pub open spec fn stream_text(s: Seq<TokenView>) -> Seq<char>
    decreases s, 1nat,
{
    if s.len() == 0 {
        Seq::empty()
    } else {
        stream_text(s.drop_last()) + token_text(s.last())
    }
}

/// The identifier `text`, written by the expansion.
pub open spec fn word(text: Seq<char>) -> TokenView {
    TokenView::Ident { text, span: Span::CallSite }
}

/// The punctuation mark `ch` with a blank after it, written by the expansion.
pub open spec fn mark(ch: char) -> TokenView {
    TokenView::Punct { ch, joint: false, span: Span::CallSite }
}

/// The punctuation mark `ch` joined to the one after it, written by the
/// expansion.
pub open spec fn joined(ch: char) -> TokenView {
    TokenView::Punct { ch, joint: true, span: Span::CallSite }
}

/// The group of `inner` in `delimiter`, written by the expansion.
pub open spec fn enclosed(delimiter: Delimiter, inner: Seq<TokenView>) -> TokenView {
    TokenView::Group { delimiter, inner, span: Span::CallSite }
}

impl Token {
    /// The identifier `text`, written by the expansion.
    pub fn word(text: &str) -> (t: Token)
        ensures
            t@ == word(text@),
    {
        Token::Ident { text: String::from_str(text), span: Span::CallSite }
    }

    /// The punctuation mark `ch` with a blank after it, written by the
    /// expansion.
    pub fn mark(ch: char) -> (t: Token)
        ensures
            t@ == mark(ch),
    {
        Token::Punct { ch, joint: false, span: Span::CallSite }
    }

    /// The punctuation mark `ch` joined to the one after it, written by the
    /// expansion.
    pub fn joined(ch: char) -> (t: Token)
        ensures
            t@ == joined(ch),
    {
        Token::Punct { ch, joint: true, span: Span::CallSite }
    }

    /// The group of `inner` in `delimiter`, written by the expansion.
    pub fn enclosed(delimiter: Delimiter, inner: Vec<Token>) -> (t: Token)
        ensures
            t@ == enclosed(delimiter, views(inner@)),
    {
        proof {
            lemma_group_view(delimiter, inner, Span::CallSite);
        }
        Token::Group { delimiter, inner, span: Span::CallSite }
    }

    /// The place of the token.
    pub fn span(&self) -> (span: Span)
        ensures
            span == self@.span(),
    {
        match self {
            Token::Ident { span, .. } => *span,
            Token::Punct { span, .. } => *span,
            Token::Literal { span, .. } => *span,
            Token::Group { span, .. } => *span,
        }
    }
}

/// `String::push` of std: the character is appended to the text, which is
/// otherwise unchanged.
pub assume_specification[ String::push ](s: &mut String, ch: char)
    ensures
        final(s)@ == old(s)@.push(ch),
;

fn push_opening(text: &mut String, delimiter: Delimiter)
    ensures
        final(text)@ == old(text)@ + opening(delimiter),
{
    match delimiter {
        Delimiter::Parenthesis | Delimiter::Invisible => text.push('('),
        Delimiter::Brace => text.push('{'),
        Delimiter::Bracket => text.push('['),
    }
    assert(text@ =~= old(text)@ + opening(delimiter));
}

fn push_closing(text: &mut String, delimiter: Delimiter)
    ensures
        final(text)@ == old(text)@ + closing(delimiter),
{
    match delimiter {
        Delimiter::Parenthesis | Delimiter::Invisible => text.push(')'),
        Delimiter::Brace => text.push('}'),
        Delimiter::Bracket => text.push(']'),
    }
    assert(text@ =~= old(text)@ + closing(delimiter));
}

/// Appends the source text of `tokens` to `text`.
fn render_into(tokens: &Vec<Token>, text: &mut String)
    ensures
        final(text)@ == old(text)@ + stream_text(views(tokens@)),
    decreases tokens,
{
    let mut i: usize = 0;
    assert(views(tokens@).take(0) =~= Seq::<TokenView>::empty());
    while i < tokens.len()
        invariant
            i <= tokens.len(),
            text@ == old(text)@ + stream_text(views(tokens@).take(i as int)),
        decreases tokens.len() - i,
    {
        let ghost before = text@;
        let ghost done = views(tokens@).take(i as int);
        let ghost next = views(tokens@).take(i + 1);
        assert(next.drop_last() =~= done);
        assert(next.last() == tokens@[i as int]@);
        match &tokens[i] {
            Token::Ident { text: word, .. } => {
                text.append(word.as_str());
                text.push(' ');
            },
            Token::Literal { text: word, .. } => {
                text.append(word.as_str());
                text.push(' ');
            },
            Token::Punct { ch, joint, .. } => {
                text.push(*ch);
                if !*joint {
                    text.push(' ');
                }
            },
            Token::Group { delimiter, inner, .. } => {
                proof {
                    lemma_group_view(*delimiter, *inner, tokens@[i as int]->Group_span);
                }
                push_opening(text, *delimiter);
                text.push(' ');
                render_into(inner, text);
                push_closing(text, *delimiter);
                text.push(' ');
            },
        }
        assert(text@ =~= before + token_text(tokens@[i as int]@));
        i += 1;
    }
    assert(views(tokens@).take(i as int) =~= views(tokens@));
}

/// The tokens as source text.
pub fn render(tokens: &Vec<Token>) -> (text: String)
    ensures
        text@ == stream_text(views(tokens@)),
{
    let mut text = String::new();
    render_into(tokens, &mut text);
    text
}

} // verus!
