use crate::scan::scan_expression;
use crate::tokens::{render, views, Delimiter, Ident, IdentView, Span, Token, TokenView};
use vstd::prelude::*;

verus! {

/// An expression: the tokens it was written with.
#[derive(Debug, PartialEq, Eq)]
pub struct Expr {
    pub tokens: Vec<Token>,
}

/// An `async` block: the tokens it was written with.
#[derive(Debug, PartialEq, Eq)]
pub struct ExprAsync {
    pub tokens: Vec<Token>,
}

/// The value of a field, by its kind.
#[derive(Debug, PartialEq, Eq)]
pub enum FieldType {
    /// An `async` block, to be resolved together with the others.
    Future(ExprAsync),
    /// Any other expression, used as it stands.
    Normal(Expr),
}

/// One `name: value` of the invocation.
#[derive(Debug, PartialEq, Eq)]
pub struct FuturedField {
    pub name: Ident,
    pub value: FieldType,
}

/// The invocation `Name { field: value, .. }`.
#[derive(Debug, PartialEq, Eq)]
pub struct OutputStructAbstraction {
    pub struct_name: Ident,
    pub fields: Vec<FuturedField>,
}

/// What is wrong with an invocation that does not parse.
#[derive(Clone, Copy, Debug, PartialEq, Eq, Structural)]
pub enum Fault {
    /// A name was due, and something else stands there.
    ExpectedIdentifier,
    /// A name was due, and a keyword stands there.
    ReservedWord,
    /// The braces round the fields were due.
    ExpectedBraces,
    /// The `:` between a field's name and its value was due.
    ExpectedColon,
    /// The `,` between two fields was due.
    ExpectedComma,
    /// Something follows the closing brace.
    UnexpectedToken,
    /// A field's value is no expression.
    Expression,
    /// A token's text does not read back as that one token.
    Inconsistent,
}

/// A syntax error and its place.
#[derive(Debug, PartialEq, Eq)]
pub struct ParseError {
    pub fault: Fault,
    /// The offending token, and for a value that is no expression the first
    /// token of the value; where the input ended too early, the group that
    /// ended, or the call site for the invocation itself.
    pub span: Span,
    /// The input ended where something was due.
    pub at_end: bool,
    /// The keyword of `ReservedWord`, the parser's message of `Expression`,
    /// and empty otherwise.
    pub detail: String,
}

pub enum FieldTypeView {
    Future(Seq<TokenView>),
    Normal(Seq<TokenView>),
}

pub struct FieldView {
    pub name: IdentView,
    pub value: FieldTypeView,
}

pub struct DescriptorView {
    pub struct_name: IdentView,
    pub fields: Seq<FieldView>,
}

pub struct ParseErrorView {
    pub fault: Fault,
    pub span: Span,
    pub at_end: bool,
    pub detail: Seq<char>,
}

impl View for Expr {
    type V = Seq<TokenView>;

    open spec fn view(&self) -> Seq<TokenView> {
        views(self.tokens@)
    }
}

impl View for ExprAsync {
    type V = Seq<TokenView>;

    open spec fn view(&self) -> Seq<TokenView> {
        views(self.tokens@)
    }
}

impl View for FieldType {
    type V = FieldTypeView;

    open spec fn view(&self) -> FieldTypeView {
        match self {
            FieldType::Future(block) => FieldTypeView::Future(block@),
            FieldType::Normal(expr) => FieldTypeView::Normal(expr@),
        }
    }
}

impl View for FuturedField {
    type V = FieldView;

    open spec fn view(&self) -> FieldView {
        FieldView { name: self.name@, value: self.value@ }
    }
}

/// The views of a run of fields, one for one.
pub open spec fn field_views(fields: Seq<FuturedField>) -> Seq<FieldView> {
    fields.map_values(|f: FuturedField| f@)
}

impl View for OutputStructAbstraction {
    type V = DescriptorView;

    open spec fn view(&self) -> DescriptorView {
        DescriptorView { struct_name: self.struct_name@, fields: field_views(self.fields@) }
    }
}

impl View for ParseError {
    type V = ParseErrorView;

    open spec fn view(&self) -> ParseErrorView {
        ParseErrorView {
            fault: self.fault,
            span: self.span,
            at_end: self.at_end,
            detail: self.detail@,
        }
    }
}

impl FieldTypeView {
    /// The tokens of the value, whatever its kind.
    pub open spec fn tokens(self) -> Seq<TokenView> {
        match self {
            FieldTypeView::Future(tokens) => tokens,
            FieldTypeView::Normal(tokens) => tokens,
        }
    }
}

impl FieldView {
    /// The field's value is an `async` block.
    pub open spec fn is_future(self) -> bool {
        self.value is Future
    }
}

/// What was due where a fault was found, in words.
pub open spec fn expectation(fault: Fault) -> Seq<char> {
    match fault {
        Fault::ExpectedIdentifier | Fault::ReservedWord => "expected identifier"@,
        Fault::ExpectedBraces => "expected curly braces"@,
        Fault::ExpectedColon => "expected `:`"@,
        Fault::ExpectedComma => "expected `,`"@,
        Fault::UnexpectedToken => "unexpected token"@,
        Fault::Expression => "expected an expression"@,
        Fault::Inconsistent => "expected tokens that read back from their text"@,
    }
}

/// The diagnostic of a syntax error: for a value that is no expression the
/// parser's own message, for a keyword the keyword by name, and else what
/// was due, with a note where the input ended before it.
pub open spec fn message_text(e: ParseErrorView) -> Seq<char> {
    match e.fault {
        Fault::Expression => e.detail,
        Fault::ReservedWord => "expected identifier, found keyword `"@ + e.detail + "`"@,
        _ => if e.at_end {
            "unexpected end of input, "@ + expectation(e.fault)
        } else {
            expectation(e.fault)
        },
    }
}

/// The words that cannot be a name: `_` and the keywords of Rust, those kept
/// for later use included.
pub open spec fn reserved_word(text: Seq<char>) -> bool {
    ||| text == "_"@
    ||| text == "abstract"@
    ||| text == "as"@
    ||| text == "async"@
    ||| text == "await"@
    ||| text == "become"@
    ||| text == "box"@
    ||| text == "break"@
    ||| text == "const"@
    ||| text == "continue"@
    ||| text == "crate"@
    ||| text == "do"@
    ||| text == "dyn"@
    ||| text == "else"@
    ||| text == "enum"@
    ||| text == "extern"@
    ||| text == "false"@
    ||| text == "final"@
    ||| text == "fn"@
    ||| text == "for"@
    ||| text == "if"@
    ||| text == "impl"@
    ||| text == "in"@
    ||| text == "let"@
    ||| text == "loop"@
    ||| text == "macro"@
    ||| text == "match"@
    ||| text == "mod"@
    ||| text == "move"@
    ||| text == "mut"@
    ||| text == "override"@
    ||| text == "priv"@
    ||| text == "pub"@
    ||| text == "ref"@
    ||| text == "return"@
    ||| text == "Self"@
    ||| text == "self"@
    ||| text == "static"@
    ||| text == "struct"@
    ||| text == "super"@
    ||| text == "trait"@
    ||| text == "true"@
    ||| text == "try"@
    ||| text == "type"@
    ||| text == "typeof"@
    ||| text == "unsafe"@
    ||| text == "unsized"@
    ||| text == "use"@
    ||| text == "virtual"@
    ||| text == "where"@
    ||| text == "while"@
    ||| text == "yield"@
}

/// An error at a token that is there.
pub open spec fn fault_at(fault: Fault, token: TokenView) -> ParseErrorView {
    ParseErrorView { fault, span: token.span(), at_end: false, detail: Seq::empty() }
}

/// An error where the input ended, inside `scope`.
pub open spec fn fault_at_end(fault: Fault, scope: Span) -> ParseErrorView {
    ParseErrorView { fault, span: scope, at_end: true, detail: Seq::empty() }
}

/// An error at the front of `s`: at its first token or, where there is none,
/// at the end of `scope`.
pub open spec fn fault_in_front(fault: Fault, s: Seq<TokenView>, scope: Span, detail: Seq<char>)
    -> ParseErrorView {
    if s.len() == 0 {
        ParseErrorView { fault, span: scope, at_end: true, detail }
    } else {
        ParseErrorView { fault, span: s[0].span(), at_end: false, detail }
    }
}

/// The name that `s` begins with: an identifier that is no reserved word.
pub open spec fn name_of(s: Seq<TokenView>, scope: Span) -> Result<IdentView, ParseErrorView> {
    if s.len() == 0 {
        Err(fault_at_end(Fault::ExpectedIdentifier, scope))
    } else {
        match s[0] {
            TokenView::Ident { text, span } => if reserved_word(text) {
                Err(ParseErrorView { fault: Fault::ReservedWord, span, at_end: false, detail: text })
            } else {
                Ok(IdentView { text, span })
            },
            other => Err(fault_at(Fault::ExpectedIdentifier, other)),
        }
    }
}

/// What one scan by the parser of expressions hands back. `Ok((is_async, rest))`:
/// the text begins with an expression, which as a whole is an `async` block
/// or is not, and `rest` token trees follow it. `Err(message)`: the text
/// begins with no expression.
pub type Finding = Result<(bool, nat), Seq<char>>;

/// The findings of the scans that parsing an invocation makes, one for the
/// value of each field: `scans(n)` is what the scan for the `n`th field
/// handed back.
pub type Scans = spec_fn(int) -> Finding;

/// The value that `s` begins with and the number of tokens it takes, given what
/// the parser of expressions found at the front of the text of `s`.
/// The value is the tokens up to those that the parser left over, and it is
/// a future exactly when the parser read an `async` block.
pub open spec fn value_of(s: Seq<TokenView>, scope: Span, found: Finding) -> Result<
    (FieldTypeView, int),
    ParseErrorView,
> {
    match found {
        Err(message) => Err(fault_in_front(Fault::Expression, s, scope, message)),
        Ok((is_async, rest)) => if rest >= s.len() {
            Err(fault_in_front(Fault::Inconsistent, s, scope, Seq::empty()))
        } else {
            let used = s.len() - rest;
            if is_async {
                Ok((FieldTypeView::Future(s.take(used)), used))
            } else {
                Ok((FieldTypeView::Normal(s.take(used)), used))
            }
        },
    }
}

/// The field `name: value` that `s` begins with, and the number of tokens it
/// takes, given what the parser of expressions found behind the `:`. Without
/// a name and a `:` the finding does not count.
pub open spec fn field_of(s: Seq<TokenView>, scope: Span, found: Finding) -> Result<
    (FieldView, int),
    ParseErrorView,
> {
    match name_of(s, scope) {
        Err(e) => Err(e),
        Ok(name) => if s.len() < 2 {
            Err(fault_at_end(Fault::ExpectedColon, scope))
        } else if !s[1].is_punct(':') {
            Err(fault_at(Fault::ExpectedColon, s[1]))
        } else {
            match value_of(s.skip(2), scope, found) {
                Err(e) => Err(e),
                Ok((value, used)) => Ok((FieldView { name, value }, used + 2)),
            }
        },
    }
}

/// The fields that make up `s`: fields with a `,` between each two, and
/// possibly one after the last. The first of them is the `nth` field of the
/// invocation, and `scans` holds what was found for each value.
pub open spec fn fields_of(s: Seq<TokenView>, scope: Span, scans: Scans, nth: int) -> Result<
    Seq<FieldView>,
    ParseErrorView,
>
    decreases s.len(),
{
    if s.len() == 0 {
        Ok(Seq::empty())
    } else {
        match field_of(s, scope, scans(nth)) {
            Err(e) => Err(e),
            Ok((field, used)) => if used >= s.len() {
                Ok(seq![field])
            } else if !s[used].is_punct(',') {
                Err(fault_at(Fault::ExpectedComma, s[used]))
            } else {
                match fields_of(s.skip(used + 1), scope, scans, nth + 1) {
                    Err(e) => Err(e),
                    Ok(more) => Ok(seq![field] + more),
                }
            },
        }
    }
}

/// The invocation that `s` is: a name, then the fields in braces, then
/// nothing. `scans` holds what was found for the value of each field.
pub open spec fn invocation_of(s: Seq<TokenView>, scans: Scans) -> Result<
    DescriptorView,
    ParseErrorView,
> {
    match name_of(s, Span::CallSite) {
        Err(e) => Err(e),
        Ok(struct_name) => if s.len() < 2 {
            Err(fault_at_end(Fault::ExpectedBraces, Span::CallSite))
        } else {
            match s[1] {
                TokenView::Group { delimiter: Delimiter::Brace, inner, span } => match fields_of(
                    inner,
                    span,
                    scans,
                    0,
                ) {
                    Err(e) => Err(e),
                    Ok(fields) => if s.len() > 2 {
                        Err(fault_at(Fault::UnexpectedToken, s[2]))
                    } else {
                        Ok(DescriptorView { struct_name, fields })
                    },
                },
                other => Err(fault_at(Fault::ExpectedBraces, other)),
            }
        },
    }
}

/// The tokens settle the outcome before any value is looked for: the name of
/// the struct or the braces are missing, the braces are empty, or the first
/// field lacks its name or its `:`.
pub open spec fn settled_by_tokens(s: Seq<TokenView>) -> bool {
    ||| name_of(s, Span::CallSite) is Err
    ||| s.len() < 2
    ||| match s[1] {
        TokenView::Group { delimiter: Delimiter::Brace, inner, span } => {
            ||| inner.len() == 0
            ||| name_of(inner, span) is Err
            ||| inner.len() < 2
            ||| !inner[1].is_punct(':')
        },
        _ => true,
    }
}

/// What the tokens settle does not depend on any finding.
pub proof fn lemma_settled_by_tokens(s: Seq<TokenView>, one: Scans, other: Scans)
    requires
        settled_by_tokens(s),
    ensures
        invocation_of(s, one) == invocation_of(s, other),
{
}

/// `r` is the value `expected`, with the tokens of `input` that follow it, or
/// the error `expected`.
pub open spec fn value_is(
    r: Result<(FieldType, Vec<Token>), ParseError>,
    input: Seq<TokenView>,
    expected: Result<(FieldTypeView, int), ParseErrorView>,
) -> bool {
    match expected {
        Ok((value, used)) => r matches Ok((v, rest)) && v@ == value && views(rest@) == input.skip(
            used,
        ),
        Err(e) => r matches Err(err) && err@ == e,
    }
}

/// `r` is the field `expected`, with the tokens of `input` that follow it, or
/// the error `expected`.
pub open spec fn field_is(
    r: Result<(FuturedField, Vec<Token>), ParseError>,
    input: Seq<TokenView>,
    expected: Result<(FieldView, int), ParseErrorView>,
) -> bool {
    match expected {
        Ok((field, used)) => r matches Ok((f, rest)) && f@ == field && views(rest@) == input.skip(
            used,
        ),
        Err(e) => r matches Err(err) && err@ == e,
    }
}

/// `r` is the fields `expected`, or the error `expected`.
pub open spec fn fields_are(
    r: Result<Vec<FuturedField>, ParseError>,
    expected: Result<Seq<FieldView>, ParseErrorView>,
) -> bool {
    match expected {
        Ok(fields) => r matches Ok(f) && field_views(f@) == fields,
        Err(e) => r matches Err(err) && err@ == e,
    }
}

/// `r` is the invocation `expected`, or the error `expected`.
pub open spec fn invocation_is(
    r: Result<OutputStructAbstraction, ParseError>,
    expected: Result<DescriptorView, ParseErrorView>,
) -> bool {
    match expected {
        Ok(descriptor) => r matches Ok(d) && d@ == descriptor,
        Err(e) => r matches Err(err) && err@ == e,
    }
}

fn same_text(a: &String, b: &str) -> (same: bool)
    ensures
        same == (a@ == b@),
{
    *a == String::from_str(b)
}

/// Tells whether `text` is a reserved word.
pub fn is_reserved_word(text: &str) -> (reserved: bool)
    ensures
        reserved == reserved_word(text@),
{
    let owned = String::from_str(text);
    let text = &owned;
    same_text(text, "_")
        || same_text(text, "abstract")
        || same_text(text, "as")
        || same_text(text, "async")
        || same_text(text, "await")
        || same_text(text, "become")
        || same_text(text, "box")
        || same_text(text, "break")
        || same_text(text, "const")
        || same_text(text, "continue")
        || same_text(text, "crate")
        || same_text(text, "do")
        || same_text(text, "dyn")
        || same_text(text, "else")
        || same_text(text, "enum")
        || same_text(text, "extern")
        || same_text(text, "false")
        || same_text(text, "final")
        || same_text(text, "fn")
        || same_text(text, "for")
        || same_text(text, "if")
        || same_text(text, "impl")
        || same_text(text, "in")
        || same_text(text, "let")
        || same_text(text, "loop")
        || same_text(text, "macro")
        || same_text(text, "match")
        || same_text(text, "mod")
        || same_text(text, "move")
        || same_text(text, "mut")
        || same_text(text, "override")
        || same_text(text, "priv")
        || same_text(text, "pub")
        || same_text(text, "ref")
        || same_text(text, "return")
        || same_text(text, "Self")
        || same_text(text, "self")
        || same_text(text, "static")
        || same_text(text, "struct")
        || same_text(text, "super")
        || same_text(text, "trait")
        || same_text(text, "true")
        || same_text(text, "try")
        || same_text(text, "type")
        || same_text(text, "typeof")
        || same_text(text, "unsafe")
        || same_text(text, "unsized")
        || same_text(text, "use")
        || same_text(text, "virtual")
        || same_text(text, "where")
        || same_text(text, "while")
        || same_text(text, "yield")
}

/// What a scan hands back, as a finding.
pub open spec fn finding(scan: Result<(bool, usize), String>) -> Finding {
    match scan {
        Ok((is_async, rest)) => Ok((is_async, rest as nat)),
        Err(message) => Err(message@),
    }
}

fn expectation_of(fault: Fault) -> (text: &'static str)
    ensures
        text@ == expectation(fault),
{
    match fault {
        Fault::ExpectedIdentifier | Fault::ReservedWord => "expected identifier",
        Fault::ExpectedBraces => "expected curly braces",
        Fault::ExpectedColon => "expected `:`",
        Fault::ExpectedComma => "expected `,`",
        Fault::UnexpectedToken => "unexpected token",
        Fault::Expression => "expected an expression",
        Fault::Inconsistent => "expected tokens that read back from their text",
    }
}

impl ParseError {
    /// The diagnostic, in words.
    pub fn message(&self) -> (text: String)
        ensures
            text@ == message_text(self@),
    {
        match self.fault {
            Fault::Expression => self.detail.clone(),
            Fault::ReservedWord => {
                let mut text = String::from_str("expected identifier, found keyword `");
                text.append(self.detail.as_str());
                text.append("`");
                text
            },
            _ => {
                let mut text = String::new();
                if self.at_end {
                    text.append("unexpected end of input, ");
                }
                text.append(expectation_of(self.fault));
                assert(text@ =~= message_text(self@));
                text
            },
        }
    }

    fn at(fault: Fault, token: &Token) -> (e: ParseError)
        ensures
            e@ == fault_at(fault, token@),
    {
        ParseError { fault, span: token.span(), at_end: false, detail: String::new() }
    }

    fn at_end(fault: Fault, scope: Span) -> (e: ParseError)
        ensures
            e@ == fault_at_end(fault, scope),
    {
        ParseError { fault, span: scope, at_end: true, detail: String::new() }
    }

    fn in_front(fault: Fault, input: &Vec<Token>, scope: Span, detail: String) -> (e: ParseError)
        ensures
            e@ == fault_in_front(fault, views(input@), scope, detail@),
    {
        if input.len() == 0 {
            ParseError { fault, span: scope, at_end: true, detail }
        } else {
            ParseError { fault, span: input[0].span(), at_end: false, detail }
        }
    }
}

/// Takes the name that `input` begins with.
fn take_name(input: &mut Vec<Token>, scope: Span) -> (r: Result<Ident, ParseError>)
    ensures
        match name_of(views(old(input)@), scope) {
            Ok(name) => r matches Ok(n) && n@ == name && views(final(input)@) == views(
                old(input)@,
            ).skip(1),
            Err(e) => r matches Err(err) && err@ == e,
        },
{
    if input.len() == 0 {
        return Err(ParseError::at_end(Fault::ExpectedIdentifier, scope));
    }
    let first = input.remove(0);
    assert(views(input@) =~= views(old(input)@).skip(1));
    match first {
        Token::Ident { text, span } => {
            if is_reserved_word(text.as_str()) {
                Err(ParseError { fault: Fault::ReservedWord, span, at_end: false, detail: text })
            } else {
                Ok(Ident { text, span })
            }
        },
        other => Err(ParseError::at(Fault::ExpectedIdentifier, &other)),
    }
}

/// Takes the punctuation mark `ch` that `input` begins with; where another
/// token stands there, or none, the error is `fault`.
fn take_punct(input: &mut Vec<Token>, ch: char, fault: Fault, scope: Span) -> (r: Result<
    (),
    ParseError,
>)
    ensures
        old(input)@.len() == 0 ==> (r matches Err(err) && err@ == fault_at_end(fault, scope)),
        old(input)@.len() > 0 && !views(old(input)@)[0].is_punct(ch) ==> (r matches Err(err)
            && err@ == fault_at(fault, views(old(input)@)[0])),
        old(input)@.len() > 0 && views(old(input)@)[0].is_punct(ch) ==> r is Ok && views(
            final(input)@,
        ) == views(old(input)@).skip(1),
{
    if input.len() == 0 {
        return Err(ParseError::at_end(fault, scope));
    }
    let first = input.remove(0);
    assert(views(input@) =~= views(old(input)@).skip(1));
    match first {
        Token::Punct { ch: found, joint, span } => {
            if found == ch {
                Ok(())
            } else {
                Err(ParseError::at(fault, &Token::Punct { ch: found, joint, span }))
            }
        },
        other => Err(ParseError::at(fault, &other)),
    }
}

impl FieldType {
    /// The value at the front of `input`, given what the parser of
    /// expressions found in the text of `input`: the tokens up to those that
    /// the parser left over, as a future where it read an `async` block,
    /// and the tokens that follow. Where the parser found no expression,
    /// the error carries its message.
    pub fn classify(input: Vec<Token>, scope: Span, scan: Result<(bool, usize), String>) -> (r:
        Result<(FieldType, Vec<Token>), ParseError>)
        ensures
            value_is(r, views(input@), value_of(views(input@), scope, finding(scan))),
    {
        match scan {
            Err(message) => Err(ParseError::in_front(Fault::Expression, &input, scope, message)),
            Ok((is_async, rest)) => {
                if rest >= input.len() {
                    Err(ParseError::in_front(Fault::Inconsistent, &input, scope, String::new()))
                } else {
                    let used = input.len() - rest;
                    let mut tokens = input;
                    let after = tokens.split_off(used);
                    assert(views(tokens@) =~= views(input@).take(used as int));
                    assert(views(after@) =~= views(input@).skip(used as int));
                    if is_async {
                        Ok((FieldType::Future(ExprAsync { tokens }), after))
                    } else {
                        Ok((FieldType::Normal(Expr { tokens }), after))
                    }
                }
            },
        }
    }

    /// Parses the value that `input` begins with: one expression of Rust, as
    /// syn reads it from the text of `input`. Returns the value and the
    /// tokens that follow it. Whatever syn finds, the outcome is what
    /// `classify` makes of that finding.
    pub fn parse(input: Vec<Token>, scope: Span) -> (r: Result<(FieldType, Vec<Token>), ParseError>)
        ensures
            exists|found: Finding|
                value_is(r, views(input@), #[trigger] value_of(views(input@), scope, found)),
    {
        let text = render(&input);
        let scan = scan_expression(text.as_str());
        let r = FieldType::classify(input, scope, scan);
        assert(value_is(r, views(input@), value_of(views(input@), scope, finding(scan))));
        r
    }
}

impl FuturedField {
    /// Parses the field `name: value` that `input` begins with. Returns the
    /// field and the tokens that follow it. An input without a name and a
    /// `:` at its front is refused before any value is looked for.
    pub fn parse(input: Vec<Token>, scope: Span) -> (r: Result<
        (FuturedField, Vec<Token>),
        ParseError,
    >)
        ensures
            exists|found: Finding|
                field_is(r, views(input@), #[trigger] field_of(views(input@), scope, found)),
    {
        let ghost all = views(input@);
        let ghost none: Finding = Err(Seq::empty());
        let mut input = input;
        let name = match take_name(&mut input, scope) {
            Ok(name) => name,
            Err(e) => {
                let r = Err(e);
                assert(field_is(r, all, field_of(all, scope, none)));
                return r;
            },
        };
        assert(all.len() > 0);
        assert(views(input@).len() == all.len() - 1);
        assert(views(input@).len() > 0 ==> views(input@)[0] == all[1]);
        match take_punct(&mut input, ':', Fault::ExpectedColon, scope) {
            Ok(()) => {},
            Err(e) => {
                let r = Err(e);
                assert(field_is(r, all, field_of(all, scope, none)));
                return r;
            },
        }
        assert(views(input@) =~= all.skip(2));
        let parsed = FieldType::parse(input, scope);
        let ghost found = choose|found: Finding|
            value_is(parsed, all.skip(2), #[trigger] value_of(all.skip(2), scope, found));
        let r = match parsed {
            Ok((value, rest)) => {
                assert forall|used: int| 0 <= used <= all.skip(2).len() implies #[trigger] all.skip(
                    2,
                ).skip(used) =~= all.skip(used + 2) by {}
                Ok((FuturedField { name, value }, rest))
            },
            Err(e) => Err(e),
        };
        assert(field_is(r, all, field_of(all, scope, found)));
        r
    }
}

/// A field takes its name, the `:` and at least one token of its value, and
/// no more tokens than there are.
pub proof fn lemma_field_extent(s: Seq<TokenView>, scope: Span, found: Finding)
    ensures
        field_of(s, scope, found) matches Ok((_, used)) ==> 3 <= used <= s.len(),
{
}

/// The first findings of `scans` are those of `log`.
pub open spec fn begins_with(scans: Scans, log: Seq<Finding>) -> bool {
    forall|n: int| 0 <= n < log.len() ==> scans(n) == log[n]
}

/// The findings of `log`, and no expression after them.
pub open spec fn scans_of(log: Seq<Finding>) -> Scans {
    |n: int|
        if 0 <= n < log.len() {
            log[n]
        } else {
            Err(Seq::empty())
        }
}

/// The fields parsed so far, followed by what the rest parses as.
pub open spec fn followed_by(
    done: Seq<FieldView>,
    rest: Result<Seq<FieldView>, ParseErrorView>,
) -> Result<Seq<FieldView>, ParseErrorView> {
    match rest {
        Ok(more) => Ok(done + more),
        Err(e) => Err(e),
    }
}

/// Parses the fields that make up `body`, the inside of the group at `scope`.
fn parse_fields(body: Vec<Token>, scope: Span) -> (r: Result<Vec<FuturedField>, ParseError>)
    ensures
        exists|scans: Scans| fields_are(r, #[trigger] fields_of(views(body@), scope, scans, 0)),
{
    let ghost all = views(body@);
    let ghost mut log: Seq<Finding> = Seq::empty();
    let mut fields: Vec<FuturedField> = Vec::new();
    let mut rest = body;
    assert(followed_by(field_views(fields@), fields_of(all, scope, scans_of(log), 0))
        == fields_of(all, scope, scans_of(log), 0)) by {
        assert forall|more: Seq<FieldView>| #[trigger] (field_views(fields@) + more) =~= more by {}
    }
    assert forall|scans: Scans| begins_with(scans, log) implies #[trigger] fields_of(
        all,
        scope,
        scans,
        0,
    ) == followed_by(field_views(fields@), fields_of(views(rest@), scope, scans, 0)) by {
        assert forall|more: Seq<FieldView>| #[trigger] (field_views(fields@) + more) =~= more by {}
    }
    loop
        invariant
            all == views(body@),
            forall|scans: Scans|
                begins_with(scans, log) ==> #[trigger] fields_of(all, scope, scans, 0)
                    == followed_by(
                    field_views(fields@),
                    fields_of(views(rest@), scope, scans, log.len() as int),
                ),
        decreases rest@.len(),
    {
        let ghost before = views(rest@);
        let ghost done = field_views(fields@);
        let ghost nth = log.len() as int;
        if rest.len() == 0 {
            let r = Ok(fields);
            proof {
                let scans = scans_of(log);
                assert(begins_with(scans, log));
                assert(done + Seq::<FieldView>::empty() =~= done);
                assert(fields_are(r, fields_of(all, scope, scans, 0)));
            }
            return r;
        }
        let parsed = FuturedField::parse(rest, scope);
        let ghost found = choose|found: Finding|
            field_is(parsed, before, #[trigger] field_of(before, scope, found));
        let ghost earlier = log;
        proof {
            log = log.push(found);
            lemma_field_extent(before, scope, found);
            assert forall|scans: Scans| #[trigger] begins_with(scans, log) implies begins_with(
                scans,
                earlier,
            ) by {
                assert forall|n: int| 0 <= n < earlier.len() implies scans(n) == earlier[n] by {
                    assert(log[n] == earlier[n]);
                }
            }
            assert(begins_with(scans_of(log), log));
        }
        match parsed {
            Err(e) => {
                let r = Err(e);
                assert(fields_are(r, fields_of(all, scope, scans_of(log), 0)));
                return r;
            },
            Ok((field, after)) => {
                let ghost used = field_of(before, scope, found)->Ok_0.1;
                let ghost first = field@;
                fields.push(field);
                assert(field_views(fields@) =~= done + seq![first]);
                rest = after;
                assert(before.skip(used).len() == before.len() - used);
                if rest.len() == 0 {
                    let r = Ok(fields);
                    assert(fields_are(r, fields_of(all, scope, scans_of(log), 0)));
                    return r;
                }
                match take_punct(&mut rest, ',', Fault::ExpectedComma, scope) {
                    Ok(()) => {},
                    Err(e) => {
                        let r = Err(e);
                        assert(fields_are(r, fields_of(all, scope, scans_of(log), 0)));
                        return r;
                    },
                }
                assert(views(rest@) =~= before.skip(used + 1));
                assert forall|more: Seq<FieldView>| #[trigger]
                    (done + (seq![first] + more)) =~= (done + seq![first]) + more by {}
                assert forall|scans: Scans| begins_with(scans, log) implies #[trigger] fields_of(
                    all,
                    scope,
                    scans,
                    0,
                ) == followed_by(
                    field_views(fields@),
                    fields_of(views(rest@), scope, scans, log.len() as int),
                ) by {
                    assert(begins_with(scans, earlier));
                    assert(scans(nth) == found);
                }
            },
        }
    }
}

impl OutputStructAbstraction {
    /// Parses an invocation: the name of the struct, then its fields in
    /// braces, and nothing after them. The value of each field is one
    /// expression of Rust, as syn reads it; all else is decided here.
    pub fn parse(input: Vec<Token>) -> (r: Result<OutputStructAbstraction, ParseError>)
        ensures
            exists|scans: Scans| invocation_is(r, #[trigger] invocation_of(views(input@), scans)),
    {
        let ghost all = views(input@);
        let ghost none = scans_of(Seq::empty());
        let mut input = input;
        let struct_name = match take_name(&mut input, Span::CallSite) {
            Ok(name) => name,
            Err(e) => {
                let r = Err(e);
                assert(invocation_is(r, invocation_of(all, none)));
                return r;
            },
        };
        assert(views(input@).len() == all.skip(1).len());
        if input.len() == 0 {
            let r = Err(ParseError::at_end(Fault::ExpectedBraces, Span::CallSite));
            assert(invocation_is(r, invocation_of(all, none)));
            return r;
        }
        assert(all.len() > 0);
        assert(views(input@).len() == all.len() - 1);
        assert(views(input@)[0] == all[1]);
        let ghost behind_name = input@;
        let second = input.remove(0);
        assert(second@ == all[1]);
        assert(views(input@) =~= views(behind_name).skip(1));
        assert(views(input@) =~= all.skip(2));
        match second {
            Token::Group { delimiter, inner, span } => {
                proof {
                    crate::tokens::lemma_group_view(delimiter, inner, span);
                }
                match delimiter {
                    Delimiter::Brace => {
                        let parsed = parse_fields(inner, span);
                        let ghost scans = choose|scans: Scans|
                            fields_are(
                                parsed,
                                #[trigger] fields_of(views(inner@), span, scans, 0),
                            );
                        let r = match parsed {
                            Err(e) => Err(e),
                            Ok(fields) => {
                                if input.len() > 0 {
                                    assert(views(input@)[0] == all[2]);
                                    Err(ParseError::at(Fault::UnexpectedToken, &input[0]))
                                } else {
                                    Ok(OutputStructAbstraction { struct_name, fields })
                                }
                            },
                        };
                        assert(invocation_is(r, invocation_of(all, scans)));
                        r
                    },
                    _ => {
                        let r = Err(
                            ParseError::at(
                                Fault::ExpectedBraces,
                                &Token::Group { delimiter, inner, span },
                            ),
                        );
                        assert(invocation_is(r, invocation_of(all, none)));
                        r
                    },
                }
            },
            other => {
                let r = Err(ParseError::at(Fault::ExpectedBraces, &other));
                assert(invocation_is(r, invocation_of(all, none)));
                r
            },
        }
    }
}

} // verus!
