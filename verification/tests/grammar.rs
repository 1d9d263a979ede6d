use conquer_struct::tokens::{render, Delimiter, Span, Token};
use conquer_struct::types::{
    is_reserved_word, Expr, ExprAsync, Fault, FieldType, FuturedField, OutputStructAbstraction,
};

fn lift(stream: proc_macro2::TokenStream, next: &mut usize) -> Vec<Token> {
    let mut out = Vec::new();
    for tree in stream {
        let span = Span::Source(*next);
        *next += 1;
        out.push(match tree {
            proc_macro2::TokenTree::Ident(ident) => Token::Ident { text: ident.to_string(), span },
            proc_macro2::TokenTree::Punct(punct) => Token::Punct {
                ch: punct.as_char(),
                joint: punct.spacing() == proc_macro2::Spacing::Joint,
                span,
            },
            proc_macro2::TokenTree::Literal(literal) => {
                Token::Literal { text: literal.to_string(), span }
            }
            proc_macro2::TokenTree::Group(group) => Token::Group {
                delimiter: match group.delimiter() {
                    proc_macro2::Delimiter::Parenthesis => Delimiter::Parenthesis,
                    proc_macro2::Delimiter::Brace => Delimiter::Brace,
                    proc_macro2::Delimiter::Bracket => Delimiter::Bracket,
                    proc_macro2::Delimiter::None => Delimiter::Invisible,
                },
                inner: lift(group.stream(), next),
                span,
            },
        });
    }
    out
}

/// The tokens of `source`, numbered in the order in which they are met.
fn lex(source: &str) -> Vec<Token> {
    let stream: proc_macro2::TokenStream = source.parse().unwrap();
    lift(stream, &mut 0)
}

fn ident(text: &str, at: usize) -> Token {
    Token::Ident { text: text.to_string(), span: Span::Source(at) }
}

fn punct(ch: char, at: usize) -> Token {
    Token::Punct { ch, joint: false, span: Span::Source(at) }
}

fn literal(text: &str, at: usize) -> Token {
    Token::Literal { text: text.to_string(), span: Span::Source(at) }
}

#[test]
fn parses_one_future_and_one_plain_field() {
    let parsed = OutputStructAbstraction::parse(lex(
        "Data { name: async { \"Hello, World!\".to_string() }, user_id: 123, }",
    ))
    .unwrap();
    assert_eq!(parsed.struct_name.text, "Data");
    assert_eq!(parsed.struct_name.span, Span::Source(0));
    assert_eq!(parsed.fields.len(), 2);
    assert_eq!(parsed.fields[0].name.text, "name");
    assert_eq!(parsed.fields[0].name.span, Span::Source(2));
    match &parsed.fields[0].value {
        FieldType::Future(block) => {
            assert_eq!(render(&block.tokens), "async { \"Hello, World!\" . to_string ( ) } ")
        }
        FieldType::Normal(_) => panic!("an async block is a future"),
    }
    assert_eq!(parsed.fields[1].name.text, "user_id");
    match &parsed.fields[1].value {
        FieldType::Normal(expr) => assert_eq!(render(&expr.tokens), "123 "),
        FieldType::Future(_) => panic!("a literal is no future"),
    }
}

#[test]
fn parses_the_descriptor_token_for_token() {
    let parsed = OutputStructAbstraction::parse(vec![
        ident("P", 0),
        Token::Group {
            delimiter: Delimiter::Brace,
            inner: vec![ident("x", 2), punct(':', 3), literal("1", 4), punct(',', 5)],
            span: Span::Source(1),
        },
    ]);
    assert_eq!(
        parsed,
        Ok(OutputStructAbstraction {
            struct_name: conquer_struct::tokens::Ident {
                text: "P".to_string(),
                span: Span::Source(0)
            },
            fields: vec![FuturedField {
                name: conquer_struct::tokens::Ident {
                    text: "x".to_string(),
                    span: Span::Source(2)
                },
                value: FieldType::Normal(Expr { tokens: vec![literal("1", 4)] }),
            }],
        })
    );
}

#[test]
fn accepts_no_fields_at_all() {
    let parsed = OutputStructAbstraction::parse(lex("Data { }")).unwrap();
    assert_eq!(parsed.struct_name.text, "Data");
    assert!(parsed.fields.is_empty());
}

#[test]
fn accepts_fields_with_and_without_a_last_comma() {
    let with = OutputStructAbstraction::parse(lex("D { a: 1, b: async { 2 }, }")).unwrap();
    let without = OutputStructAbstraction::parse(lex("D { a: 1, b: async { 2 } }")).unwrap();
    assert_eq!(with.fields.len(), 2);
    assert_eq!(without.fields.len(), 2);
    assert_eq!(with.fields[1].name.text, without.fields[1].name.text);
}

#[test]
fn a_comma_inside_generics_does_not_end_the_value() {
    let parsed =
        OutputStructAbstraction::parse(lex("Data { a: foo::<A, B>(1, 2), b: async move { 1 } }"))
            .unwrap();
    assert_eq!(parsed.fields.len(), 2);
    match &parsed.fields[0].value {
        FieldType::Normal(expr) => {
            assert_eq!(render(&expr.tokens), "foo ::< A , B > ( 1 , 2 ) ")
        }
        FieldType::Future(_) => panic!("a call is no future"),
    }
    assert!(matches!(parsed.fields[1].value, FieldType::Future(_)));
}

#[test]
fn a_comma_inside_a_closure_does_not_end_the_value() {
    let parsed = OutputStructAbstraction::parse(lex("Data { a: |x, y| x + y, b: 2 }")).unwrap();
    assert_eq!(parsed.fields.len(), 2);
    assert_eq!(parsed.fields[1].name.text, "b");
}

#[test]
fn only_a_whole_async_block_is_a_future() {
    let parsed = OutputStructAbstraction::parse(lex(
        "Data { a: async { 1 }.await, b: async { 1 } + 1, c: (async { 1 }), d: async { 1 }, \
         e: async move { 1 }, f: async || 1, g: #[inline] async { 1 } }",
    ))
    .unwrap();
    let kinds: Vec<bool> =
        parsed.fields.iter().map(|field| matches!(field.value, FieldType::Future(_))).collect();
    assert_eq!(kinds, vec![false, false, false, true, true, false, true]);
}

#[test]
fn the_value_of_a_field_is_classified_from_the_scan() {
    let tokens = || vec![ident("async", 0), ident("x", 1), punct(',', 2), ident("b", 3)];
    assert_eq!(
        FieldType::classify(tokens(), Span::CallSite, Ok((true, 2))),
        Ok((
            FieldType::Future(ExprAsync { tokens: vec![ident("async", 0), ident("x", 1)] }),
            vec![punct(',', 2), ident("b", 3)]
        ))
    );
    assert_eq!(
        FieldType::classify(tokens(), Span::CallSite, Ok((false, 0))),
        Ok((FieldType::Normal(Expr { tokens: tokens() }), vec![]))
    );
    let all_left = FieldType::classify(tokens(), Span::CallSite, Ok((false, 4))).unwrap_err();
    assert_eq!(all_left.fault, Fault::Inconsistent);
    assert_eq!(all_left.span, Span::Source(0));
    let refused =
        FieldType::classify(tokens(), Span::CallSite, Err("no good".to_string())).unwrap_err();
    assert_eq!(refused.fault, Fault::Expression);
    assert_eq!(refused.detail, "no good");
    assert_eq!(refused.message(), "no good");
    let nothing = FieldType::classify(vec![], Span::Source(9), Err("none".to_string()))
        .unwrap_err();
    assert_eq!((nothing.span, nothing.at_end), (Span::Source(9), true));
}

#[test]
fn the_value_ends_where_syn_ends_the_expression() {
    let (value, rest) = FieldType::parse(lex("a + b * c, next: 1"), Span::CallSite).unwrap();
    match value {
        FieldType::Normal(expr) => assert_eq!(render(&expr.tokens), "a + b * c "),
        FieldType::Future(_) => panic!("a sum is no future"),
    }
    assert_eq!(render(&rest), ", next : 1 ");
}

#[test]
fn an_invisible_group_is_one_operand() {
    let sum = Token::Group {
        delimiter: Delimiter::Invisible,
        inner: vec![literal("1", 1), punct('+', 2), literal("2", 3)],
        span: Span::Source(0),
    };
    let (value, rest) =
        FieldType::parse(vec![sum, punct('*', 4), literal("3", 5)], Span::CallSite).unwrap();
    assert!(matches!(value, FieldType::Normal(_)));
    assert!(rest.is_empty());
    let block = Token::Group {
        delimiter: Delimiter::Invisible,
        inner: lex("async { 1 }"),
        span: Span::Source(0),
    };
    let (value, _) = FieldType::parse(vec![block], Span::CallSite).unwrap();
    assert!(matches!(value, FieldType::Normal(_)));
}

#[test]
fn a_field_is_a_name_a_colon_and_a_value() {
    let (field, rest) = FuturedField::parse(lex("id: 7, more"), Span::CallSite).unwrap();
    assert_eq!(field.name.text, "id");
    assert_eq!(field.value, FieldType::Normal(Expr { tokens: vec![literal("7", 2)] }));
    assert_eq!(render(&rest), ", more ");
}

#[test]
fn an_empty_invocation_wants_a_name() {
    let error = OutputStructAbstraction::parse(vec![]).unwrap_err();
    assert_eq!(error.fault, Fault::ExpectedIdentifier);
    assert_eq!(error.span, Span::CallSite);
    assert!(error.at_end);
    assert_eq!(error.message(), "unexpected end of input, expected identifier");
}

#[test]
fn a_literal_is_no_name() {
    let error = OutputStructAbstraction::parse(lex("1 { a: 1 }")).unwrap_err();
    assert_eq!(error.fault, Fault::ExpectedIdentifier);
    assert_eq!(error.span, Span::Source(0));
    assert_eq!(error.message(), "expected identifier");
}

#[test]
fn a_keyword_is_no_name() {
    let error = OutputStructAbstraction::parse(lex("struct { a: 1 }")).unwrap_err();
    assert_eq!(error.fault, Fault::ReservedWord);
    assert_eq!(error.span, Span::Source(0));
    assert_eq!(error.detail, "struct");
    assert_eq!(error.message(), "expected identifier, found keyword `struct`");
    let error = OutputStructAbstraction::parse(lex("Data { type: 1 }")).unwrap_err();
    assert_eq!(error.fault, Fault::ReservedWord);
    assert_eq!(error.span, Span::Source(2));
    assert_eq!(error.message(), "expected identifier, found keyword `type`");
}

#[test]
fn the_reserved_words_are_those_that_syn_refuses_as_a_name() {
    for word in [
        "_", "abstract", "as", "async", "await", "become", "box", "break", "const", "continue",
        "crate", "do", "dyn", "else", "enum", "extern", "false", "final", "fn", "for", "if",
        "impl", "in", "let", "loop", "macro", "match", "mod", "move", "mut", "override", "priv",
        "pub", "ref", "return", "Self", "self", "static", "struct", "super", "trait", "true",
        "try", "type", "typeof", "unsafe", "unsized", "use", "virtual", "where", "while", "yield",
    ] {
        assert!(is_reserved_word(word), "{}", word);
        assert!(syn::parse_str::<syn::Ident>(word).is_err(), "{}", word);
    }
    for word in ["name", "user_id", "Data", "r#type", "union", "asyncs", "__", "raw", "selfish"] {
        assert!(!is_reserved_word(word), "{}", word);
        assert!(syn::parse_str::<syn::Ident>(word).is_ok(), "{}", word);
    }
}

#[test]
fn the_fields_want_braces() {
    let error = OutputStructAbstraction::parse(lex("Data")).unwrap_err();
    assert_eq!(error.fault, Fault::ExpectedBraces);
    assert_eq!((error.span, error.at_end), (Span::CallSite, true));
    assert_eq!(error.message(), "unexpected end of input, expected curly braces");
    let error = OutputStructAbstraction::parse(lex("Data ( a: 1 )")).unwrap_err();
    assert_eq!(error.fault, Fault::ExpectedBraces);
    assert_eq!((error.span, error.at_end), (Span::Source(1), false));
    assert_eq!(error.message(), "expected curly braces");
    let error = OutputStructAbstraction::parse(lex("Data = 1")).unwrap_err();
    assert_eq!(error.fault, Fault::ExpectedBraces);
    assert_eq!(error.span, Span::Source(1));
}

#[test]
fn missing_colon_is_reported_at_the_token() {
    let error = OutputStructAbstraction::parse(lex("Data { a 1 }")).unwrap_err();
    assert_eq!(error.fault, Fault::ExpectedColon);
    assert_eq!(error.span, Span::Source(3));
    assert!(!error.at_end);
    assert_eq!(error.message(), "expected `:`");
}

#[test]
fn a_name_alone_wants_its_colon() {
    let error = OutputStructAbstraction::parse(lex("Data { a }")).unwrap_err();
    assert_eq!(error.fault, Fault::ExpectedColon);
    assert_eq!((error.span, error.at_end), (Span::Source(1), true));
    assert_eq!(error.message(), "unexpected end of input, expected `:`");
}

#[test]
fn two_fields_want_a_comma_between_them() {
    let error = OutputStructAbstraction::parse(lex("Data { a: 1 b: 2 }")).unwrap_err();
    assert_eq!(error.fault, Fault::ExpectedComma);
    assert_eq!(error.span, Span::Source(5));
    assert_eq!(error.message(), "expected `,`");
}

#[test]
fn a_missing_value_is_no_expression() {
    let error = OutputStructAbstraction::parse(lex("Data { a: }")).unwrap_err();
    assert_eq!(error.fault, Fault::Expression);
    assert_eq!((error.span, error.at_end), (Span::Source(1), true));
    assert_eq!(
        error.message(),
        syn::parse_str::<syn::Expr>("").err().unwrap().to_string()
    );
    let error = OutputStructAbstraction::parse(lex("Data { a: , b: 1 }")).unwrap_err();
    assert_eq!(error.fault, Fault::Expression);
    assert_eq!((error.span, error.at_end), (Span::Source(4), false));
    assert_eq!(
        error.message(),
        syn::parse_str::<syn::Expr>(", b: 1").err().unwrap().to_string()
    );
}

#[test]
fn nothing_may_follow_the_braces() {
    let error = OutputStructAbstraction::parse(lex("Data { a: async { 1 } } extra")).unwrap_err();
    assert_eq!(error.fault, Fault::UnexpectedToken);
    assert_eq!(error.span, Span::Source(7));
    assert_eq!(error.message(), "unexpected token");
}

#[test]
fn an_error_inside_the_braces_comes_before_what_follows_them() {
    let error = OutputStructAbstraction::parse(lex("Data { a 1 } extra")).unwrap_err();
    assert_eq!(error.fault, Fault::ExpectedColon);
}

#[test]
fn a_token_that_is_not_what_its_text_says_is_refused() {
    let error = OutputStructAbstraction::parse(vec![
        ident("Data", 0),
        Token::Group {
            delimiter: Delimiter::Brace,
            inner: vec![ident("a", 2), punct(':', 3), ident("x , y", 4)],
            span: Span::Source(1),
        },
    ])
    .unwrap_err();
    assert_eq!(error.fault, Fault::Inconsistent);
    assert_eq!(error.span, Span::Source(4));
    assert_eq!(error.message(), "expected tokens that read back from their text");
}

#[test]
fn tokens_are_written_with_a_blank_after_each() {
    assert_eq!(render(&vec![]), "");
    assert_eq!(render(&lex("a::b(1, [2]) 'x {}")), "a :: b ( 1 , [ 2 ] ) 'x { } ");
    let invisible = Token::Group {
        delimiter: Delimiter::Invisible,
        inner: vec![ident("a", 1)],
        span: Span::Source(0),
    };
    assert_eq!(render(&vec![invisible]), "( a ) ");
}

#[test]
fn the_text_of_tokens_reads_back_as_the_same_tokens() {
    let source = "Data { name: async { get(&x, 'a', \"s\", 1.5e3).await? }, id: -1, }";
    let again = render(&lex(source));
    assert_eq!(lex(&again), lex(source));
}
