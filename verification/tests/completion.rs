use conquer_struct::completion::{complete, try_complete, Record};
use conquer_struct::tokens::{render, Delimiter, Span, Token};
use conquer_struct::types::OutputStructAbstraction;
use conquer_struct::{conquer_future, try_conquer_future};

fn lift(stream: proc_macro2::TokenStream, next: &mut usize) -> Vec<Token> {
    let mut out = Vec::new();
    for tree in stream {
        let span = Span::Source(*next);
        *next += 1;
        out.push(match tree {
            proc_macro2::TokenTree::Ident(ident) => Token::Ident { text: ident.to_string(), span },
            proc_macro2::TokenTree::Punct(punct) => Token::Punct {
                ch: punct.as_char(),
                joint: punct.spacing() == proc_macro2::Spacing::Joint,
                span,
            },
            proc_macro2::TokenTree::Literal(literal) => {
                Token::Literal { text: literal.to_string(), span }
            }
            proc_macro2::TokenTree::Group(group) => Token::Group {
                delimiter: match group.delimiter() {
                    proc_macro2::Delimiter::Parenthesis => Delimiter::Parenthesis,
                    proc_macro2::Delimiter::Brace => Delimiter::Brace,
                    proc_macro2::Delimiter::Bracket => Delimiter::Bracket,
                    proc_macro2::Delimiter::None => Delimiter::Invisible,
                },
                inner: lift(group.stream(), next),
                span,
            },
        });
    }
    out
}

/// The tokens of `source`, numbered in the order in which they are met.
fn lex(source: &str) -> Vec<Token> {
    let stream: proc_macro2::TokenStream = source.parse().unwrap();
    lift(stream, &mut 0)
}

#[derive(Debug, PartialEq, Eq)]
struct Data {
    name: String,
    user_id: usize,
}

#[derive(Debug, PartialEq, Eq)]
enum Value {
    Text(String),
    Number(usize),
}

fn data(record: Record<Value>) -> Data {
    assert_eq!(record.name, "Data");
    match record.fields.as_slice() {
        [(name, Value::Text(text)), (user_id, Value::Number(number))]
            if name == "name" && user_id == "user_id" =>
        {
            Data { name: text.clone(), user_id: *number }
        }
        other => panic!("not the fields of Data: {:?}", other),
    }
}

fn descriptor(source: &str) -> OutputStructAbstraction {
    OutputStructAbstraction::parse(lex(source)).unwrap()
}

fn named(fields: &[(&str, usize)]) -> Vec<(String, usize)> {
    fields.iter().map(|(name, value)| (name.to_string(), *value)).collect()
}

#[test]
fn test_inner_workings() {
    let source = "Data { name: async { \"Hello, World!\".to_string() }, user_id: 123, }";
    assert_eq!(
        render(&conquer_future(lex(source)).unwrap()),
        "async { let ( name , ) = tokio :: join ! ( async { \"Hello, World!\" . to_string ( ) } ) ; \
         Data { name , user_id : 123 } } "
    );
    let yielded = complete(
        &descriptor(source),
        vec![Value::Text("Hello, World!".to_string())],
        vec![Value::Number(123)],
    )
    .unwrap();
    assert_eq!(data(yielded), Data { name: "Hello, World!".to_string(), user_id: 123 });
}

#[test]
fn test_inner_workings_try() {
    let source =
        "Data { name: async { Ok::<String, ()>(\"Hello, World!\".to_string()) }, user_id: 123, }";
    assert_eq!(
        render(&try_conquer_future(lex(source)).unwrap()),
        "async { let ( name , ) = tokio :: try_join ! ( async { Ok ::< String , ( ) > ( \
         \"Hello, World!\" . to_string ( ) ) } ) ? ; Ok ( Data { name , user_id : 123 } ) } "
    );
    let yielded: Result<_, ()> = try_complete(
        &descriptor(source),
        vec![Ok(Value::Text("Hello, World!".to_string()))],
        vec![Value::Number(123)],
        vec![0],
    )
    .unwrap();
    assert_eq!(
        yielded.map(data),
        Ok(Data { name: "Hello, World!".to_string(), user_id: 123 })
    );
}

#[test]
fn test_context_awareness_try() {
    fn context_aware_function() -> Result<Data, ()> {
        let yielded = try_complete(
            &descriptor(
                "Data { name: async { Ok::<String, ()>(\"Hello, World!\".to_string()) }, \
                 user_id: 123, }",
            ),
            vec![Ok(Value::Text("Hello, World!".to_string()))],
            vec![Value::Number(123)],
            vec![0],
        )
        .unwrap()?;

        Ok(data(yielded))
    }

    assert_eq!(
        context_aware_function().unwrap(),
        Data { name: "Hello, World!".to_string(), user_id: 123 }
    );
}

#[test]
fn a_failure_inside_is_passed_on_by_the_function_around() {
    fn context_aware_function() -> Result<Data, String> {
        let yielded = try_complete(
            &descriptor("Data { name: async { fetch().await }, user_id: 123 }"),
            vec![Err("unreachable host".to_string())],
            vec![Value::Number(123)],
            vec![0],
        )
        .unwrap()?;

        Ok(data(yielded))
    }

    assert_eq!(context_aware_function(), Err("unreachable host".to_string()));
}

#[test]
fn the_failure_of_the_future_is_what_is_yielded() {
    let yielded: Result<Record<Value>, &str> = try_complete(
        &descriptor("Data { name: async { Err(E) }, user_id: 123 }"),
        vec![Err("E")],
        vec![Value::Number(123)],
        vec![7],
    )
    .unwrap();
    assert_eq!(yielded, Err("E"));
}

#[test]
fn each_field_gets_its_own_value_whatever_the_order() {
    let mixed = descriptor("M { p: 1, a: async { 2 }, q: 3, b: async { 4 }, c: async { 5 } }");
    let record = complete(&mixed, vec![20, 40, 50], vec![10, 30]).unwrap();
    assert_eq!(record.name, "M");
    assert_eq!(
        record.fields,
        named(&[("p", 10), ("a", 20), ("q", 30), ("b", 40), ("c", 50)])
    );
    let futures_first = descriptor("M { a: async { 2 }, b: async { 4 }, p: 1 }");
    assert_eq!(
        complete(&futures_first, vec![20, 40], vec![10]).unwrap().fields,
        named(&[("a", 20), ("b", 40), ("p", 10)])
    );
    let futures_only = descriptor("M { a: async { 2 } }");
    assert_eq!(
        complete(&futures_only, vec![20], vec![]).unwrap().fields,
        named(&[("a", 20)])
    );
}

#[test]
fn one_failure_among_successes_is_the_outcome() {
    let three = descriptor("T { a: async { x }, n: 0, b: async { y }, c: async { z } }");
    for failing in 0..3 {
        let yielded: Vec<Result<usize, String>> = (0..3)
            .map(|place| if place == failing { Err(format!("e{}", place)) } else { Ok(place) })
            .collect();
        for finished in [vec![1, 2, 3], vec![3, 2, 1], vec![5, 5, 5], vec![2, 9, 0]] {
            assert_eq!(
                try_complete(&three, yielded.clone(), vec![9], finished).unwrap(),
                Err(format!("e{}", failing))
            );
        }
    }
}

#[test]
fn of_several_failures_the_one_that_fails_first_is_the_outcome() {
    let three = descriptor("T { a: async { x }, b: async { y }, c: async { z } }");
    let yielded = || -> Vec<Result<usize, &str>> { vec![Ok(1), Err("second"), Err("third")] };
    assert_eq!(
        try_complete(&three, yielded(), vec![], vec![10, 20, 30]).unwrap(),
        Err("second")
    );
    assert_eq!(
        try_complete(&three, yielded(), vec![], vec![10, 30, 20]).unwrap(),
        Err("third")
    );
    assert_eq!(
        try_complete(&three, yielded(), vec![], vec![25, 30, 20]).unwrap(),
        Err("third")
    );
    let all_fail: Vec<Result<usize, &str>> = vec![Err("first"), Err("second"), Err("third")];
    assert_eq!(try_complete(&three, all_fail, vec![], vec![3, 1, 2]).unwrap(), Err("second"));
}

#[test]
fn nothing_is_yielded_where_no_failure_is_first() {
    let three = descriptor("T { a: async { x }, b: async { y }, c: async { z } }");
    let yielded = || -> Vec<Result<usize, &str>> { vec![Ok(1), Err("second"), Err("third")] };
    assert_eq!(try_complete(&three, yielded(), vec![], vec![0, 4, 4]), None);
    assert!(try_complete(&three, yielded(), vec![], vec![4, 4, 5]).is_some());
    let behind: Vec<Result<usize, &str>> = vec![Err("first"), Err("second"), Err("third")];
    assert_eq!(try_complete(&three, behind, vec![], vec![1, 4, 4]).unwrap(), Err("first"));
    assert_eq!(try_complete(&three, yielded(), vec![], vec![1, 2]), None);
    assert_eq!(try_complete(&three, yielded(), vec![], vec![1, 2, 3, 4]), None);
}

#[test]
fn all_successes_give_the_struct() {
    let three = descriptor("T { a: async { x }, n: 0, b: async { y }, c: async { z } }");
    let yielded: Vec<Result<usize, String>> = vec![Ok(1), Ok(2), Ok(3)];
    let record = try_complete(&three, yielded, vec![9], vec![4, 4, 4]).unwrap().unwrap();
    assert_eq!(record.name, "T");
    assert_eq!(record.fields, named(&[("a", 1), ("n", 9), ("b", 2), ("c", 3)]));
}

#[test]
fn nothing_is_yielded_without_a_future() {
    let plain = descriptor("P { a: 1, b: 2 }");
    assert_eq!(complete(&plain, Vec::<usize>::new(), vec![1, 2]), None);
    assert_eq!(try_complete(&plain, Vec::<Result<usize, ()>>::new(), vec![1, 2], vec![]), None);
}

#[test]
fn nothing_is_yielded_where_a_name_occurs_twice() {
    let twice = descriptor("P { a: async { 1 }, a: async { 2 } }");
    assert_eq!(complete(&twice, vec![1, 2], vec![]), None);
    let twice = descriptor("P { a: async { 1 }, b: 0, a: 2 }");
    assert_eq!(complete(&twice, vec![1], vec![0, 2]), None);
    assert_eq!(try_complete(&twice, vec![Ok::<usize, ()>(1)], vec![0, 2], vec![0]), None);
}

#[test]
fn nothing_is_yielded_where_the_values_do_not_match_the_fields() {
    let two = descriptor("P { a: async { 1 }, b: 2 }");
    assert_eq!(complete(&two, vec![1, 2], vec![2]), None);
    assert_eq!(complete(&two, vec![1], vec![]), None);
    assert_eq!(complete(&two, vec![], vec![1, 2]), None);
    assert_eq!(try_complete(&two, vec![Err::<usize, ()>(())], vec![], vec![0]), None);
    assert!(complete(&two, vec![1], vec![2]).is_some());
}
