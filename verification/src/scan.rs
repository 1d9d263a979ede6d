use vstd::prelude::*;

verus! {

/// Parses the expression that `text` begins with, by
/// `syn::parse::Parser::parse_str` on a parser that takes one `syn::Expr` and
/// then the rest of the tokens. `Ok((is_async, rest))` says that the text
/// begins with an expression, that the expression as a whole is an `async`
/// block, and that `rest` token trees follow it; `Err(message)` carries syn's
/// message where the text does not lex or begins with no expression.
///
/// Nothing is claimed of the outcome. The text is lexed by the lexer of the
/// process, the compiler's inside a macro and proc-macro2's own elsewhere, so
/// that not even two scans of one text need agree.
#[verifier::external_body]
pub(crate) fn scan_expression(text: &str) -> (found: Result<(bool, usize), String>) {
    let parsed = syn::parse::Parser::parse_str(
        |input: syn::parse::ParseStream| {
            let expr = input.parse::<syn::Expr>()?;
            Ok((expr, input.parse::<proc_macro2::TokenStream>()?))
        },
        text,
    );
    match parsed {
        Ok((expr, rest)) => Ok((matches!(expr, syn::Expr::Async(_)), rest.into_iter().count())),
        Err(error) => Err(error.to_string()),
    }
}

} // verus!
