//! Concurrent struct construction, as a transformation of tokens.
//!
//! An invocation has the shape of a struct literal, `Name { field: value, .. }`.
//! Every field whose value is an `async` block is a future. The expansion is an
//! `async` block that resolves all the futures together, with `tokio::join!`,
//! binds what each yields to the name of its field, and builds the struct from
//! those names and from the other fields' values:
//!
//! ```text
//! Contact { name: async { get_name().await }, is_verified: true }
//! ```
//!
//! becomes
//!
//! ```text
//! async {
//!     let (name,) = tokio::join!(async { get_name().await });
//!     Contact { name, is_verified: true }
//! }
//! ```
//!
//! [`try_conquer_future`] is for futures that yield a `Result`: it joins them
//! with `tokio::try_join!`, passes the first failure on with `?`, and wraps the
//! struct in `Ok`.
//!
//! The library works on its own tokens ([`tokens::Token`]); a procedural macro
//! turns the compiler's tokens into them and the expansion back.
use vstd::prelude::*;

pub mod completion;
pub mod executor;
mod queue;
mod scan;
pub mod tokens;
pub mod types;

use crate::executor::{concurrent_struct_constructor, expanded, ExpandError, ExpandErrorView};
use crate::tokens::{views, Token, TokenView};
use crate::types::{invocation_is, invocation_of, OutputStructAbstraction, Scans};

verus! {

/// What the tokens of an invocation expand to: the expansion of the invocation
/// that they parse as, and the syntax error where they do not parse. `scans`
/// holds what the parser of expressions found for the value of each field.
pub open spec fn expansion_of(input: Seq<TokenView>, scans: Scans, triable: bool) -> Result<
    Seq<TokenView>,
    ExpandErrorView,
> {
    match invocation_of(input, scans) {
        Err(e) => Err(ExpandErrorView::Syntax(e)),
        Ok(descriptor) => expanded(descriptor, triable),
    }
}

/// `r` is the code `expected`, or the error `expected`.
pub open spec fn expansion_is(
    r: Result<Vec<Token>, ExpandError>,
    expected: Result<Seq<TokenView>, ExpandErrorView>,
) -> bool {
    match expected {
        Ok(expansion) => r matches Ok(code) && views(code@) == expansion,
        Err(e) => r matches Err(err) && err@ == e,
    }
}

/// Expands `Name { field: value, .. }` to an `async` block that resolves the
/// fields' futures together and yields the struct.
///
/// The invocation must hold at least one future: without one there is nothing
/// to resolve, and the error says so.
///
/// Where each value ends, and whether it is an `async` block, is what syn
/// finds; whatever it finds, the outcome is the expansion for those findings.
pub fn conquer_future(input: Vec<Token>) -> (r: Result<Vec<Token>, ExpandError>)
    ensures
        exists|scans: Scans| expansion_is(r, #[trigger] expansion_of(views(input@), scans, false)),
{
    let parsed = OutputStructAbstraction::parse(input);
    let ghost scans = choose|scans: Scans|
        invocation_is(parsed, #[trigger] invocation_of(views(input@), scans));
    let r = match parsed {
        Ok(container) => concurrent_struct_constructor(container, false),
        Err(e) => Err(ExpandError::Syntax(e)),
    };
    assert(expansion_is(r, expansion_of(views(input@), scans, false)));
    r
}

/// Expands `Name { field: value, .. }` to an `async` block that resolves the
/// fields' futures together, each of which yields a `Result`, and itself yields
/// `Ok` of the struct, or the failure of a future.
///
/// The invocation must hold at least one future: without one there is nothing
/// to resolve, and the error says so.
///
/// Where each value ends, and whether it is an `async` block, is what syn
/// finds; whatever it finds, the outcome is the expansion for those findings.
pub fn try_conquer_future(input: Vec<Token>) -> (r: Result<Vec<Token>, ExpandError>)
    ensures
        exists|scans: Scans| expansion_is(r, #[trigger] expansion_of(views(input@), scans, true)),
{
    let parsed = OutputStructAbstraction::parse(input);
    let ghost scans = choose|scans: Scans|
        invocation_is(parsed, #[trigger] invocation_of(views(input@), scans));
    let r = match parsed {
        Ok(container) => concurrent_struct_constructor(container, true),
        Err(e) => Err(ExpandError::Syntax(e)),
    };
    assert(expansion_is(r, expansion_of(views(input@), scans, true)));
    r
}

} // verus!
