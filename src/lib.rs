//! A type-safe command line argument parser.
//!
//! Options are described by [`SchemaCommand`] values (or by types implementing
//! [`CliArg`]), collected into a validated [`Schema`], and raw argument tokens are
//! parsed against that schema into a [`CliArgs`] store of typed values plus the
//! positional arguments in the order they were given.

pub mod number;
pub mod parse;
pub mod schema;
mod sealed;
pub mod value;

pub use crate::number::{is_float_literal, parse_isize, parse_usize};
pub use crate::parse::{CallError, CliArgs};
pub use crate::schema::{IntoSchema, Schema, SchemaCommand, SchemaError, SchemaKind};
pub use crate::value::{ArgToken, ArgValue, CliReturnValue, NumberLiteral};
use vstd::prelude::*;

verus! {

/// Implemented by a type that stands for one command line option: its long
/// name, its optional short name, and the type of its value.
pub trait CliArg {
    type Content: CliReturnValue;

    /// The long name, without leading dashes. An impl that is verified
    /// defines it (and `spec_short`) to say what `long` returns; callers that
    /// are generic over the option type never see these default bodies.
    open spec fn spec_long() -> Seq<char> {
        Seq::empty()
    }

    /// The short name, if any.
    open spec fn spec_short() -> Option<char> {
        None
    }

    fn long() -> (r: &'static str)
        ensures
            r@ == Self::spec_long(),
    ;

    fn short() -> (r: Option<char>)
        ensures
            r == Self::spec_short(),
    ;
}

/// The parsed arguments, read through the option types that declared them.
#[derive(Debug, Clone, PartialEq, Eq)]
pub struct BadArgs {
    args: CliArgs,
}

impl View for BadArgs {
    type V = crate::parse::ParsedView;

    closed spec fn view(&self) -> crate::parse::ParsedView {
        self.args@
    }
}

impl BadArgs {
    /// Parses `tokens` against `schema`; see [`CliArgs::from_args`].
    pub fn from_args(schema: &Schema, tokens: &[ArgToken]) -> (r: Result<BadArgs, CallError>)
        ensures
            match crate::parse::parse_tokens(schema@, crate::parse::tokens_view(tokens@)) {
                Ok(v) => r matches Ok(a) && a@ == v,
                Err(e) => r matches Err(x) && x@ == e,
            },
    {
        match CliArgs::from_args(schema, tokens) {
            Ok(args) => Ok(BadArgs { args }),
            Err(e) => Err(e),
        }
    }

    /// The value of option `T`, stored under its long name, if it was supplied.
    pub fn get<T: CliArg>(&self) -> (r: Option<&T::Content>)
        ensures
            match r {
                Some(x) => self@.args.contains_key(T::spec_long()) && T::Content::holds(
                    self@.args[T::spec_long()],
                    *x,
                ),
                None => !self@.args.contains_key(T::spec_long()) || forall|x: T::Content|
                    !T::Content::holds(self@.args[T::spec_long()], x),
            },
    {
        let long_name = T::long();
        self.args.get::<T::Content>(long_name)
    }

    /// The positional arguments, in input order.
    pub fn unnamed(&self) -> (r: &[String])
        ensures
            r@.map_values(|s: String| s@) == self@.unnamed,
    {
        self.args.unnamed()
    }
}

} // verus!
