//! The closed set of types that option values can be read as.

use crate::value::NumberLiteral;
use vstd::prelude::*;

verus! {

/// Implemented only by the types of this crate's [`crate::CliReturnValue`] impls.
pub trait SealedCliReturnValue {}

impl SealedCliReturnValue for String {}

impl SealedCliReturnValue for bool {}

impl SealedCliReturnValue for isize {}

impl SealedCliReturnValue for usize {}

impl SealedCliReturnValue for NumberLiteral {}

} // verus!
