//! Tokens as they come from the command line, and the typed values that
//! options store.

use crate::number::is_float_text;
use crate::sealed::SealedCliReturnValue;
use crate::schema::SchemaKind;
use vstd::prelude::*;

verus! {

/// One raw command line token: text, or bytes that are not valid text.
#[derive(Debug, Clone, PartialEq, Eq)]
pub enum ArgToken {
    Text(String),
    Undecodable(Vec<u8>),
}

/// The mathematical value of an [`ArgToken`].
pub ghost enum TokenView {
    Text(Seq<char>),
    Undecodable(Seq<u8>),
}

impl View for ArgToken {
    type V = TokenView;

    open spec fn view(&self) -> TokenView {
        match self {
            ArgToken::Text(s) => TokenView::Text(s@),
            ArgToken::Undecodable(b) => TokenView::Undecodable(b@),
        }
    }
}

impl ArgToken {
    /// A text token.
    pub fn text(s: &str) -> (r: ArgToken)
        ensures
            r@ == TokenView::Text(s@),
    {
        ArgToken::Text(s.to_owned())
    }
}

/// A decimal floating-point literal, kept as written.
#[derive(Debug, Clone, PartialEq, Eq)]
pub struct NumberLiteral {
    text: String,
}

impl View for NumberLiteral {
    type V = Seq<char>;

    closed spec fn view(&self) -> Seq<char> {
        self.text@
    }
}

impl NumberLiteral {
    /// The literal `text`; it must be a decimal floating-point literal.
    pub fn new(text: String) -> (r: NumberLiteral)
        requires
            is_float_text(text@),
        ensures
            r@ == text@,
    {
        NumberLiteral { text }
    }

    /// The literal's text.
    pub fn as_str(&self) -> (r: &str)
        ensures
            r@ == self@,
    {
        self.text.as_str()
    }
}

/// A value stored for an option.
#[derive(Debug, Clone, PartialEq, Eq)]
pub enum ArgValue {
    Text(String),
    Flag(bool),
    Signed(isize),
    Unsigned(usize),
    Number(NumberLiteral),
}

/// The mathematical value of an [`ArgValue`].
pub ghost enum ValueView {
    Text(Seq<char>),
    Flag(bool),
    Signed(isize),
    Unsigned(usize),
    Number(Seq<char>),
}

impl View for ArgValue {
    type V = ValueView;

    open spec fn view(&self) -> ValueView {
        match self {
            ArgValue::Text(s) => ValueView::Text(s@),
            ArgValue::Flag(b) => ValueView::Flag(*b),
            ArgValue::Signed(i) => ValueView::Signed(*i),
            ArgValue::Unsigned(u) => ValueView::Unsigned(*u),
            ArgValue::Number(n) => ValueView::Number(n@),
        }
    }
}

/// A type that an option's value can be read as.
pub trait CliReturnValue: SealedCliReturnValue + Sized {
    /// The kind of option whose values have this type.
    spec fn spec_kind() -> SchemaKind;

    /// A stored value `v` holds `x`.
    spec fn holds(v: ValueView, x: Self) -> bool;

    fn kind() -> (k: SchemaKind)
        ensures
            k == Self::spec_kind(),
    ;

    /// The content of `v`, when it is a value of this type.
    fn from_value(v: &ArgValue) -> (r: Option<&Self>)
        ensures
            match r {
                Some(x) => Self::holds(v@, *x),
                None => forall|x: Self| !Self::holds(v@, x),
            },
    ;
}

impl CliReturnValue for String {
    open spec fn spec_kind() -> SchemaKind {
        SchemaKind::String
    }

    open spec fn holds(v: ValueView, x: String) -> bool {
        v == ValueView::Text(x@)
    }

    fn kind() -> (k: SchemaKind) {
        SchemaKind::String
    }

    fn from_value(v: &ArgValue) -> (r: Option<&String>) {
        match v {
            ArgValue::Text(s) => Some(s),
            _ => None,
        }
    }
}

impl CliReturnValue for bool {
    open spec fn spec_kind() -> SchemaKind {
        SchemaKind::Bool
    }

    open spec fn holds(v: ValueView, x: bool) -> bool {
        v == ValueView::Flag(x)
    }

    fn kind() -> (k: SchemaKind) {
        SchemaKind::Bool
    }

    fn from_value(v: &ArgValue) -> (r: Option<&bool>) {
        match v {
            ArgValue::Flag(b) => Some(b),
            _ => None,
        }
    }
}

impl CliReturnValue for isize {
    open spec fn spec_kind() -> SchemaKind {
        SchemaKind::IInt
    }

    open spec fn holds(v: ValueView, x: isize) -> bool {
        v == ValueView::Signed(x)
    }

    fn kind() -> (k: SchemaKind) {
        SchemaKind::IInt
    }

    fn from_value(v: &ArgValue) -> (r: Option<&isize>) {
        match v {
            ArgValue::Signed(i) => Some(i),
            _ => None,
        }
    }
}

impl CliReturnValue for usize {
    open spec fn spec_kind() -> SchemaKind {
        SchemaKind::UInt
    }

    open spec fn holds(v: ValueView, x: usize) -> bool {
        v == ValueView::Unsigned(x)
    }

    fn kind() -> (k: SchemaKind) {
        SchemaKind::UInt
    }

    fn from_value(v: &ArgValue) -> (r: Option<&usize>) {
        match v {
            ArgValue::Unsigned(u) => Some(u),
            _ => None,
        }
    }
}

impl CliReturnValue for NumberLiteral {
    open spec fn spec_kind() -> SchemaKind {
        SchemaKind::Num
    }

    open spec fn holds(v: ValueView, x: NumberLiteral) -> bool {
        v == ValueView::Number(x@)
    }

    fn kind() -> (k: SchemaKind) {
        SchemaKind::Num
    }

    fn from_value(v: &ArgValue) -> (r: Option<&NumberLiteral>) {
        match v {
            ArgValue::Number(n) => Some(n),
            _ => None,
        }
    }
}

} // verus!
