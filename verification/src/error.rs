//! Why a parse failed.

use crate::token::{TokenNode, TokenTree, Tokens, TreeView};
use vstd::prelude::*;
use vstd::string::StringExecFns;

verus! {

/// What the parser missed or met.
#[derive(Clone, Copy, Debug, PartialEq, Eq, Structural)]
pub enum ErrorKind {
    /// A markup was due and the input had ended.
    EndOfInput,
    /// An `@if` head without a body.
    EndOfIf,
    /// An `@while` head without a body.
    EndOfWhile,
    /// An `@for` head without `in`, or without a body.
    EndOfFor,
    /// An `@match` head without its arms.
    EndOfMatch,
    /// A match pattern without its arrow.
    EndOfMatchPattern,
    /// A match arm without a body, or an expression body without its comma.
    EndOfMatchArm,
    /// An `@let` without `=`, or without the closing `;`.
    EndOfLet,
    /// `@` not followed by an identifier.
    ExpectedKeyword,
    /// `@else` followed neither by `if` nor by a body.
    ExpectedElseBody,
    /// A name that does not begin with an identifier.
    ExpectedIdentifier,
    /// A literal that is no string.
    ExpectedString,
    /// A token with which no markup begins.
    InvalidSyntax,
    /// `@` followed by an identifier that is no keyword.
    UnknownKeyword,
    /// `@let` where a single markup is due.
    LetOutsideBlock,
    /// An element as the value of an attribute.
    ElementInAttribute,
    /// The input does not begin with the name of an output buffer.
    BufferName,
}

/// The broad classes of failure.
#[derive(Clone, Copy, Debug, PartialEq, Eq, Structural)]
pub enum ErrorClass {
    UnexpectedEndOfInput,
    InvalidSyntax,
    UnknownKeyword,
    MisplacedConstruct,
    MalformedBufferArgument,
}

/// A failure: its kind, and the token at which the parser stopped. No token
/// means that the parser stopped at the end of a token sequence.
#[derive(Debug, PartialEq, Eq)]
pub struct ParseError {
    pub kind: ErrorKind,
    pub found: Option<TokenTree>,
}

/// What a rule returns.
pub type ParseResult<T> = Result<T, ParseError>;

/// The mathematical value of a failure.
pub struct Failure {
    pub kind: ErrorKind,
    pub found: Option<TreeView>,
}

/// The failure of kind `kind` at position `pos` of `s`.
pub open spec fn failure_at(kind: ErrorKind, s: Tokens, pos: int) -> Failure {
    Failure { kind, found: if 0 <= pos < s.len() { Some(s[pos]) } else { None } }
}

impl ErrorKind {
    /// The fixed words of the message for this kind.
    pub open spec fn spec_text(self) -> Seq<char> {
        match self {
            ErrorKind::EndOfInput => "unexpected end of input"@,
            ErrorKind::EndOfIf => "unexpected end of @if expression"@,
            ErrorKind::EndOfWhile => "unexpected end of @while expression"@,
            ErrorKind::EndOfFor => "unexpected end of @for expression"@,
            ErrorKind::EndOfMatch => "unexpected end of @match expression"@,
            ErrorKind::EndOfMatchPattern => "unexpected end of @match pattern"@,
            ErrorKind::EndOfMatchArm => "unexpected end of @match arm"@,
            ErrorKind::EndOfLet => "unexpected end of @let expression"@,
            ErrorKind::ExpectedKeyword => "expected keyword after `@`"@,
            ErrorKind::ExpectedElseBody => "expected body for @else"@,
            ErrorKind::ExpectedIdentifier => "expected identifier"@,
            ErrorKind::ExpectedString => "expected string"@,
            ErrorKind::InvalidSyntax => "invalid syntax"@,
            ErrorKind::UnknownKeyword => "unknown keyword `@"@,
            ErrorKind::LetOutsideBlock => "@let only works inside a block"@,
            ErrorKind::ElementInAttribute => "element not allowed inside an attribute value"@,
            ErrorKind::BufferName => "error trying to parse the buffer name"@,
        }
    }

    pub fn text(self) -> (words: &'static str)
        ensures
            words@ == self.spec_text(),
    {
        match self {
            ErrorKind::EndOfInput => "unexpected end of input",
            ErrorKind::EndOfIf => "unexpected end of @if expression",
            ErrorKind::EndOfWhile => "unexpected end of @while expression",
            ErrorKind::EndOfFor => "unexpected end of @for expression",
            ErrorKind::EndOfMatch => "unexpected end of @match expression",
            ErrorKind::EndOfMatchPattern => "unexpected end of @match pattern",
            ErrorKind::EndOfMatchArm => "unexpected end of @match arm",
            ErrorKind::EndOfLet => "unexpected end of @let expression",
            ErrorKind::ExpectedKeyword => "expected keyword after `@`",
            ErrorKind::ExpectedElseBody => "expected body for @else",
            ErrorKind::ExpectedIdentifier => "expected identifier",
            ErrorKind::ExpectedString => "expected string",
            ErrorKind::InvalidSyntax => "invalid syntax",
            ErrorKind::UnknownKeyword => "unknown keyword `@",
            ErrorKind::LetOutsideBlock => "@let only works inside a block",
            ErrorKind::ElementInAttribute => "element not allowed inside an attribute value",
            ErrorKind::BufferName => "error trying to parse the buffer name",
        }
    }
}

impl Failure {
    /// The class of this failure. A failure at the end of a token sequence
    /// is an unexpected end of input, whatever was due there.
    pub open spec fn class(self) -> ErrorClass {
        if self.kind == ErrorKind::BufferName {
            ErrorClass::MalformedBufferArgument
        } else if self.found is None {
            ErrorClass::UnexpectedEndOfInput
        } else if self.kind == ErrorKind::UnknownKeyword {
            ErrorClass::UnknownKeyword
        } else if self.kind == ErrorKind::LetOutsideBlock || self.kind
            == ErrorKind::ElementInAttribute {
            ErrorClass::MisplacedConstruct
        } else {
            ErrorClass::InvalidSyntax
        }
    }

    /// The text of the token at which the parser stopped, if it has one.
    pub open spec fn found_text(self) -> Seq<char> {
        match self.found {
            Some(tree) => tree.text(),
            None => Seq::empty(),
        }
    }

    /// The message: the words of the kind, and for an unknown keyword the
    /// keyword and a closing backquote behind them.
    pub open spec fn message(self) -> Seq<char> {
        if self.kind == ErrorKind::UnknownKeyword {
            self.kind.spec_text() + self.found_text() + "`"@
        } else {
            self.kind.spec_text()
        }
    }
}

impl ParseError {
    pub open spec fn view(&self) -> Failure {
        Failure {
            kind: self.kind,
            found: match self.found {
                Some(tree) => Some(tree@),
                None => None,
            },
        }
    }

    /// The failure of kind `kind` at the token `found`.
    pub fn new(kind: ErrorKind, found: Option<&TokenTree>) -> (error: ParseError)
        ensures
            error@.kind == kind,
            match found {
                Some(tree) => error@.found == Some(tree@),
                None => error@.found is None,
            },
    {
        match found {
            Some(tree) => ParseError { kind, found: Some(tree.clone()) },
            None => ParseError { kind, found: None },
        }
    }

    pub fn class(&self) -> (class: ErrorClass)
        ensures
            class == self@.class(),
    {
        if self.kind == ErrorKind::BufferName {
            ErrorClass::MalformedBufferArgument
        } else if self.found.is_none() {
            ErrorClass::UnexpectedEndOfInput
        } else if self.kind == ErrorKind::UnknownKeyword {
            ErrorClass::UnknownKeyword
        } else if self.kind == ErrorKind::LetOutsideBlock || self.kind
            == ErrorKind::ElementInAttribute {
            ErrorClass::MisplacedConstruct
        } else {
            ErrorClass::InvalidSyntax
        }
    }

    /// The message for a reader.
    pub fn message(&self) -> (text: String)
        ensures
            text@ == self@.message(),
    {
        let mut text = String::from_str(self.kind.text());
        if self.kind == ErrorKind::UnknownKeyword {
            match &self.found {
                Some(tree) => {
                    match &tree.kind {
                        TokenNode::Term(word) => {
                            text.append(word.as_str());
                        },
                        TokenNode::Literal(word) => {
                            text.append(word.as_str());
                        },
                        _ => {
                            assert(text@ + Seq::<char>::empty() =~= text@);
                        },
                    }
                },
                None => {
                    assert(text@ + Seq::<char>::empty() =~= text@);
                },
            }
            text.append("`");
        }
        text
    }
}

} // verus!
