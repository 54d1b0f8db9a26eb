//! The output buffer that may be named before the markup begins.

use crate::error::{failure_at, ErrorKind, Failure, ParseError, ParseResult};
use crate::token::{TokenStream, TokenTree, Tokens, TreeView};
use vstd::prelude::*;

verus! {

/// Whether the buffer that was named still has to be borrowed.
#[derive(Copy, Clone, Debug, PartialEq, Eq, Structural)]
pub enum BufferBorrow {
    NeedBorrow,
    AlreadyBorrowed,
}

/// Where the output goes: to a buffer that is allocated for it, or to one
/// that the caller named.
#[derive(Copy, Clone, Debug, PartialEq, Eq, Structural)]
pub enum BufferType {
    Allocated,
    Custom(BufferBorrow),
}

/// The buffer that takes the output.
#[derive(Debug, PartialEq, Eq)]
pub struct OutputBuffer {
    ident: TokenTree,
    buffer_type: BufferType,
}

/// The mathematical value of an [`OutputBuffer`].
pub struct OutputBufferView {
    pub ident: TreeView,
    pub buffer_type: BufferType,
}

impl OutputBuffer {
    pub closed spec fn view(&self) -> OutputBufferView {
        OutputBufferView { ident: self.ident@, buffer_type: self.buffer_type }
    }

    pub fn new(ident: TokenTree, buffer_type: BufferType) -> (buffer: OutputBuffer)
        ensures
            buffer@ == (OutputBufferView { ident: ident@, buffer_type }),
    {
        OutputBuffer { ident, buffer_type }
    }

    /// A copy of the identifier that names the buffer.
    pub fn ident(&self) -> (ident: TokenTree)
        ensures
            ident@ == self@.ident,
    {
        self.ident.clone()
    }

    pub fn buffer_type(&self) -> (buffer_type: BufferType)
        ensures
            buffer_type == self@.buffer_type,
    {
        self.buffer_type
    }
}

impl Clone for OutputBuffer {
    fn clone(&self) -> (copy: Self)
        ensures
            copy@ == self@,
    {
        OutputBuffer { ident: self.ident.clone(), buffer_type: self.buffer_type }
    }
}

/// The buffer that the tokens name at their start, and how many tokens name
/// it: an identifier and a comma, for a buffer that is borrowed already, or
/// `&`, `mut`, an identifier and a comma, for one that is yet to be borrowed.
pub open spec fn spec_buffer_argument(s: Tokens) -> Result<(OutputBufferView, int), Failure> {
    if s.len() >= 2 && s[0].is_term() && s[1].is_op(',') {
        Ok(
            (
                OutputBufferView {
                    ident: s[0],
                    buffer_type: BufferType::Custom(BufferBorrow::AlreadyBorrowed),
                },
                2,
            ),
        )
    } else if s.len() >= 4 && s[0].is_op('&') && s[1].is_word("mut"@) && s[2].is_term()
        && s[3].is_op(',') {
        Ok(
            (
                OutputBufferView {
                    ident: s[2],
                    buffer_type: BufferType::Custom(BufferBorrow::NeedBorrow),
                },
                4,
            ),
        )
    } else {
        Err(failure_at(ErrorKind::BufferName, s, 0))
    }
}

/// The next three tokens, which stay where they are.
pub fn peek3(input: &TokenStream) -> (trees: Option<
    (&TokenTree, Option<&TokenTree>, Option<&TokenTree>),
>)
    ensures
        trees is Some <==> input@.len() > 0,
        trees matches Some((first, second, third)) ==> {
            &&& first@ == input@[0]
            &&& second is Some <==> input@.len() > 1
            &&& second matches Some(t) ==> t@ == input@[1]
            &&& third is Some <==> input@.len() > 2
            &&& third matches Some(t) ==> t@ == input@[2]
        },
{
    match input.get(0) {
        Some(first) => Some((first, input.get(1), input.get(2))),
        None => None,
    }
}

/// Takes `count` tokens off the front, or all of them if there are fewer.
pub fn advance(input: &mut TokenStream, count: usize)
    ensures
        final(input)@ == if count <= old(input)@.len() {
            old(input)@.subrange(count as int, old(input)@.len() as int)
        } else {
            Seq::empty()
        },
{
    let at = if count <= input.trees.len() {
        count
    } else {
        input.trees.len()
    };
    let rest = input.trees.split_off(at);
    input.trees = rest;
    assert(input@ =~= if count <= old(input)@.len() {
        old(input)@.subrange(count as int, old(input)@.len() as int)
    } else {
        Seq::empty()
    });
}

/// Takes two tokens off the front, as far as there are any.
pub fn advance2(input: &mut TokenStream)
    ensures
        final(input)@ == if 2 <= old(input)@.len() {
            old(input)@.subrange(2, old(input)@.len() as int)
        } else {
            Seq::empty()
        },
{
    advance(input, 2);
}

/// Takes four tokens off the front, as far as there are any.
pub fn advance4(input: &mut TokenStream)
    ensures
        final(input)@ == if 4 <= old(input)@.len() {
            old(input)@.subrange(4, old(input)@.len() as int)
        } else {
            Seq::empty()
        },
{
    advance(input, 4);
}

/// Reads the name of the output buffer off the front of `input_stream`.
/// On failure the tokens stay as they are.
pub fn buffer_argument(input_stream: &mut TokenStream) -> (r: ParseResult<OutputBuffer>)
    ensures
        match spec_buffer_argument(old(input_stream)@) {
            Ok((buffer, used)) => {
                &&& r matches Ok(b) && b@ == buffer
                &&& final(input_stream)@ == old(input_stream)@.subrange(
                    used,
                    old(input_stream)@.len() as int,
                )
            },
            Err(e) => {
                &&& r matches Err(x) && x@ == e
                &&& final(input_stream)@ == old(input_stream)@
            },
        },
{
    let mut shape: Option<(TokenTree, BufferBorrow)> = None;
    match peek3(input_stream) {
        Some((first, Some(second), third)) => {
            if first.is_term() && second.is_op(',') {
                shape = Some((first.clone(), BufferBorrow::AlreadyBorrowed));
            } else if first.is_op('&') && second.is_word("mut") {
                match (third, input_stream.get(3)) {
                    (Some(buffer), Some(comma)) => {
                        if buffer.is_term() && comma.is_op(',') {
                            shape = Some((buffer.clone(), BufferBorrow::NeedBorrow));
                        }
                    },
                    _ => {},
                }
            }
        },
        _ => {},
    }
    match shape {
        Some((ident, BufferBorrow::AlreadyBorrowed)) => {
            advance2(input_stream);
            Ok(OutputBuffer::new(ident, BufferType::Custom(BufferBorrow::AlreadyBorrowed)))
        },
        Some((ident, BufferBorrow::NeedBorrow)) => {
            advance4(input_stream);
            Ok(OutputBuffer::new(ident, BufferType::Custom(BufferBorrow::NeedBorrow)))
        },
        None => Err(ParseError::new(ErrorKind::BufferName, input_stream.get(0))),
    }
}

} // verus!
