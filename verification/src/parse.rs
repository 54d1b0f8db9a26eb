//! The parser: a cursor over a token sequence and one function for each
//! rule of the grammar.

use crate::ast::{
    markups_view, specials_view, AttrType, Attribute, Attrs, AttrsView, Block, BlockView,
    Markup, MarkupView, Special, SpecialView, Toggler,
};
use crate::error::{failure_at, ErrorKind, Failure, ParseError, ParseResult};
use crate::grammar::{
    after_attrs, after_markups, after_specials, arrow_at, lemma_after_attrs,
    lemma_after_markups, lemma_attrs_end, lemma_attrs_start, lemma_after_specials, lemma_inner_decreases, lemma_scan,
    lemma_scan_arrow, name_end, scan, scan_arrow, spec_arm_body, spec_arm_expr, spec_attrs,
    spec_block, spec_element, spec_else, spec_for, spec_head_body, spec_if, spec_let,
    spec_literal, spec_markup, spec_markups, spec_match, spec_match_arm, spec_match_arms,
    spec_name, spec_namespaced_name, spec_parse, spec_special, spec_toggler, spec_while, stops,
    Parsed, Stop,
};
use crate::literal::string_value;
use crate::token::{Delimiter, Span, TokenNode, TokenStream, TokenTree, Tokens};
use vstd::prelude::*;

verus! {

/// The markup that a rule gave and where it left the parser, as the grammar
/// states both; or its failure.
pub open spec fn parsed_markup(r: ParseResult<Markup>, pos: int) -> Parsed<MarkupView> {
    match r {
        Ok(markup) => Ok((markup@, pos)),
        Err(e) => Err(e@),
    }
}

/// As `parsed_markup`, for a head with its body.
pub open spec fn parsed_special(r: ParseResult<Special>, pos: int) -> Parsed<SpecialView> {
    match r {
        Ok(special) => Ok((special@, pos)),
        Err(e) => Err(e@),
    }
}

/// As `parsed_markup`, for attributes.
pub open spec fn parsed_attrs(r: ParseResult<Attrs>, pos: int) -> Parsed<AttrsView> {
    match r {
        Ok(attrs) => Ok((attrs@, pos)),
        Err(e) => Err(e@),
    }
}

/// As `parsed_markup`, for a name.
pub open spec fn parsed_tokens(r: ParseResult<TokenStream>, pos: int) -> Parsed<Tokens> {
    match r {
        Ok(tokens) => Ok((tokens@, pos)),
        Err(e) => Err(e@),
    }
}

/// The markups that a rule gave, as the grammar states them; or its failure.
pub open spec fn read_markups(r: ParseResult<Vec<Markup>>) -> Result<Seq<MarkupView>, Failure> {
    match r {
        Ok(markups) => Ok(markups_view(markups@)),
        Err(e) => Err(e@),
    }
}

/// As `read_markups`, for the arms of a match.
pub open spec fn read_specials(r: ParseResult<Vec<Special>>) -> Result<
    Seq<SpecialView>,
    Failure,
> {
    match r {
        Ok(specials) => Ok(specials_view(specials@)),
        Err(e) => Err(e@),
    }
}

/// As `read_markups`, for a block.
pub open spec fn read_block(r: ParseResult<Block>) -> Result<BlockView, Failure> {
    match r {
        Ok(block) => Ok(block@),
        Err(e) => Err(e@),
    }
}

/// As `read_markups`, for one markup.
pub open spec fn read_markup(r: ParseResult<Markup>) -> Result<MarkupView, Failure> {
    match r {
        Ok(markup) => Ok(markup@),
        Err(e) => Err(e@),
    }
}

/// Whether `tree` stops a scan for `stop`.
pub fn is_stop(tree: &TokenTree, stop: Stop) -> (b: bool)
    ensures
        b == stops(tree@, stop),
{
    match stop {
        Stop::Brace => tree.is_group(Delimiter::Brace),
        Stop::In => tree.is_word("in"),
        Stop::Assign => tree.is_op('='),
        Stop::Semicolon => tree.is_op(';'),
        Stop::Comma => tree.is_op(','),
    }
}

/// A literal token as markup, given the string that it stands for, if any.
pub fn literal_markup(value: Option<String>, tree: &TokenTree) -> (r: ParseResult<Markup>)
    ensures
        match value {
            Some(content) => read_markup(r) == Ok::<MarkupView, Failure>(
                MarkupView::Literal { content: content@, span: tree.span },
            ),
            None => read_markup(r) == Err::<MarkupView, Failure>(
                Failure { kind: ErrorKind::ExpectedString, found: Some(tree@) },
            ),
        },
{
    match value {
        Some(content) => Ok(Markup::Literal { content, span: tree.span }),
        None => Err(ParseError::new(ErrorKind::ExpectedString, Some(tree))),
    }
}

/// A position in a token sequence, and whether the value of an attribute
/// is being read there.
#[derive(Clone, Copy)]
pub struct Parser<'a> {
    in_attr: bool,
    input: &'a TokenStream,
    pos: usize,
}

impl<'a> Parser<'a> {
    /// The tokens that the parser reads.
    pub closed spec fn tokens(&self) -> Tokens {
        self.input@
    }

    /// How many tokens have been read.
    pub closed spec fn position(&self) -> int {
        self.pos as int
    }

    /// Whether the value of an attribute is being read.
    pub closed spec fn in_attr(&self) -> bool {
        self.in_attr
    }

    /// The position lies within the tokens or at their end.
    pub closed spec fn wf(&self) -> bool {
        self.pos <= self.input.trees.len()
    }

    /// `other` reads the same tokens in the same context.
    pub open spec fn same_input(&self, other: &Parser<'a>) -> bool {
        self.tokens() == other.tokens() && self.in_attr() == other.in_attr()
    }

    /// A parser at the start of `input`, outside any attribute.
    pub fn new(input: &'a TokenStream) -> (parser: Parser<'a>)
        ensures
            parser.wf(),
            parser.tokens() == input@,
            parser.position() == 0,
            !parser.in_attr(),
    {
        Parser { in_attr: false, input, pos: 0 }
    }

    /// A parser at the start of `input`, in the context of `self`.
    pub fn with_input(&self, input: &'a TokenStream) -> (parser: Parser<'a>)
        ensures
            parser.wf(),
            parser.tokens() == input@,
            parser.position() == 0,
            parser.in_attr() == self.in_attr(),
    {
        Parser { in_attr: self.in_attr, input, pos: 0 }
    }

    /// The token at `index`, if there is one.
    pub fn at(&self, index: usize) -> (tree: Option<&'a TokenTree>)
        ensures
            tree is Some <==> index < self.tokens().len(),
            tree matches Some(t) ==> t@ == self.tokens()[index as int],
    {
        if index < self.input.trees.len() {
            Some(&self.input.trees[index])
        } else {
            None
        }
    }

    /// The next token, which stays unread.
    pub fn peek(&self) -> (tree: Option<&'a TokenTree>)
        ensures
            tree is Some <==> self.position() < self.tokens().len(),
            tree matches Some(t) ==> t@ == self.tokens()[self.position()],
    {
        self.at(self.pos)
    }

    /// The next two tokens, which stay unread.
    pub fn peek2(&self) -> (trees: Option<(&'a TokenTree, Option<&'a TokenTree>)>)
        requires
            self.wf(),
        ensures
            trees is Some <==> self.position() < self.tokens().len(),
            trees matches Some((first, second)) ==> {
                &&& first@ == self.tokens()[self.position()]
                &&& second is Some <==> self.position() + 1 < self.tokens().len()
                &&& second matches Some(t) ==> t@ == self.tokens()[self.position() + 1]
            },
    {
        match self.at(self.pos) {
            Some(first) => Some((first, self.at(self.pos + 1))),
            None => None,
        }
    }

    /// Reads the next token, if there is one.
    pub fn next(&mut self) -> (tree: Option<&'a TokenTree>)
        requires
            old(self).wf(),
        ensures
            final(self).wf(),
            final(self).same_input(old(self)),
            tree is Some <==> old(self).position() < old(self).tokens().len(),
            tree matches Some(t) ==> t@ == old(self).tokens()[old(self).position()],
            final(self).position() == if tree is Some {
                old(self).position() + 1
            } else {
                old(self).position()
            },
    {
        let tree = self.at(self.pos);
        if tree.is_some() {
            self.pos = self.pos + 1;
        }
        tree
    }

    /// Passes over the next token, if there is one.
    pub fn advance(&mut self)
        requires
            old(self).wf(),
        ensures
            final(self).wf(),
            final(self).same_input(old(self)),
            final(self).position() == if old(self).position() < old(self).tokens().len() {
                old(self).position() + 1
            } else {
                old(self).position()
            },
    {
        let _ = self.next();
    }

    /// Passes over the next two tokens, as far as there are any.
    pub fn advance2(&mut self)
        requires
            old(self).wf(),
        ensures
            final(self).wf(),
            final(self).same_input(old(self)),
            final(self).position() == if old(self).position() + 2 <= old(self).tokens().len() {
                old(self).position() + 2
            } else {
                old(self).tokens().len() as int
            },
    {
        let _ = self.next();
        let _ = self.next();
    }

    /// Takes the state of `attempt`, a copy of this parser that has read ahead.
    pub fn commit(&mut self, attempt: Parser<'a>)
        ensures
            *final(self) == attempt,
    {
        *self = attempt;
    }

    /// The failure of kind `kind` at the next token.
    pub fn error(&self, kind: ErrorKind) -> (error: ParseError)
        ensures
            error@ == failure_at(kind, self.tokens(), self.position()),
    {
        ParseError::new(kind, self.at(self.pos))
    }

    /// The failure of kind `kind` at the end of the tokens.
    pub fn error_at_end(&self, kind: ErrorKind) -> (error: ParseError)
        ensures
            error@ == failure_at(kind, self.tokens(), self.tokens().len() as int),
    {
        ParseError::new(kind, None)
    }

    /// The first position from `from` on whose token stops the scan, or the
    /// number of tokens where there is none.
    pub fn find(&self, from: usize, stop: Stop) -> (at: usize)
        ensures
            at == scan(self.tokens(), from as int, stop),
            at <= self.tokens().len(),
            from <= self.tokens().len() ==> from <= at,
    {
        let n = self.input.trees.len();
        if from > n {
            return n;
        }
        let mut i = from;
        while i < n && !is_stop(&self.input.trees[i], stop)
            invariant
                from <= i <= n,
                n == self.tokens().len(),
                scan(self.tokens(), from as int, stop) == scan(self.tokens(), i as int, stop),
            decreases n - i,
        {
            i += 1;
        }
        i
    }

    /// A copy of the tokens from `from` up to the position.
    pub fn taken(&self, from: usize) -> (tokens: TokenStream)
        requires
            self.wf(),
            from <= self.position(),
        ensures
            tokens@ == self.tokens().subrange(from as int, self.position()),
    {
        self.input.slice(from, self.pos)
    }

    /// Parses a literal string.
    pub fn literal(&self, tree: &TokenTree) -> (r: ParseResult<Markup>)
        ensures
            read_markup(r) == spec_literal(tree@),
    {
        match &tree.kind {
            TokenNode::Literal(text) => literal_markup(string_value(text.as_str()), tree),
            _ => Err(ParseError::new(ErrorKind::ExpectedString, Some(tree))),
        }
    }

    /// Reads a name, without dealing with namespaces, and keeps nothing.
    pub fn pass_name(&mut self) -> (r: ParseResult<()>)
        requires
            old(self).wf(),
        ensures
            final(self).wf(),
            final(self).same_input(old(self)),
            match spec_name(old(self).tokens(), old(self).position()) {
                Ok((_, end)) => r is Ok && final(self).position() == end,
                Err(e) => r matches Err(x) && x@ == e,
            },
            r is Ok ==> old(self).position() < final(self).position(),
    {
        let start = self.pos;
        let begins = match self.peek() {
            Some(first) => first.is_term(),
            None => false,
        };
        if !begins {
            return Err(self.error(ErrorKind::ExpectedIdentifier));
        }
        self.advance();
        let mut expect_ident = false;
        loop
            invariant
                self.wf(),
                self.same_input(old(self)),
                start < self.position(),
                start == old(self).position(),
                name_end(self.tokens(), start + 1, false) == name_end(
                    self.tokens(),
                    self.position(),
                    expect_ident,
                ),
            ensures
                self.wf(),
                self.same_input(old(self)),
                start < self.position(),
                self.position() == name_end(self.tokens(), start + 1, false),
            decreases self.tokens().len() - self.position(),
        {
            match self.peek() {
                Some(token) => {
                    if token.is_op('-') {
                        self.advance();
                        expect_ident = true;
                    } else if expect_ident && token.is_term() {
                        self.advance();
                        expect_ident = false;
                    } else {
                        break ;
                    }
                },
                None => {
                    break ;
                },
            }
        }
        Ok(())
    }

    /// Reads a name with its namespace, if it has one, and keeps nothing.
    pub fn pass_namespaced_name(&mut self) -> (r: ParseResult<()>)
        requires
            old(self).wf(),
        ensures
            final(self).wf(),
            final(self).same_input(old(self)),
            match spec_namespaced_name(old(self).tokens(), old(self).position()) {
                Ok((_, end)) => r is Ok && final(self).position() == end,
                Err(e) => r matches Err(x) && x@ == e,
            },
            r is Ok ==> old(self).position() < final(self).position(),
    {
        match self.pass_name() {
            Err(e) => {
                return Err(e);
            },
            Ok(()) => {},
        }
        let colon = match self.peek() {
            Some(token) => token.is_op(':'),
            None => false,
        };
        if colon {
            self.advance();
            self.pass_name()
        } else {
            Ok(())
        }
    }

    /// Parses a name, without dealing with namespaces.
    pub fn name(&mut self) -> (r: ParseResult<TokenStream>)
        requires
            old(self).wf(),
        ensures
            final(self).wf(),
            final(self).same_input(old(self)),
            parsed_tokens(r, final(self).position()) == spec_name(
                old(self).tokens(),
                old(self).position(),
            ),
            r is Ok ==> old(self).position() < final(self).position(),
    {
        let start = self.pos;
        match self.pass_name() {
            Ok(()) => Ok(self.taken(start)),
            Err(e) => Err(e),
        }
    }

    /// Parses a name with its namespace, if it has one.
    pub fn namespaced_name(&mut self) -> (r: ParseResult<TokenStream>)
        requires
            old(self).wf(),
        ensures
            final(self).wf(),
            final(self).same_input(old(self)),
            parsed_tokens(r, final(self).position()) == spec_namespaced_name(
                old(self).tokens(),
                old(self).position(),
            ),
            r is Ok ==> old(self).position() < final(self).position(),
    {
        let start = self.pos;
        match self.pass_namespaced_name() {
            Ok(()) => Ok(self.taken(start)),
            Err(e) => Err(e),
        }
    }

    /// Parses the condition in brackets behind an empty attribute or a class.
    pub fn attr_toggler(&mut self) -> (toggler: Option<Toggler>)
        requires
            old(self).wf(),
        ensures
            final(self).wf(),
            final(self).same_input(old(self)),
            (
                match toggler {
                    Some(t) => Some(t@),
                    None => None,
                },
                final(self).position(),
            ) == spec_toggler(old(self).tokens(), old(self).position()),
            old(self).position() <= final(self).position(),
    {
        match self.peek() {
            Some(token) => {
                match &token.kind {
                    TokenNode::Group(Delimiter::Bracket, cond) => {
                        self.advance();
                        Some(Toggler { cond: cond.clone(), cond_span: token.span })
                    },
                    _ => None,
                }
            },
            None => None,
        }
    }

    /// Parses `@let`. The keyword stands at `start` and has been read.
    pub fn let_expr(&mut self, start: usize) -> (r: ParseResult<Markup>)
        requires
            old(self).wf(),
            start <= old(self).position(),
        ensures
            final(self).wf(),
            final(self).same_input(old(self)),
            parsed_markup(r, final(self).position()) == spec_let(
                old(self).tokens(),
                start as int,
                old(self).position(),
            ),
            r is Ok ==> old(self).position() < final(self).position(),
    {
        let n = self.input.len();
        let assign = self.find(self.pos, Stop::Assign);
        if assign >= n {
            proof {
                lemma_scan(self.tokens(), assign + 1, Stop::Semicolon);
            }
            return Err(self.error_at_end(ErrorKind::EndOfLet));
        }
        let semicolon = self.find(assign + 1, Stop::Semicolon);
        if semicolon >= n {
            return Err(self.error_at_end(ErrorKind::EndOfLet));
        }
        self.pos = semicolon + 1;
        Ok(Markup::Let { tokens: self.taken(start) })
    }

    /// Whether an arrow stands at `index`.
    pub fn arrow_here(&self, index: usize) -> (b: bool)
        ensures
            b == arrow_at(self.tokens(), index as int),
    {
        let n = self.input.trees.len();
        index < n && n - index > 1 && self.input.trees[index].is_joint_op('=')
            && self.input.trees[index + 1].is_op('>')
    }

    /// The first position from `from` on at which an arrow stands, or the
    /// number of tokens where there is none.
    pub fn find_arrow(&self, from: usize) -> (at: usize)
        ensures
            at == scan_arrow(self.tokens(), from as int),
            at <= self.tokens().len(),
            from <= self.tokens().len() ==> from <= at,
    {
        let n = self.input.trees.len();
        if from > n {
            return n;
        }
        let mut i = from;
        while i < n && !self.arrow_here(i)
            invariant
                from <= i <= n,
                n == self.tokens().len(),
                scan_arrow(self.tokens(), from as int) == scan_arrow(self.tokens(), i as int),
            decreases n - i,
        {
            i += 1;
        }
        i
    }

    /// Parses the contents of a group in braces.
    pub fn block(&self, body: &'a TokenStream, span: Span) -> (r: ParseResult<Block>)
        ensures
            read_block(r) == spec_block(body@, span, self.in_attr()),
        decreases body@, body@.len() + 1, 0int,
    {
        let mut inner = self.with_input(body);
        match inner.markups() {
            Ok(markups) => Ok(Block::new(markups, span)),
            Err(e) => Err(e),
        }
    }

    /// Parses markups up to the end of the tokens.
    pub fn markups(&mut self) -> (r: ParseResult<Vec<Markup>>)
        requires
            old(self).wf(),
        ensures
            final(self).wf(),
            final(self).same_input(old(self)),
            read_markups(r) == spec_markups(
                old(self).tokens(),
                old(self).position(),
                old(self).in_attr(),
            ),
        decreases old(self).tokens(), old(self).tokens().len() - old(self).position(), 1int,
    {
        let ghost s = self.tokens();
        let ghost f = self.in_attr();
        let ghost start = self.position();
        let mut result: Vec<Markup> = Vec::new();
        assert(markups_view(result@) + Seq::<MarkupView>::empty() =~= Seq::<MarkupView>::empty());
        loop
            invariant
                self.wf(),
                self.same_input(old(self)),
                s == old(self).tokens(),
                f == old(self).in_attr(),
                start == old(self).position(),
                start <= self.position(),
                spec_markups(s, start, f) == after_markups(
                    markups_view(result@),
                    spec_markups(s, self.position(), f),
                ),
            ensures
                self.wf(),
                self.same_input(old(self)),
                spec_markups(s, start, f) == Ok::<Seq<MarkupView>, Failure>(
                    markups_view(result@),
                ),
            decreases s.len() - self.position(),
        {
            let at = self.pos;
            match self.peek2() {
                None => {
                    assert(markups_view(result@) + Seq::<MarkupView>::empty() =~= markups_view(
                        result@,
                    ));
                    break ;
                },
                Some((first, second)) => {
                    let is_let = first.is_op('@') && match second {
                        Some(word) => word.is_word("let"),
                        None => false,
                    };
                    if first.is_op(';') {
                        self.advance();
                    } else {
                        let parsed = if is_let {
                            self.advance2();
                            self.let_expr(at + 1)
                        } else {
                            self.markup()
                        };
                        match parsed {
                            Err(e) => {
                                return Err(e);
                            },
                            Ok(markup) => {
                                proof {
                                    lemma_after_markups(
                                        markups_view(result@),
                                        markup@,
                                        spec_markups(s, self.position(), f),
                                    );
                                    assert(markups_view(result@.push(markup)) =~= markups_view(
                                        result@,
                                    ).push(markup@));
                                }
                                result.push(markup);
                            },
                        }
                    }
                },
            }
        }
        Ok(result)
    }

    /// Parses a single markup.
    pub fn markup(&mut self) -> (r: ParseResult<Markup>)
        requires
            old(self).wf(),
        ensures
            final(self).wf(),
            final(self).same_input(old(self)),
            parsed_markup(r, final(self).position()) == spec_markup(
                old(self).tokens(),
                old(self).position(),
                old(self).in_attr(),
            ),
            r is Ok ==> old(self).position() < final(self).position(),
        decreases old(self).tokens(), old(self).tokens().len() - old(self).position(), 0int,
    {
        let start = self.pos;
        let token = match self.peek() {
            Some(token) => token,
            None => {
                return Err(self.error_at_end(ErrorKind::EndOfInput));
            },
        };
        match &token.kind {
            TokenNode::Literal(_) => {
                self.advance();
                self.literal(token)
            },
            TokenNode::Op(c, _) => {
                if *c == '@' {
                    self.advance();
                    self.special()
                } else {
                    Err(self.error(ErrorKind::InvalidSyntax))
                }
            },
            TokenNode::Term(_) => {
                match self.pass_namespaced_name() {
                    Err(e) => Err(e),
                    Ok(()) => self.element(start),
                }
            },
            TokenNode::Group(delimiter, body) => {
                match delimiter {
                    Delimiter::Parenthesis => {
                        self.advance();
                        Ok(Markup::Splice { expr: body.clone() })
                    },
                    Delimiter::Brace => {
                        self.advance();
                        proof {
                            lemma_inner_decreases(self.tokens(), start as int);
                        }
                        match self.block(body, token.span) {
                            Ok(block) => Ok(Markup::Block(block)),
                            Err(e) => Err(e),
                        }
                    },
                    _ => Err(self.error(ErrorKind::InvalidSyntax)),
                }
            },
        }
    }

    /// Parses what follows `@`, which has been read.
    pub fn special(&mut self) -> (r: ParseResult<Markup>)
        requires
            old(self).wf(),
        ensures
            final(self).wf(),
            final(self).same_input(old(self)),
            parsed_markup(r, final(self).position()) == spec_special(
                old(self).tokens(),
                old(self).position(),
                old(self).in_attr(),
            ),
            r is Ok ==> old(self).position() < final(self).position(),
        decreases old(self).tokens(), old(self).tokens().len() - old(self).position(), 1int,
    {
        let start = self.pos;
        let keyword = match self.peek() {
            Some(token) => token,
            None => {
                return Err(self.error(ErrorKind::ExpectedKeyword));
            },
        };
        if !keyword.is_term() {
            Err(self.error(ErrorKind::ExpectedKeyword))
        } else if keyword.is_word("if") {
            self.advance();
            let mut segments: Vec<Special> = Vec::new();
            match self.if_expr(start, &mut segments) {
                Ok(()) => {
                    assert(specials_view(Seq::<Special>::empty()) + specials_view(segments@)
                        =~= specials_view(segments@));
                    Ok(Markup::new_if(segments))
                },
                Err(e) => Err(e),
            }
        } else if keyword.is_word("while") {
            self.advance();
            self.while_expr(start)
        } else if keyword.is_word("for") {
            self.advance();
            self.for_expr(start)
        } else if keyword.is_word("match") {
            self.advance();
            self.match_expr(start)
        } else if keyword.is_word("let") {
            Err(self.error(ErrorKind::LetOutsideBlock))
        } else {
            Err(self.error(ErrorKind::UnknownKeyword))
        }
    }

    /// Parses a head that began at `start`, up to the first group in
    /// braces, and that group as its body.
    pub fn head_body(&mut self, start: usize, missing: ErrorKind) -> (r: ParseResult<Special>)
        requires
            old(self).wf(),
            start <= old(self).position(),
        ensures
            final(self).wf(),
            final(self).same_input(old(self)),
            parsed_special(r, final(self).position()) == spec_head_body(
                old(self).tokens(),
                start as int,
                old(self).position(),
                missing,
                old(self).in_attr(),
            ),
            r is Ok ==> old(self).position() < final(self).position(),
        decreases old(self).tokens(), old(self).tokens().len() - old(self).position(), 0int,
    {
        let brace = self.find(self.pos, Stop::Brace);
        proof {
            lemma_scan(self.tokens(), self.position(), Stop::Brace);
        }
        let token = match self.at(brace) {
            Some(token) => token,
            None => {
                return Err(self.error_at_end(missing));
            },
        };
        match token.group_stream() {
            Some(body) => {
                let head = self.input.slice(start, brace);
                self.pos = brace + 1;
                proof {
                    lemma_inner_decreases(self.tokens(), brace as int);
                }
                match self.block(body, token.span) {
                    Ok(body) => Ok(Special { head, body }),
                    Err(e) => Err(e),
                }
            },
            None => {
                assert(false);
                Err(self.error_at_end(missing))
            },
        }
    }

    /// Parses an `@if` whose head began at `start`, and the branches that
    /// follow it, onto `segments`. The keyword has been read.
    pub fn if_expr(&mut self, start: usize, segments: &mut Vec<Special>) -> (r: ParseResult<()>)
        requires
            old(self).wf(),
            start <= old(self).position(),
        ensures
            final(self).wf(),
            final(self).same_input(old(self)),
            match spec_if(
                old(self).tokens(),
                start as int,
                old(self).position(),
                old(self).in_attr(),
            ) {
                Ok((branches, next)) => {
                    &&& r is Ok
                    &&& specials_view(final(segments)@) == specials_view(old(segments)@)
                        + branches
                    &&& final(self).position() == next
                    &&& old(self).position() < next
                },
                Err(e) => r matches Err(x) && x@ == e,
            },
        decreases old(self).tokens(), old(self).tokens().len() - old(self).position(), 1int,
    {
        match self.head_body(start, ErrorKind::EndOfIf) {
            Err(e) => Err(e),
            Ok(segment) => {
                let ghost before = specials_view(segments@);
                let ghost first = segment@;
                segments.push(segment);
                assert(specials_view(segments@) =~= before.push(first));
                let r = self.else_if_expr(segments);
                proof {
                    assert forall|rest: Seq<SpecialView>|
                        #[trigger] (before.push(first) + rest) == before + (seq![first] + rest) by {
                        assert(before.push(first) + rest =~= before + (seq![first] + rest));
                    }
                }
                r
            },
        }
    }

    /// Parses `@else if` or `@else` and what follows, if one stands here,
    /// onto `segments`.
    pub fn else_if_expr(&mut self, segments: &mut Vec<Special>) -> (r: ParseResult<()>)
        requires
            old(self).wf(),
        ensures
            final(self).wf(),
            final(self).same_input(old(self)),
            match spec_else(old(self).tokens(), old(self).position(), old(self).in_attr()) {
                Ok((branches, next)) => {
                    &&& r is Ok
                    &&& specials_view(final(segments)@) == specials_view(old(segments)@)
                        + branches
                    &&& final(self).position() == next
                    &&& old(self).position() <= next
                },
                Err(e) => r matches Err(x) && x@ == e,
            },
        decreases old(self).tokens(), old(self).tokens().len() - old(self).position(), 0int,
    {
        let at = self.pos;
        let is_else = match self.peek2() {
            Some((first, Some(second))) => first.is_op('@') && second.is_word("else"),
            _ => false,
        };
        if !is_else {
            assert(specials_view(segments@) + Seq::<SpecialView>::empty() =~= specials_view(
                segments@,
            ));
            return Ok(());
        }
        self.advance2();
        let token = match self.peek() {
            Some(token) => token,
            None => {
                return Err(self.error(ErrorKind::ExpectedElseBody));
            },
        };
        if token.is_word("if") {
            self.advance();
            self.if_expr(at + 1, segments)
        } else if token.is_group(Delimiter::Brace) {
            match token.group_stream() {
                Some(body) => {
                    let head = self.input.slice(at + 1, at + 2);
                    self.advance();
                    proof {
                        lemma_inner_decreases(self.tokens(), at + 2);
                    }
                    match self.block(body, token.span) {
                        Ok(body) => {
                            let ghost before = specials_view(segments@);
                            let segment = Special { head, body };
                            let ghost last = segment@;
                            segments.push(segment);
                            assert(specials_view(segments@) =~= before + seq![last]);
                            Ok(())
                        },
                        Err(e) => Err(e),
                    }
                },
                None => {
                    assert(false);
                    Err(self.error(ErrorKind::ExpectedElseBody))
                },
            }
        } else {
            Err(self.error(ErrorKind::ExpectedElseBody))
        }
    }

    /// Parses `@while`, whose head began at `start`. The keyword has been read.
    pub fn while_expr(&mut self, start: usize) -> (r: ParseResult<Markup>)
        requires
            old(self).wf(),
            start <= old(self).position(),
        ensures
            final(self).wf(),
            final(self).same_input(old(self)),
            parsed_markup(r, final(self).position()) == spec_while(
                old(self).tokens(),
                start as int,
                old(self).position(),
                old(self).in_attr(),
            ),
            r is Ok ==> old(self).position() < final(self).position(),
        decreases old(self).tokens(), old(self).tokens().len() - old(self).position(), 1int,
    {
        match self.head_body(start, ErrorKind::EndOfWhile) {
            Ok(special) => Ok(Markup::Special(special)),
            Err(e) => Err(e),
        }
    }

    /// Parses `@for`, whose head began at `start`. The keyword has been read.
    pub fn for_expr(&mut self, start: usize) -> (r: ParseResult<Markup>)
        requires
            old(self).wf(),
            start <= old(self).position(),
        ensures
            final(self).wf(),
            final(self).same_input(old(self)),
            parsed_markup(r, final(self).position()) == spec_for(
                old(self).tokens(),
                start as int,
                old(self).position(),
                old(self).in_attr(),
            ),
            r is Ok ==> old(self).position() < final(self).position(),
        decreases old(self).tokens(), old(self).tokens().len() - old(self).position(), 1int,
    {
        let word_in = self.find(self.pos, Stop::In);
        if word_in >= self.input.len() {
            return Err(self.error_at_end(ErrorKind::EndOfFor));
        }
        self.pos = word_in + 1;
        match self.head_body(start, ErrorKind::EndOfFor) {
            Ok(special) => Ok(Markup::Special(special)),
            Err(e) => Err(e),
        }
    }

    /// Parses `@match`, whose head began at `start`. The keyword has been read.
    pub fn match_expr(&mut self, start: usize) -> (r: ParseResult<Markup>)
        requires
            old(self).wf(),
            start <= old(self).position(),
        ensures
            final(self).wf(),
            final(self).same_input(old(self)),
            parsed_markup(r, final(self).position()) == spec_match(
                old(self).tokens(),
                start as int,
                old(self).position(),
                old(self).in_attr(),
            ),
            r is Ok ==> old(self).position() < final(self).position(),
        decreases old(self).tokens(), old(self).tokens().len() - old(self).position(), 1int,
    {
        let brace = self.find(self.pos, Stop::Brace);
        proof {
            lemma_scan(self.tokens(), self.position(), Stop::Brace);
        }
        let token = match self.at(brace) {
            Some(token) => token,
            None => {
                return Err(self.error_at_end(ErrorKind::EndOfMatch));
            },
        };
        match token.group_stream() {
            Some(body) => {
                let head = self.input.slice(start, brace);
                self.pos = brace + 1;
                proof {
                    lemma_inner_decreases(self.tokens(), brace as int);
                }
                let mut inner = self.with_input(body);
                match inner.match_arms() {
                    Ok(arms) => Ok(Markup::new_match(head, arms, token.span)),
                    Err(e) => Err(e),
                }
            },
            None => {
                assert(false);
                Err(self.error_at_end(ErrorKind::EndOfMatch))
            },
        }
    }

    /// Parses the arms of a match up to the end of the tokens.
    pub fn match_arms(&mut self) -> (r: ParseResult<Vec<Special>>)
        requires
            old(self).wf(),
        ensures
            final(self).wf(),
            final(self).same_input(old(self)),
            read_specials(r) == spec_match_arms(
                old(self).tokens(),
                old(self).position(),
                old(self).in_attr(),
            ),
        decreases old(self).tokens(), old(self).tokens().len() - old(self).position(), 2int,
    {
        let ghost s = self.tokens();
        let ghost f = self.in_attr();
        let ghost start = self.position();
        let mut arms: Vec<Special> = Vec::new();
        assert(specials_view(arms@) + Seq::<SpecialView>::empty() =~= Seq::<SpecialView>::empty());
        loop
            invariant
                self.wf(),
                self.same_input(old(self)),
                s == old(self).tokens(),
                f == old(self).in_attr(),
                start == old(self).position(),
                start <= self.position(),
                spec_match_arms(s, start, f) == after_specials(
                    specials_view(arms@),
                    spec_match_arms(s, self.position(), f),
                ),
            ensures
                self.wf(),
                self.same_input(old(self)),
                spec_match_arms(s, start, f) == Ok::<Seq<SpecialView>, Failure>(
                    specials_view(arms@),
                ),
            decreases s.len() - self.position(),
        {
            match self.match_arm() {
                Err(e) => {
                    return Err(e);
                },
                Ok(None) => {
                    assert(specials_view(arms@) + Seq::<SpecialView>::empty() =~= specials_view(
                        arms@,
                    ));
                    break ;
                },
                Ok(Some(arm)) => {
                    proof {
                        lemma_after_specials(
                            specials_view(arms@),
                            arm@,
                            spec_match_arms(s, self.position(), f),
                        );
                        assert(specials_view(arms@.push(arm)) =~= specials_view(arms@).push(
                            arm@,
                        ));
                    }
                    arms.push(arm);
                },
            }
        }
        Ok(arms)
    }

    /// Parses one arm of a match, unless the tokens have ended.
    pub fn match_arm(&mut self) -> (r: ParseResult<Option<Special>>)
        requires
            old(self).wf(),
        ensures
            final(self).wf(),
            final(self).same_input(old(self)),
            match r {
                Ok(None) => {
                    &&& old(self).position() == old(self).tokens().len()
                    &&& final(self).position() == old(self).position()
                },
                Ok(Some(arm)) => {
                    &&& old(self).position() < final(self).position()
                    &&& spec_match_arm(
                        old(self).tokens(),
                        old(self).position(),
                        old(self).in_attr(),
                    ) == Ok::<(SpecialView, int), Failure>((arm@, final(self).position()))
                },
                Err(e) => {
                    &&& old(self).position() < old(self).tokens().len()
                    &&& spec_match_arm(
                        old(self).tokens(),
                        old(self).position(),
                        old(self).in_attr(),
                    ) == Err::<(SpecialView, int), Failure>(e@)
                },
            },
        decreases old(self).tokens(), old(self).tokens().len() - old(self).position(), 1int,
    {
        let start = self.pos;
        if start >= self.input.len() {
            return Ok(None);
        }
        let arrow = self.find_arrow(start);
        proof {
            lemma_scan_arrow(self.tokens(), start as int);
        }
        if arrow >= self.input.len() {
            return Err(self.error_at_end(ErrorKind::EndOfMatchPattern));
        }
        self.pos = arrow + 2;
        match self.arm_body(start) {
            Ok(arm) => Ok(Some(arm)),
            Err(e) => Err(e),
        }
    }

    /// Parses the body of the arm whose pattern began at `start` and has
    /// been read.
    pub fn arm_body(&mut self, start: usize) -> (r: ParseResult<Special>)
        requires
            old(self).wf(),
            start <= old(self).position(),
        ensures
            final(self).wf(),
            final(self).same_input(old(self)),
            parsed_special(r, final(self).position()) == spec_arm_body(
                old(self).tokens(),
                start as int,
                old(self).position(),
                old(self).in_attr(),
            ),
            r is Ok ==> old(self).position() < final(self).position(),
        decreases old(self).tokens(), old(self).tokens().len() - old(self).position(), 0int,
    {
        let body_at = self.pos;
        let token = match self.peek() {
            Some(token) => token,
            None => {
                return Err(self.error_at_end(ErrorKind::EndOfMatchArm));
            },
        };
        if !token.is_group(Delimiter::Brace) {
            return self.arm_expr(start);
        }
        match token.group_stream() {
            Some(body) => {
                let head = self.taken(start);
                self.advance();
                proof {
                    lemma_inner_decreases(self.tokens(), body_at as int);
                }
                match self.block(body, token.span) {
                    Ok(body) => {
                        let comma = match self.peek() {
                            Some(next) => next.is_op(','),
                            None => false,
                        };
                        if comma {
                            self.advance();
                        }
                        Ok(Special { head, body })
                    },
                    Err(e) => Err(e),
                }
            },
            None => {
                assert(false);
                Err(self.error_at_end(ErrorKind::EndOfMatchArm))
            },
        }
    }

    /// Parses an expression as the body of the arm whose pattern began at
    /// `start` and has been read.
    pub fn arm_expr(&mut self, start: usize) -> (r: ParseResult<Special>)
        requires
            old(self).wf(),
            start <= old(self).position(),
        ensures
            final(self).wf(),
            final(self).same_input(old(self)),
            parsed_special(r, final(self).position()) == spec_arm_expr(
                old(self).tokens(),
                start as int,
                old(self).position(),
            ),
            r is Ok ==> old(self).position() < final(self).position(),
    {
        let body_at = self.pos;
        if body_at >= self.input.len() {
            return Err(self.error_at_end(ErrorKind::EndOfMatchArm));
        }
        let comma = self.find(body_at + 1, Stop::Comma);
        if comma >= self.input.len() {
            return Err(self.error_at_end(ErrorKind::EndOfMatchArm));
        }
        let head = self.taken(start);
        let expr = self.input.slice(body_at, comma);
        let span = self.input.trees[body_at].span.join(self.input.trees[comma - 1].span);
        self.pos = comma + 1;
        let mut markups: Vec<Markup> = Vec::new();
        markups.push(Markup::Splice { expr });
        assert(markups_view(markups@) =~= seq![MarkupView::Splice { expr: expr@ }]);
        Ok(Special { head, body: Block::new(markups, span) })
    }

    /// Parses an element whose name began at `start` and has been read.
    pub fn element(&mut self, start: usize) -> (r: ParseResult<Markup>)
        requires
            old(self).wf(),
            start <= old(self).position(),
        ensures
            final(self).wf(),
            final(self).same_input(old(self)),
            parsed_markup(r, final(self).position()) == spec_element(
                old(self).tokens(),
                start as int,
                old(self).position(),
                old(self).in_attr(),
            ),
            r is Ok ==> old(self).position() < final(self).position(),
        decreases old(self).tokens(), old(self).tokens().len() - old(self).position(), 2int,
    {
        if self.in_attr {
            return Err(ParseError::new(ErrorKind::ElementInAttribute, self.at(start)));
        }
        let name = self.taken(start);
        let attrs = match self.attrs() {
            Ok(attrs) => attrs,
            Err(e) => {
                return Err(e);
            },
        };
        let void = match self.peek() {
            Some(token) => token.is_op(';') || token.is_op('/'),
            None => false,
        };
        if void {
            self.advance();
            Ok(Markup::Element { name, attrs, body: None })
        } else {
            match self.markup() {
                Ok(body) => Ok(Markup::Element { name, attrs, body: Some(Box::new(body)) }),
                Err(e) => Err(e),
            }
        }
    }

    /// Parses the attributes of an element.
    pub fn attrs(&mut self) -> (r: ParseResult<Attrs>)
        requires
            old(self).wf(),
        ensures
            final(self).wf(),
            final(self).same_input(old(self)),
            parsed_attrs(r, final(self).position()) == spec_attrs(
                old(self).tokens(),
                old(self).position(),
            ),
            r is Ok ==> old(self).position() <= final(self).position(),
        decreases old(self).tokens(), old(self).tokens().len() - old(self).position(), 1int,
    {
        let ghost s = self.tokens();
        let ghost start = self.position();
        let mut attrs = Attrs::new();
        proof {
            lemma_after_attrs(AttrsView::empty(), AttrsView::empty(), spec_attrs(s, start));
            lemma_attrs_start(spec_attrs(s, start));
        }
        loop
            invariant
                self.wf(),
                self.same_input(old(self)),
                s == old(self).tokens(),
                start == old(self).position(),
                start <= self.position(),
                spec_attrs(s, start) == after_attrs(attrs@, spec_attrs(s, self.position())),
            ensures
                self.wf(),
                self.same_input(old(self)),
                start <= self.position(),
                spec_attrs(s, start) == Ok::<(AttrsView, int), Failure>(
                    (attrs@, self.position()),
                ),
            decreases s.len() - self.position(),
        {
            let ghost at = self.position();
            let ghost done = attrs@;
            let token = match self.peek() {
                Some(token) => token,
                None => {
                    proof {
                        lemma_attrs_end(done, at);
                    }
                    break ;
                },
            };
            if token.is_op('.') {
                self.advance();
                let name = match self.name() {
                    Ok(name) => name,
                    Err(e) => {
                        return Err(e);
                    },
                };
                let ghost first;
                match self.attr_toggler() {
                    Some(toggler) => {
                        proof {
                            first = AttrsView::toggled_class(name@, toggler@);
                        }
                        attrs.push_toggled_class(name, toggler);
                    },
                    None => {
                        proof {
                            first = AttrsView::class(name@);
                        }
                        attrs.push_class(name);
                    },
                }
                proof {
                    lemma_after_attrs(done, first, spec_attrs(s, self.position()));
                }
            } else if token.is_op('#') {
                self.advance();
                let name = match self.name() {
                    Ok(name) => name,
                    Err(e) => {
                        return Err(e);
                    },
                };
                proof {
                    lemma_after_attrs(done, AttrsView::id(name@), spec_attrs(s, self.position()));
                }
                attrs.push_id(name);
            } else {
                let mut attempt = *self;
                let name = match attempt.namespaced_name() {
                    Ok(name) => name,
                    Err(_) => {
                        proof {
                            lemma_attrs_end(done, at);
                        }
                        break ;
                    },
                };
                let after = attempt.peek();
                let assigns = match after {
                    Some(token) => token.is_op('='),
                    None => false,
                };
                let asks = match after {
                    Some(token) => token.is_op('?'),
                    None => false,
                };
                if assigns {
                    self.commit(attempt);
                    self.advance();
                    let in_attr = self.in_attr;
                    self.in_attr = true;
                    let parsed = self.markup();
                    self.in_attr = in_attr;
                    let value = match parsed {
                        Ok(value) => value,
                        Err(e) => {
                            return Err(e);
                        },
                    };
                    let attribute = Attribute { name, attr_type: AttrType::Normal { value } };
                    proof {
                        lemma_after_attrs(
                            done,
                            AttrsView::attribute(attribute@),
                            spec_attrs(s, self.position()),
                        );
                    }
                    attrs.push_attribute(attribute);
                } else if asks {
                    self.commit(attempt);
                    self.advance();
                    let toggler = self.attr_toggler();
                    let attribute = Attribute { name, attr_type: AttrType::Empty { toggler } };
                    proof {
                        lemma_after_attrs(
                            done,
                            AttrsView::attribute(attribute@),
                            spec_attrs(s, self.position()),
                        );
                    }
                    attrs.push_attribute(attribute);
                } else {
                    proof {
                        lemma_attrs_end(done, at);
                    }
                    break ;
                }
            }
        }
        Ok(attrs)
    }
}

/// Parses a whole token sequence into its markups.
pub fn parse(input: TokenStream) -> (r: ParseResult<Vec<Markup>>)
    ensures
        read_markups(r) == spec_parse(input@),
{
    let mut parser = Parser::new(&input);
    parser.markups()
}

} // verus!
