//! The grammar, as functions from a token sequence and a position to what is
//! parsed there. The parser is proved to compute exactly these.
//!
//! A rule that succeeds gives a value and the position behind what it read.
//! Every rule moves forward (proved in `laws`, for each rule with what else
//! holds of it), so the checks of the form `pos < next <= s.len()` always
//! hold; they are what lets the definitions recurse.

use crate::ast::{
    AttrTypeView, AttributeView, AttrsView, BlockView, MarkupView, SpecialView, TogglerView,
};
use crate::error::{failure_at, ErrorKind, Failure};
use crate::literal::{is_string_literal, string_literal_value};
use crate::token::{Delimiter, Span, Tokens, TreeView};
use vstd::prelude::*;

verus! {

/// A value and the position behind it, or a failure.
pub type Parsed<T> = Result<(T, int), Failure>;

/// The tokens at which a scan for the end of an opaque run stops.
#[derive(Clone, Copy, Debug, PartialEq, Eq, Structural)]
pub enum Stop {
    /// A group in braces.
    Brace,
    /// The identifier `in`.
    In,
    /// The operator `=`.
    Assign,
    /// The operator `;`.
    Semicolon,
    /// The operator `,`.
    Comma,
}

/// Whether `tree` stops a scan for `stop`.
pub open spec fn stops(tree: TreeView, stop: Stop) -> bool {
    match stop {
        Stop::Brace => tree.is_group(Delimiter::Brace),
        Stop::In => tree.is_word("in"@),
        Stop::Assign => tree.is_op('='),
        Stop::Semicolon => tree.is_op(';'),
        Stop::Comma => tree.is_op(','),
    }
}

/// The first position from `pos` on whose token stops the scan, or the
/// length of `s` where there is none.
pub open spec fn scan(s: Tokens, pos: int, stop: Stop) -> int
    decreases s.len() - pos,
{
    if pos < 0 || pos >= s.len() {
        s.len() as int
    } else if stops(s[pos], stop) {
        pos
    } else {
        scan(s, pos + 1, stop)
    }
}

/// What `scan` finds: a stopping token with none before it, or the end.
pub proof fn lemma_scan(s: Tokens, pos: int, stop: Stop)
    ensures
        scan(s, pos, stop) <= s.len(),
        0 <= pos <= s.len() ==> pos <= scan(s, pos, stop),
        scan(s, pos, stop) < s.len() ==> 0 <= pos <= scan(s, pos, stop) && stops(
            s[scan(s, pos, stop)],
            stop,
        ),
        forall|k: int| 0 <= pos <= k < scan(s, pos, stop) ==> !stops(#[trigger] s[k], stop),
    decreases s.len() - pos,
{
    if 0 <= pos < s.len() && !stops(s[pos], stop) {
        lemma_scan(s, pos + 1, stop);
    }
}

/// Whether an arrow stands at `pos`: `=`, joined to what follows, and `>`.
pub open spec fn arrow_at(s: Tokens, pos: int) -> bool {
    0 <= pos && pos + 1 < s.len() && s[pos].is_joint_op('=') && s[pos + 1].is_op('>')
}

/// The first position from `pos` on at which an arrow stands, or the length
/// of `s` where there is none.
pub open spec fn scan_arrow(s: Tokens, pos: int) -> int
    decreases s.len() - pos,
{
    if pos < 0 || pos >= s.len() {
        s.len() as int
    } else if arrow_at(s, pos) {
        pos
    } else {
        scan_arrow(s, pos + 1)
    }
}

/// What `scan_arrow` finds: an arrow with none before it, or the end.
pub proof fn lemma_scan_arrow(s: Tokens, pos: int)
    ensures
        scan_arrow(s, pos) <= s.len(),
        0 <= pos <= s.len() ==> pos <= scan_arrow(s, pos),
        scan_arrow(s, pos) < s.len() ==> 0 <= pos <= scan_arrow(s, pos) && arrow_at(
            s,
            scan_arrow(s, pos),
        ),
        forall|k: int| 0 <= pos <= k < scan_arrow(s, pos) ==> !#[trigger] arrow_at(s, k),
    decreases s.len() - pos,
{
    if 0 <= pos < s.len() && !arrow_at(s, pos) {
        lemma_scan_arrow(s, pos + 1);
    }
}

/// Where a name ends that has been read up to `pos`. A hyphen always
/// continues it; an identifier only directly after a hyphen.
pub open spec fn name_end(s: Tokens, pos: int, after_hyphen: bool) -> int
    decreases s.len() - pos,
{
    if pos < 0 || pos >= s.len() {
        pos
    } else if s[pos].is_op('-') {
        name_end(s, pos + 1, true)
    } else if after_hyphen && s[pos].is_term() {
        name_end(s, pos + 1, false)
    } else {
        pos
    }
}

/// A name ends behind where it was read up to, and within the tokens.
pub proof fn lemma_name_end(s: Tokens, pos: int, after_hyphen: bool)
    requires
        0 <= pos <= s.len(),
    ensures
        pos <= name_end(s, pos, after_hyphen) <= s.len(),
    decreases s.len() - pos,
{
    if pos < s.len() {
        if s[pos].is_op('-') {
            lemma_name_end(s, pos + 1, true);
        } else if after_hyphen && s[pos].is_term() {
            lemma_name_end(s, pos + 1, false);
        }
    }
}

/// A plain name: an identifier and what continues it.
pub open spec fn spec_name(s: Tokens, pos: int) -> Parsed<Tokens> {
    if 0 <= pos < s.len() && s[pos].is_term() {
        let end = name_end(s, pos + 1, false);
        Ok((s.subrange(pos, end), end))
    } else {
        Err(failure_at(ErrorKind::ExpectedIdentifier, s, pos))
    }
}

/// A name, or a name, a colon and a second name.
pub open spec fn spec_namespaced_name(s: Tokens, pos: int) -> Parsed<Tokens> {
    match spec_name(s, pos) {
        Err(e) => Err(e),
        Ok((name, end)) => if 0 <= end < s.len() && s[end].is_op(':') {
            match spec_name(s, end + 1) {
                Err(e) => Err(e),
                Ok((_, full_end)) => Ok((s.subrange(pos, full_end), full_end)),
            }
        } else {
            Ok((name, end))
        },
    }
}

/// A name that is read is a run of one token or more, from where it began.
pub proof fn lemma_names(s: Tokens, pos: int)
    ensures
        spec_name(s, pos) matches Ok((name, end)) ==> 0 <= pos < end <= s.len() && name
            == s.subrange(pos, end),
        spec_namespaced_name(s, pos) matches Ok((name, end)) ==> 0 <= pos < end <= s.len()
            && name == s.subrange(pos, end),
{
    if let Ok((_, end)) = spec_name(s, pos) {
        lemma_name_end(s, pos + 1, false);
        if end < s.len() && s[end].is_op(':') {
            if spec_name(s, end + 1) is Ok {
                lemma_name_end(s, end + 2, false);
            }
        }
    }
}

/// The condition in brackets at `pos`, if one stands there.
pub open spec fn spec_toggler(s: Tokens, pos: int) -> (Option<TogglerView>, int) {
    if 0 <= pos < s.len() && s[pos].is_group(Delimiter::Bracket) {
        (Some(TogglerView { cond: s[pos].inner(), cond_span: s[pos].span }), pos + 1)
    } else {
        (None, pos)
    }
}

/// `@let`, with the keyword `let` at `start` and the binding from `from`
/// on: everything up to the first `;` behind the first `=`.
pub open spec fn spec_let(s: Tokens, start: int, from: int) -> Parsed<MarkupView> {
    let assign = scan(s, from, Stop::Assign);
    let semicolon = scan(s, assign + 1, Stop::Semicolon);
    if assign < s.len() && semicolon < s.len() {
        Ok((MarkupView::Let { tokens: s.subrange(start, semicolon + 1) }, semicolon + 1))
    } else {
        Err(failure_at(ErrorKind::EndOfLet, s, s.len() as int))
    }
}

/// A token as literal markup: its string value, if it is a string literal.
pub open spec fn spec_literal(tree: TreeView) -> Result<MarkupView, Failure> {
    if tree.is_literal() && is_string_literal(tree.text()) {
        Ok(MarkupView::Literal { content: string_literal_value(tree.text()), span: tree.span })
    } else {
        Err(Failure { kind: ErrorKind::ExpectedString, found: Some(tree) })
    }
}

/// The failure that stands where a rule would not have moved forward.
pub open spec fn stuck(s: Tokens, pos: int) -> Failure {
    failure_at(ErrorKind::InvalidSyntax, s, pos)
}

/// The tokens inside a token of `s` lie below `s`.
pub proof fn lemma_inner_decreases(s: Tokens, i: int)
    requires
        0 <= i < s.len(),
    ensures
        s[i].kind is Group ==> decreases_to!(s => s[i].inner()),
{
}

/// The contents of a group in braces as a block.
pub open spec fn spec_block(inner: Tokens, span: Span, in_attr: bool) -> Result<BlockView, Failure>
    decreases inner, inner.len() + 1, 0int,
{
    match spec_markups(inner, 0, in_attr) {
        Ok(markups) => Ok(BlockView { markups, span }),
        Err(e) => Err(e),
    }
}

/// The markups from `pos` to the end of `s`. A `;` between them is passed
/// over, and `@let` is read here and nowhere else.
pub open spec fn spec_markups(s: Tokens, pos: int, in_attr: bool) -> Result<
    Seq<MarkupView>,
    Failure,
>
    decreases s, s.len() - pos, 1int,
{
    if pos < 0 || pos >= s.len() {
        Ok(Seq::empty())
    } else if s[pos].is_op(';') {
        spec_markups(s, pos + 1, in_attr)
    } else {
        let first = if s[pos].is_op('@') && pos + 1 < s.len() && s[pos + 1].is_word("let"@) {
            spec_let(s, pos + 1, pos + 2)
        } else {
            spec_markup(s, pos, in_attr)
        };
        match first {
            Err(e) => Err(e),
            Ok((markup, next)) => if pos < next <= s.len() {
                match spec_markups(s, next, in_attr) {
                    Ok(rest) => Ok(seq![markup] + rest),
                    Err(e) => Err(e),
                }
            } else {
                Err(stuck(s, pos))
            },
        }
    }
}

/// One markup at `pos`, chosen by the token that stands there.
pub open spec fn spec_markup(s: Tokens, pos: int, in_attr: bool) -> Parsed<MarkupView>
    decreases s, s.len() - pos, 0int,
{
    if pos < 0 || pos >= s.len() {
        Err(failure_at(ErrorKind::EndOfInput, s, s.len() as int))
    } else if s[pos].is_literal() {
        match spec_literal(s[pos]) {
            Ok(markup) => Ok((markup, pos + 1)),
            Err(e) => Err(e),
        }
    } else if s[pos].is_op('@') {
        spec_special(s, pos + 1, in_attr)
    } else if s[pos].is_term() {
        match spec_namespaced_name(s, pos) {
            Err(e) => Err(e),
            Ok((_, end)) => if pos < end <= s.len() {
                spec_element(s, pos, end, in_attr)
            } else {
                Err(stuck(s, pos))
            },
        }
    } else if s[pos].is_group(Delimiter::Parenthesis) {
        Ok((MarkupView::Splice { expr: s[pos].inner() }, pos + 1))
    } else if s[pos].is_group(Delimiter::Brace) {
        match spec_block(s[pos].inner(), s[pos].span, in_attr) {
            Ok(block) => Ok((MarkupView::Block(block), pos + 1)),
            Err(e) => Err(e),
        }
    } else {
        Err(failure_at(ErrorKind::InvalidSyntax, s, pos))
    }
}

/// What follows `@`, with `keyword` the position behind the `@`.
pub open spec fn spec_special(s: Tokens, keyword: int, in_attr: bool) -> Parsed<MarkupView>
    decreases s, s.len() - keyword, 1int,
{
    if keyword < 0 || keyword >= s.len() || !s[keyword].is_term() {
        Err(failure_at(ErrorKind::ExpectedKeyword, s, keyword))
    } else if s[keyword].is_word("if"@) {
        match spec_if(s, keyword, keyword + 1, in_attr) {
            Ok((segments, next)) => Ok((MarkupView::If { segments }, next)),
            Err(e) => Err(e),
        }
    } else if s[keyword].is_word("while"@) {
        spec_while(s, keyword, keyword + 1, in_attr)
    } else if s[keyword].is_word("for"@) {
        spec_for(s, keyword, keyword + 1, in_attr)
    } else if s[keyword].is_word("match"@) {
        spec_match(s, keyword, keyword + 1, in_attr)
    } else if s[keyword].is_word("let"@) {
        Err(failure_at(ErrorKind::LetOutsideBlock, s, keyword))
    } else {
        Err(failure_at(ErrorKind::UnknownKeyword, s, keyword))
    }
}

/// `@while`, with its head from `start` on and the condition from `from` on.
pub open spec fn spec_while(s: Tokens, start: int, from: int, in_attr: bool) -> Parsed<MarkupView>
    decreases s, s.len() - from, 1int,
{
    match spec_head_body(s, start, from, ErrorKind::EndOfWhile, in_attr) {
        Ok((special, next)) => Ok((MarkupView::Special(special), next)),
        Err(e) => Err(e),
    }
}

/// `@for`, with its head from `start` on and the pattern from `from` on: the
/// body is the first group in braces behind the first `in`.
pub open spec fn spec_for(s: Tokens, start: int, from: int, in_attr: bool) -> Parsed<MarkupView>
    decreases s, s.len() - from, 1int,
{
    let word_in = scan(s, from, Stop::In);
    if word_in < s.len() {
        proof {
            lemma_scan(s, from, Stop::In);
        }
        match spec_head_body(s, start, word_in + 1, ErrorKind::EndOfFor, in_attr) {
            Ok((special, next)) => Ok((MarkupView::Special(special), next)),
            Err(e) => Err(e),
        }
    } else {
        Err(failure_at(ErrorKind::EndOfFor, s, s.len() as int))
    }
}

/// `@match`, with its head from `start` on and the scrutinee from `from`
/// on: the first group in braces holds the arms.
pub open spec fn spec_match(s: Tokens, start: int, from: int, in_attr: bool) -> Parsed<MarkupView>
    decreases s, s.len() - from, 1int,
{
    let brace = scan(s, from, Stop::Brace);
    if brace < s.len() {
        proof {
            lemma_scan(s, from, Stop::Brace);
            lemma_inner_decreases(s, brace);
        }
        match spec_match_arms(s[brace].inner(), 0, in_attr) {
            Ok(arms) => Ok(
                (
                    MarkupView::Match {
                        head: s.subrange(start, brace),
                        arms,
                        arms_span: s[brace].span,
                    },
                    brace + 1,
                ),
            ),
            Err(e) => Err(e),
        }
    } else {
        Err(failure_at(ErrorKind::EndOfMatch, s, s.len() as int))
    }
}

/// A head from `start` on and its body: the head runs to the first group in
/// braces from `from` on, and that group is the body. Without such a group
/// the failure is of kind `missing`.
pub open spec fn spec_head_body(
    s: Tokens,
    start: int,
    from: int,
    missing: ErrorKind,
    in_attr: bool,
) -> Parsed<SpecialView>
    decreases s, s.len() - from, 0int,
{
    let brace = scan(s, from, Stop::Brace);
    if brace < s.len() {
        proof {
            lemma_scan(s, from, Stop::Brace);
            lemma_inner_decreases(s, brace);
        }
        match spec_block(s[brace].inner(), s[brace].span, in_attr) {
            Ok(body) => Ok((SpecialView { head: s.subrange(start, brace), body }, brace + 1)),
            Err(e) => Err(e),
        }
    } else {
        Err(failure_at(missing, s, s.len() as int))
    }
}

/// The branches of an `@if` from the head that begins at `start` on; the
/// head's condition begins at `from`.
pub open spec fn spec_if(s: Tokens, start: int, from: int, in_attr: bool) -> Parsed<
    Seq<SpecialView>,
>
    decreases s, s.len() - from, 1int,
{
    match spec_head_body(s, start, from, ErrorKind::EndOfIf, in_attr) {
        Err(e) => Err(e),
        Ok((segment, next)) => if from < next <= s.len() {
            match spec_else(s, next, in_attr) {
                Ok((rest, end)) => Ok((seq![segment] + rest, end)),
                Err(e) => Err(e),
            }
        } else {
            Err(stuck(s, from))
        },
    }
}

/// The branches that follow a branch of an `@if`: none unless `@else`
/// stands at `pos`; then either `if` and further branches, or the last body.
pub open spec fn spec_else(s: Tokens, pos: int, in_attr: bool) -> Parsed<Seq<SpecialView>>
    decreases s, s.len() - pos, 0int,
{
    if 0 <= pos && pos + 1 < s.len() && s[pos].is_op('@') && s[pos + 1].is_word("else"@) {
        if pos + 2 < s.len() && s[pos + 2].is_word("if"@) {
            spec_if(s, pos + 1, pos + 3, in_attr)
        } else if pos + 2 < s.len() && s[pos + 2].is_group(Delimiter::Brace) {
            match spec_block(s[pos + 2].inner(), s[pos + 2].span, in_attr) {
                Ok(body) => Ok(
                    (seq![SpecialView { head: s.subrange(pos + 1, pos + 2), body }], pos + 3),
                ),
                Err(e) => Err(e),
            }
        } else {
            Err(failure_at(ErrorKind::ExpectedElseBody, s, pos + 2))
        }
    } else {
        Ok((Seq::empty(), pos))
    }
}

/// The arms of an `@match` from `pos` to the end of `s`.
pub open spec fn spec_match_arms(s: Tokens, pos: int, in_attr: bool) -> Result<
    Seq<SpecialView>,
    Failure,
>
    decreases s, s.len() - pos, 2int,
{
    if pos < 0 || pos >= s.len() {
        Ok(Seq::empty())
    } else {
        match spec_match_arm(s, pos, in_attr) {
            Err(e) => Err(e),
            Ok((arm, next)) => if pos < next <= s.len() {
                match spec_match_arms(s, next, in_attr) {
                    Ok(rest) => Ok(seq![arm] + rest),
                    Err(e) => Err(e),
                }
            } else {
                Err(stuck(s, pos))
            },
        }
    }
}

/// One arm at `pos`: the pattern up to and including the first arrow, then
/// the body.
pub open spec fn spec_match_arm(s: Tokens, pos: int, in_attr: bool) -> Parsed<SpecialView>
    decreases s, s.len() - pos, 1int,
{
    let arrow = scan_arrow(s, pos);
    if arrow < s.len() {
        proof {
            lemma_scan_arrow(s, pos);
        }
        spec_arm_body(s, pos, arrow + 2, in_attr)
    } else {
        Err(failure_at(ErrorKind::EndOfMatchPattern, s, s.len() as int))
    }
}

/// The body at `body` of the arm whose pattern began at `start`: either a
/// block, with a comma behind it if one stands there, or an expression.
pub open spec fn spec_arm_body(s: Tokens, start: int, body: int, in_attr: bool) -> Parsed<
    SpecialView,
>
    decreases s, s.len() - body, 0int,
{
    if body < 0 || body >= s.len() {
        Err(failure_at(ErrorKind::EndOfMatchArm, s, s.len() as int))
    } else if s[body].is_group(Delimiter::Brace) {
        match spec_block(s[body].inner(), s[body].span, in_attr) {
            Ok(block) => Ok(
                (
                    SpecialView { head: s.subrange(start, body), body: block },
                    if body + 1 < s.len() && s[body + 1].is_op(',') {
                        body + 2
                    } else {
                        body + 1
                    },
                ),
            ),
            Err(e) => Err(e),
        }
    } else {
        spec_arm_expr(s, start, body)
    }
}

/// The expression at `body` as the body of the arm whose pattern began at
/// `start`: it runs up to the next comma and becomes a block of one splice,
/// whose span joins those of its first and last token. The first token
/// belongs to the expression whatever it is.
pub open spec fn spec_arm_expr(s: Tokens, start: int, body: int) -> Parsed<SpecialView> {
    let comma = scan(s, body + 1, Stop::Comma);
    if comma < s.len() {
        Ok(
            (
                SpecialView {
                    head: s.subrange(start, body),
                    body: BlockView {
                        markups: seq![MarkupView::Splice { expr: s.subrange(body, comma) }],
                        span: s[body].span.spec_join(s[comma - 1].span),
                    },
                },
                comma + 1,
            ),
        )
    } else {
        Err(failure_at(ErrorKind::EndOfMatchArm, s, s.len() as int))
    }
}

/// An element whose name stands from `start` up to `pos`: its attributes,
/// then `;` or `/` for a void element, or one markup as its body.
pub open spec fn spec_element(s: Tokens, start: int, pos: int, in_attr: bool) -> Parsed<
    MarkupView,
>
    decreases s, s.len() - pos, 2int,
{
    if in_attr {
        Err(failure_at(ErrorKind::ElementInAttribute, s, start))
    } else {
        match spec_attrs(s, pos) {
            Err(e) => Err(e),
            Ok((attrs, next)) => if !(0 <= pos <= next <= s.len()) {
                Err(stuck(s, pos))
            } else if next < s.len() && (s[next].is_op(';') || s[next].is_op('/')) {
                Ok((MarkupView::Element { name: s.subrange(start, pos), attrs, body: None }, next + 1))
            } else {
                match spec_markup(s, next, false) {
                    Ok((body, end)) => Ok(
                        (
                            MarkupView::Element {
                                name: s.subrange(start, pos),
                                attrs,
                                body: Some(Box::new(body)),
                            },
                            end,
                        ),
                    ),
                    Err(e) => Err(e),
                }
            },
        }
    }
}

/// The attributes from `pos` on, as long as one begins where the last
/// ended: `.` and a class name with its condition if one follows, `#` and
/// an id, a name and `=` and a value, or a name and `?` with its condition
/// if one follows. Anything else ends them, and nothing of it is read.
pub open spec fn spec_attrs(s: Tokens, pos: int) -> Parsed<AttrsView>
    decreases s, s.len() - pos, 1int,
{
    if pos < 0 || pos >= s.len() {
        Ok((AttrsView::empty(), pos))
    } else if s[pos].is_op('.') {
        match spec_name(s, pos + 1) {
            Err(e) => Err(e),
            Ok((name, end)) => {
                let (toggler, after) = spec_toggler(s, end);
                let class = match toggler {
                    Some(t) => AttrsView::toggled_class(name, t),
                    None => AttrsView::class(name),
                };
                spec_more_attrs(s, pos, class, after)
            },
        }
    } else if s[pos].is_op('#') {
        match spec_name(s, pos + 1) {
            Err(e) => Err(e),
            Ok((name, end)) => spec_more_attrs(s, pos, AttrsView::id(name), end),
        }
    } else {
        match spec_namespaced_name(s, pos) {
            Err(_) => Ok((AttrsView::empty(), pos)),
            Ok((name, end)) => if pos < end < s.len() && s[end].is_op('=') {
                match spec_markup(s, end + 1, true) {
                    Err(e) => Err(e),
                    Ok((value, after)) => spec_more_attrs(
                        s,
                        pos,
                        AttrsView::attribute(
                            AttributeView { name, attr_type: AttrTypeView::Normal { value } },
                        ),
                        after,
                    ),
                }
            } else if pos < end < s.len() && s[end].is_op('?') {
                let (toggler, after) = spec_toggler(s, end + 1);
                spec_more_attrs(
                    s,
                    pos,
                    AttrsView::attribute(
                        AttributeView { name, attr_type: AttrTypeView::Empty { toggler } },
                    ),
                    after,
                )
            } else {
                Ok((AttrsView::empty(), pos))
            },
        }
    }
}

/// The attribute `first`, read from `pos` up to `after`, and those that
/// follow it.
pub open spec fn spec_more_attrs(s: Tokens, pos: int, first: AttrsView, after: int) -> Parsed<
    AttrsView,
>
    decreases s, s.len() - pos, 0int,
{
    if pos < after <= s.len() {
        match spec_attrs(s, after) {
            Err(e) => Err(e),
            Ok((rest, next)) => Ok((first.concat(rest), next)),
        }
    } else {
        Err(stuck(s, pos))
    }
}

/// The markups `done`, followed by what `rest` gives.
pub open spec fn after_markups(done: Seq<MarkupView>, rest: Result<Seq<MarkupView>, Failure>) -> Result<
    Seq<MarkupView>,
    Failure,
> {
    match rest {
        Ok(more) => Ok(done + more),
        Err(e) => Err(e),
    }
}

/// The branches or arms `done`, followed by what `rest` gives.
pub open spec fn after_specials(
    done: Seq<SpecialView>,
    rest: Result<Seq<SpecialView>, Failure>,
) -> Result<Seq<SpecialView>, Failure> {
    match rest {
        Ok(more) => Ok(done + more),
        Err(e) => Err(e),
    }
}

/// The attributes `done`, followed by what `rest` gives.
pub open spec fn after_attrs(done: AttrsView, rest: Parsed<AttrsView>) -> Parsed<AttrsView> {
    match rest {
        Ok((more, next)) => Ok((done.concat(more), next)),
        Err(e) => Err(e),
    }
}

/// Markups read one by one are the markups read together.
pub proof fn lemma_after_markups(
    done: Seq<MarkupView>,
    markup: MarkupView,
    rest: Result<Seq<MarkupView>, Failure>,
)
    ensures
        after_markups(done, after_markups(seq![markup], rest)) == after_markups(
            done.push(markup),
            rest,
        ),
{
    if let Ok(more) = rest {
        assert(done + (seq![markup] + more) =~= done.push(markup) + more);
    }
}

/// Branches or arms read one by one are those read together.
pub proof fn lemma_after_specials(
    done: Seq<SpecialView>,
    special: SpecialView,
    rest: Result<Seq<SpecialView>, Failure>,
)
    ensures
        after_specials(done, after_specials(seq![special], rest)) == after_specials(
            done.push(special),
            rest,
        ),
{
    if let Ok(more) = rest {
        assert(done + (seq![special] + more) =~= done.push(special) + more);
    }
}

/// Attributes read one by one are the attributes read together.
pub proof fn lemma_after_attrs(done: AttrsView, first: AttrsView, rest: Parsed<AttrsView>)
    ensures
        after_attrs(done, after_attrs(first, rest)) == after_attrs(done.concat(first), rest),
{
    if let Ok((more, next)) = rest {
        let a = done.concat(first.concat(more));
        let b = done.concat(first).concat(more);
        assert(a.classes_static =~= b.classes_static);
        assert(a.classes_toggled =~= b.classes_toggled);
        assert(a.ids =~= b.ids);
        assert(a.attrs =~= b.attrs);
    }
}

/// Nothing read yet stands before everything.
pub proof fn lemma_attrs_start(all: Parsed<AttrsView>)
    ensures
        after_attrs(AttrsView::empty(), all) == all,
{
    if let Ok((more, next)) = all {
        let c = AttrsView::empty().concat(more);
        assert(c.classes_static =~= more.classes_static);
        assert(c.classes_toggled =~= more.classes_toggled);
        assert(c.ids =~= more.ids);
        assert(c.attrs =~= more.attrs);
    }
}

/// Nothing more leaves what was read.
pub proof fn lemma_attrs_end(done: AttrsView, pos: int)
    ensures
        after_attrs(done, Ok((AttrsView::empty(), pos))) == Ok::<(AttrsView, int), Failure>(
            (done, pos),
        ),
{
    let c = done.concat(AttrsView::empty());
    assert(c.classes_static =~= done.classes_static);
    assert(c.classes_toggled =~= done.classes_toggled);
    assert(c.ids =~= done.ids);
    assert(c.attrs =~= done.attrs);
}

/// What parsing a whole token sequence gives.
pub open spec fn spec_parse(s: Tokens) -> Result<Seq<MarkupView>, Failure> {
    spec_markups(s, 0, false)
}

} // verus!
