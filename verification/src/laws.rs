//! What holds of every parse, proved from the grammar.

use crate::ast::{
    is_if_chain, AttrTypeView, AttributeView, AttrsView, BlockView, MarkupView, SpecialView,
    TogglerView,
};
use crate::error::{ErrorClass, ErrorKind, Failure};
use crate::grammar::{
    lemma_names, lemma_scan, lemma_scan_arrow, name_end, scan, scan_arrow, spec_attrs,
    spec_block, spec_element, spec_else, spec_head_body, spec_if, spec_let, spec_literal,
    spec_markup, spec_markups, spec_match_arm, spec_match_arms, spec_more_attrs, spec_name,
    spec_namespaced_name, spec_parse, spec_special, spec_toggler, stops, Parsed, Stop,
};
use crate::literal::string_literal_value;
use crate::token::{Delimiter, Span, Tokens, TreeView};
use vstd::prelude::*;

verus! {

/// Whether `tree` is a literal that can be read as a string.
pub open spec fn is_string_token(tree: TreeView) -> bool {
    spec_literal(tree) is Ok
}

/// The string literals of `s` from `pos` on as markups, in their order.
pub open spec fn literal_markups(s: Tokens, pos: int) -> Seq<MarkupView>
    decreases s.len() - pos,
{
    if pos < 0 || pos >= s.len() {
        Seq::empty()
    } else if is_string_token(s[pos]) {
        seq![
            MarkupView::Literal {
                content: string_literal_value(s[pos].text()),
                span: s[pos].span,
            },
        ] + literal_markups(s, pos + 1)
    } else {
        literal_markups(s, pos + 1)
    }
}

/// Tokens that are all string literals or semicolons parse, from any
/// position on, to the literals in their order and nothing else.
pub proof fn lemma_literals_parse_flat_from(s: Tokens, pos: int, in_attr: bool)
    requires
        forall|i: int| 0 <= i < s.len() ==> is_string_token(#[trigger] s[i]) || s[i].is_op(';'),
    ensures
        spec_markups(s, pos, in_attr) == Ok::<Seq<MarkupView>, Failure>(literal_markups(s, pos)),
        forall|i: int| 0 <= i < literal_markups(s, pos).len() ==> literal_markups(s, pos)[i] is Literal,
    decreases s.len() - pos,
{
    if 0 <= pos < s.len() {
        lemma_literals_parse_flat_from(s, pos + 1, in_attr);
        if !s[pos].is_op(';') {
            assert(is_string_token(s[pos]));
            assert(spec_markup(s, pos, in_attr) == Ok::<(MarkupView, int), Failure>(
                (
                    MarkupView::Literal {
                        content: string_literal_value(s[pos].text()),
                        span: s[pos].span,
                    },
                    pos + 1,
                ),
            ));
        }
    }
}

/// Input that holds nothing but string literals and semicolons parses to
/// the flat sequence of its literals, in their order.
pub proof fn lemma_literals_parse_flat(s: Tokens)
    requires
        forall|i: int| 0 <= i < s.len() ==> is_string_token(#[trigger] s[i]) || s[i].is_op(';'),
    ensures
        spec_parse(s) == Ok::<Seq<MarkupView>, Failure>(literal_markups(s, 0)),
        forall|i: int| 0 <= i < literal_markups(s, 0).len() ==> literal_markups(s, 0)[i] is Literal,
{
    lemma_literals_parse_flat_from(s, 0, false);
}

/// Whether `part` stands in `s` as it is: as a run of consecutive tokens of
/// `s`, or so inside a group of `s`, at any depth.
pub open spec fn occurs_in(part: Tokens, s: Tokens) -> bool
    decreases s,
{
    ||| exists|i: int, j: int| 0 <= i <= j <= s.len() && part == #[trigger] s.subrange(i, j)
    ||| exists|k: int|
        0 <= k < s.len() && (#[trigger] s[k]).kind is Group && occurs_in(part, s[k].inner())
}

/// Whether every token sequence that `markup` keeps stands in `s` as it is.
pub open spec fn markup_from(markup: MarkupView, s: Tokens) -> bool
    decreases markup,
{
    match markup {
        MarkupView::Literal { .. } => true,
        MarkupView::Splice { expr } => occurs_in(expr, s),
        MarkupView::Element { name, attrs, body } => {
            &&& occurs_in(name, s)
            &&& attrs_from(attrs, s)
            &&& match body {
                Some(inner) => markup_from(*inner, s),
                None => true,
            }
        },
        MarkupView::Block(block) => block_from(block, s),
        MarkupView::Special(special) => special_from(special, s),
        MarkupView::If { segments } => forall|i: int|
            0 <= i < segments.len() ==> special_from(#[trigger] segments[i], s),
        MarkupView::Match { head, arms, arms_span } => {
            &&& occurs_in(head, s)
            &&& forall|i: int| 0 <= i < arms.len() ==> special_from(#[trigger] arms[i], s)
        },
        MarkupView::Let { tokens } => occurs_in(tokens, s),
    }
}

/// As `markup_from`, for a block.
pub open spec fn block_from(block: BlockView, s: Tokens) -> bool
    decreases block,
{
    forall|i: int| 0 <= i < block.markups.len() ==> markup_from(#[trigger] block.markups[i], s)
}

/// As `markup_from`, for a head with its body.
pub open spec fn special_from(special: SpecialView, s: Tokens) -> bool
    decreases special,
{
    occurs_in(special.head, s) && block_from(special.body, s)
}

/// As `markup_from`, for a condition in brackets, if there is one.
pub open spec fn toggler_from(toggler: Option<TogglerView>, s: Tokens) -> bool {
    match toggler {
        Some(t) => occurs_in(t.cond, s),
        None => true,
    }
}

/// As `markup_from`, for an attribute.
pub open spec fn attribute_from(attribute: AttributeView, s: Tokens) -> bool
    decreases attribute,
{
    &&& occurs_in(attribute.name, s)
    &&& match attribute.attr_type {
        AttrTypeView::Normal { value } => markup_from(value, s),
        AttrTypeView::Empty { toggler } => toggler_from(toggler, s),
    }
}

/// As `markup_from`, for the attributes of an element.
pub open spec fn attrs_from(attrs: AttrsView, s: Tokens) -> bool
    decreases attrs,
{
    &&& forall|i: int|
        0 <= i < attrs.classes_static.len() ==> occurs_in(#[trigger] attrs.classes_static[i], s)
    &&& forall|i: int|
        0 <= i < attrs.classes_toggled.len() ==> occurs_in(
            (#[trigger] attrs.classes_toggled[i]).0,
            s,
        ) && occurs_in(attrs.classes_toggled[i].1.cond, s)
    &&& forall|i: int| 0 <= i < attrs.ids.len() ==> occurs_in(#[trigger] attrs.ids[i], s)
    &&& forall|i: int| 0 <= i < attrs.attrs.len() ==> attribute_from(#[trigger] attrs.attrs[i], s)
}


/// Whether a failure is one that parsing markup gives: any but that of the
/// buffer name.
pub open spec fn of_markup(e: Failure) -> bool {
    e.kind != ErrorKind::BufferName
}

/// Whether each of `markups` keeps only what stands in `s`, and is well
/// formed.
pub open spec fn markups_from(markups: Seq<MarkupView>, s: Tokens) -> bool {
    forall|i: int|
        0 <= i < markups.len() ==> markup_from(#[trigger] markups[i], s)
            && markups[i].well_formed()
}

/// As `markups_from`, for branches or arms.
pub open spec fn specials_from(specials: Seq<SpecialView>, s: Tokens) -> bool {
    forall|i: int|
        0 <= i < specials.len() ==> special_from(#[trigger] specials[i], s)
            && specials[i].well_formed()
}

/// A run of consecutive tokens of `s` stands in `s`.
pub proof fn lemma_run_occurs(s: Tokens, i: int, j: int)
    requires
        0 <= i <= j <= s.len(),
    ensures
        occurs_in(s.subrange(i, j), s),
{
}

/// What stands in a group of `s` stands in `s`.
pub proof fn lemma_lift_occurs(part: Tokens, s: Tokens, k: int)
    requires
        0 <= k < s.len(),
        s[k].kind is Group,
        occurs_in(part, s[k].inner()),
    ensures
        occurs_in(part, s),
{
}

/// The tokens inside a group of `s` stand in `s`.
pub proof fn lemma_inner_occurs(s: Tokens, k: int)
    requires
        0 <= k < s.len(),
        s[k].kind is Group,
    ensures
        occurs_in(s[k].inner(), s),
{
    let inner = s[k].inner();
    assert(inner =~= inner.subrange(0, inner.len() as int));
    lemma_run_occurs(inner, 0, inner.len() as int);
}

/// A markup that keeps only what stands in a group of `s` keeps only what
/// stands in `s`.
pub proof fn lemma_lift_markup(markup: MarkupView, s: Tokens, k: int)
    requires
        0 <= k < s.len(),
        s[k].kind is Group,
        markup_from(markup, s[k].inner()),
    ensures
        markup_from(markup, s),
    decreases markup,
{
    match markup {
        MarkupView::Literal { .. } => {},
        MarkupView::Splice { expr } => {
            lemma_lift_occurs(expr, s, k);
        },
        MarkupView::Element { name, attrs, body } => {
            lemma_lift_occurs(name, s, k);
            lemma_lift_attrs(attrs, s, k);
            if let Some(inner) = body {
                lemma_lift_markup(*inner, s, k);
            }
        },
        MarkupView::Block(block) => {
            lemma_lift_block(block, s, k);
        },
        MarkupView::Special(special) => {
            lemma_lift_special(special, s, k);
        },
        MarkupView::If { segments } => {
            assert forall|i: int| 0 <= i < segments.len() implies special_from(
                #[trigger] segments[i],
                s,
            ) by {
                lemma_lift_special(segments[i], s, k);
            }
        },
        MarkupView::Match { head, arms, arms_span } => {
            lemma_lift_occurs(head, s, k);
            assert forall|i: int| 0 <= i < arms.len() implies special_from(#[trigger] arms[i], s) by {
                lemma_lift_special(arms[i], s, k);
            }
        },
        MarkupView::Let { tokens } => {
            lemma_lift_occurs(tokens, s, k);
        },
    }
}

/// As `lemma_lift_markup`, for a block.
pub proof fn lemma_lift_block(block: BlockView, s: Tokens, k: int)
    requires
        0 <= k < s.len(),
        s[k].kind is Group,
        block_from(block, s[k].inner()),
    ensures
        block_from(block, s),
    decreases block,
{
    assert forall|i: int| 0 <= i < block.markups.len() implies markup_from(
        #[trigger] block.markups[i],
        s,
    ) by {
        lemma_lift_markup(block.markups[i], s, k);
    }
}

/// As `lemma_lift_markup`, for a head with its body.
pub proof fn lemma_lift_special(special: SpecialView, s: Tokens, k: int)
    requires
        0 <= k < s.len(),
        s[k].kind is Group,
        special_from(special, s[k].inner()),
    ensures
        special_from(special, s),
    decreases special,
{
    lemma_lift_occurs(special.head, s, k);
    lemma_lift_block(special.body, s, k);
}

/// As `lemma_lift_markup`, for the attributes of an element.
pub proof fn lemma_lift_attrs(attrs: AttrsView, s: Tokens, k: int)
    requires
        0 <= k < s.len(),
        s[k].kind is Group,
        attrs_from(attrs, s[k].inner()),
    ensures
        attrs_from(attrs, s),
    decreases attrs,
{
    assert forall|i: int| 0 <= i < attrs.classes_static.len() implies occurs_in(
        #[trigger] attrs.classes_static[i],
        s,
    ) by {
        lemma_lift_occurs(attrs.classes_static[i], s, k);
    }
    assert forall|i: int| 0 <= i < attrs.classes_toggled.len() implies occurs_in(
        (#[trigger] attrs.classes_toggled[i]).0,
        s,
    ) && occurs_in(attrs.classes_toggled[i].1.cond, s) by {
        lemma_lift_occurs(attrs.classes_toggled[i].0, s, k);
        lemma_lift_occurs(attrs.classes_toggled[i].1.cond, s, k);
    }
    assert forall|i: int| 0 <= i < attrs.ids.len() implies occurs_in(
        #[trigger] attrs.ids[i],
        s,
    ) by {
        lemma_lift_occurs(attrs.ids[i], s, k);
    }
    assert forall|i: int| 0 <= i < attrs.attrs.len() implies attribute_from(
        #[trigger] attrs.attrs[i],
        s,
    ) by {
        let attribute = attrs.attrs[i];
        lemma_lift_occurs(attribute.name, s, k);
        match attribute.attr_type {
            AttrTypeView::Normal { value } => {
                lemma_lift_markup(value, s, k);
            },
            AttrTypeView::Empty { toggler } => {
                if let Some(t) = toggler {
                    lemma_lift_occurs(t.cond, s, k);
                }
            },
        }
    }
}

/// Attributes that keep only what stands in `s` and are well formed stay so
/// with one list behind the other.
pub proof fn lemma_concat_from(first: AttrsView, rest: AttrsView, s: Tokens)
    requires
        attrs_from(first, s),
        attrs_from(rest, s),
        first.well_formed(),
        rest.well_formed(),
    ensures
        attrs_from(first.concat(rest), s),
        first.concat(rest).well_formed(),
{
    let all = first.concat(rest);
    assert forall|i: int| 0 <= i < all.attrs.len() implies (#[trigger] all.attrs[i]).well_formed() by {
        if i >= first.attrs.len() {
            assert(all.attrs[i] == rest.attrs[i - first.attrs.len()]);
        } else {
            assert(all.attrs[i] == first.attrs[i]);
        }
    }
    assert forall|i: int| 0 <= i < all.classes_static.len() implies occurs_in(
        #[trigger] all.classes_static[i],
        s,
    ) by {
        if i >= first.classes_static.len() {
            assert(all.classes_static[i] == rest.classes_static[i - first.classes_static.len()]);
        } else {
            assert(all.classes_static[i] == first.classes_static[i]);
        }
    }
    assert forall|i: int| 0 <= i < all.classes_toggled.len() implies occurs_in(
        (#[trigger] all.classes_toggled[i]).0,
        s,
    ) && occurs_in(all.classes_toggled[i].1.cond, s) by {
        if i >= first.classes_toggled.len() {
            assert(all.classes_toggled[i] == rest.classes_toggled[i
                - first.classes_toggled.len()]);
        } else {
            assert(all.classes_toggled[i] == first.classes_toggled[i]);
        }
    }
    assert forall|i: int| 0 <= i < all.ids.len() implies occurs_in(#[trigger] all.ids[i], s) by {
        if i >= first.ids.len() {
            assert(all.ids[i] == rest.ids[i - first.ids.len()]);
        } else {
            assert(all.ids[i] == first.ids[i]);
        }
    }
    assert forall|i: int| 0 <= i < all.attrs.len() implies attribute_from(
        #[trigger] all.attrs[i],
        s,
    ) by {
        if i >= first.attrs.len() {
            assert(all.attrs[i] == rest.attrs[i - first.attrs.len()]);
        } else {
            assert(all.attrs[i] == first.attrs[i]);
        }
    }
}

// The lemmas from here to `lemma_more_attrs_from` say the same three things,
// each of one rule of the grammar: what the rule gives keeps only tokens
// that stand in the input, and is well formed; the rule moves forward; and
// it fails with no failure but those of markup.

/// What the block of the group at `k` gives.
pub proof fn lemma_group_block_from(s: Tokens, k: int, in_attr: bool)
    requires
        0 <= k < s.len(),
        s[k].kind is Group,
    ensures
        spec_block(s[k].inner(), s[k].span, in_attr) matches Ok(block) ==> block_from(block, s)
            && block.well_formed(),
        spec_block(s[k].inner(), s[k].span, in_attr) matches Err(e) ==> of_markup(e),
    decreases s, 0int, 0int,
{
    lemma_block_from(s[k].inner(), s[k].span, in_attr);
    if let Ok(block) = spec_block(s[k].inner(), s[k].span, in_attr) {
        lemma_lift_block(block, s, k);
    }
}

/// What a block gives.
pub proof fn lemma_block_from(inner: Tokens, span: Span, in_attr: bool)
    ensures
        spec_block(inner, span, in_attr) matches Ok(block) ==> block_from(block, inner)
            && block.well_formed(),
        spec_block(inner, span, in_attr) matches Err(e) ==> of_markup(e),
    decreases inner, inner.len() + 1, 0int,
{
    lemma_markups_from(inner, 0, in_attr);
}

/// What the markups from `pos` on give.
pub proof fn lemma_markups_from(s: Tokens, pos: int, in_attr: bool)
    ensures
        spec_markups(s, pos, in_attr) matches Ok(markups) ==> markups_from(markups, s),
        spec_markups(s, pos, in_attr) matches Err(e) ==> of_markup(e),
    decreases s, s.len() - pos, 1int,
{
    if pos < 0 || pos >= s.len() {
    } else if s[pos].is_op(';') {
        lemma_markups_from(s, pos + 1, in_attr);
    } else {
        let is_let = s[pos].is_op('@') && pos + 1 < s.len() && s[pos + 1].is_word("let"@);
        let first = if is_let {
            spec_let(s, pos + 1, pos + 2)
        } else {
            spec_markup(s, pos, in_attr)
        };
        if is_let {
            lemma_let_from(s, pos + 1, pos + 2);
        } else {
            lemma_markup_from(s, pos, in_attr);
        }
        if let Ok((markup, next)) = first {
            if pos < next <= s.len() {
                lemma_markups_from(s, next, in_attr);
                if let Ok(rest) = spec_markups(s, next, in_attr) {
                    let all = seq![markup] + rest;
                    assert forall|i: int| 0 <= i < all.len() implies markup_from(
                        #[trigger] all[i],
                        s,
                    ) && all[i].well_formed() by {
                        if i > 0 {
                            assert(all[i] == rest[i - 1]);
                        }
                    }
                }
            }
        }
    }
}

/// What `@let` gives; it fails only at the end.
pub proof fn lemma_let_from(s: Tokens, start: int, from: int)
    requires
        0 <= start <= from <= s.len(),
    ensures
        spec_let(s, start, from) matches Ok((markup, next)) ==> markup_from(markup, s)
            && markup.well_formed() && from < next <= s.len(),
        spec_let(s, start, from) matches Err(e) ==> of_markup(e) && e.found is None,
{
    let assign = scan(s, from, Stop::Assign);
    lemma_scan(s, from, Stop::Assign);
    lemma_scan(s, assign + 1, Stop::Semicolon);
    if let Ok(_) = spec_let(s, start, from) {
        lemma_run_occurs(s, start, scan(s, assign + 1, Stop::Semicolon) + 1);
    }
}

/// What one markup gives.
pub proof fn lemma_markup_from(s: Tokens, pos: int, in_attr: bool)
    ensures
        spec_markup(s, pos, in_attr) matches Ok((markup, next)) ==> markup_from(markup, s)
            && markup.well_formed() && pos < next <= s.len(),
        spec_markup(s, pos, in_attr) matches Err(e) ==> of_markup(e),
    decreases s, s.len() - pos, 0int,
{
    if pos < 0 || pos >= s.len() {
    } else if s[pos].is_literal() {
    } else if s[pos].is_op('@') {
        lemma_special_from(s, pos + 1, in_attr);
    } else if s[pos].is_term() {
        lemma_names(s, pos);
        if let Ok((_, end)) = spec_namespaced_name(s, pos) {
            lemma_element_from(s, pos, end, in_attr);
        }
    } else if s[pos].is_group(Delimiter::Parenthesis) {
        lemma_inner_occurs(s, pos);
    } else if s[pos].is_group(Delimiter::Brace) {
        lemma_group_block_from(s, pos, in_attr);
    }
}

/// What stands behind `@` gives.
pub proof fn lemma_special_from(s: Tokens, keyword: int, in_attr: bool)
    ensures
        spec_special(s, keyword, in_attr) matches Ok((markup, next)) ==> markup_from(markup, s)
            && markup.well_formed() && keyword < next <= s.len(),
        spec_special(s, keyword, in_attr) matches Err(e) ==> of_markup(e),
    decreases s, s.len() - keyword, 1int,
{
    if keyword < 0 || keyword >= s.len() || !s[keyword].is_term() {
    } else if s[keyword].is_word("if"@) {
        lemma_if_from(s, keyword, keyword + 1, in_attr);
    } else if s[keyword].is_word("while"@) {
        lemma_head_body_from(s, keyword, keyword + 1, ErrorKind::EndOfWhile, in_attr);
    } else if s[keyword].is_word("for"@) {
        let word_in = scan(s, keyword + 1, Stop::In);
        lemma_scan(s, keyword + 1, Stop::In);
        if word_in < s.len() {
            lemma_head_body_from(
                s,
                keyword,
                word_in + 1,
                ErrorKind::EndOfFor,
                in_attr,
            );
        }
    } else if s[keyword].is_word("match"@) {
        let brace = scan(s, keyword + 1, Stop::Brace);
        lemma_scan(s, keyword + 1, Stop::Brace);
        if brace < s.len() {
            lemma_run_occurs(s, keyword, brace);
            lemma_match_arms_from(s[brace].inner(), 0, in_attr);
            if let Ok(arms) = spec_match_arms(s[brace].inner(), 0, in_attr) {
                assert forall|i: int| 0 <= i < arms.len() implies special_from(
                    #[trigger] arms[i],
                    s,
                ) && arms[i].well_formed() by {
                    lemma_lift_special(arms[i], s, brace);
                }
            }
        }
    }
}

/// What a head with its body gives; the head ends just before the body.
pub proof fn lemma_head_body_from(
    s: Tokens,
    start: int,
    from: int,
    missing: ErrorKind,
    in_attr: bool,
)
    requires
        0 <= start <= from <= s.len(),
    ensures
        spec_head_body(s, start, from, missing, in_attr) matches Ok((special, next))
            ==> special_from(special, s) && special.well_formed() && from < next <= s.len()
            && special.head == s.subrange(start, next - 1),
        spec_head_body(s, start, from, missing, in_attr) matches Err(e) ==> of_markup(e)
            || e.kind == missing,
    decreases s, s.len() - from, 0int,
{
    let brace = scan(s, from, Stop::Brace);
    lemma_scan(s, from, Stop::Brace);
    if brace < s.len() {
        lemma_run_occurs(s, start, brace);
        lemma_group_block_from(s, brace, in_attr);
    }
}

/// What `@if` gives, where the head begins with `if` or holds two tokens
/// before its condition: the branches of one `@if`, the first of which is no
/// `@else` without a condition.
pub proof fn lemma_if_from(s: Tokens, start: int, from: int, in_attr: bool)
    requires
        0 <= start < from <= s.len(),
        s[start].is_word("if"@) || start + 2 <= from,
    ensures
        spec_if(s, start, from, in_attr) matches Ok((segments, next)) ==> specials_from(
            segments,
            s,
        ) && from < next <= s.len() && is_if_chain(segments) && !segments[0].is_bare_else(),
        spec_if(s, start, from, in_attr) matches Err(e) ==> of_markup(e),
    decreases s, s.len() - from, 1int,
{
    lemma_head_body_from(s, start, from, ErrorKind::EndOfIf, in_attr);
    if let Ok((segment, next)) = spec_head_body(
        s,
        start,
        from,
        ErrorKind::EndOfIf,
        in_attr,
    ) {
        lemma_else_from(s, next, in_attr);
        assert(!segment.is_bare_else()) by {
            reveal_strlit("if");
            reveal_strlit("else");
            assert("if"@.len() == 2);
            assert("else"@.len() == 4);
            assert(segment.head == s.subrange(start, next - 1));
            assert(segment.head[0] == s[start]);
        }
        if let Ok((rest, _)) = spec_else(s, next, in_attr) {
            let all = seq![segment] + rest;
            assert forall|i: int| 0 <= i < all.len() implies special_from(#[trigger] all[i], s)
                && all[i].well_formed() by {
                if i > 0 {
                    assert(all[i] == rest[i - 1]);
                }
            }
            assert forall|i: int| 0 <= i < all.len() - 1 implies !(#[trigger] all[i]).is_bare_else() by {
                if i > 0 {
                    assert(all[i] == rest[i - 1]);
                }
            }
        }
    }
}

/// What the branches behind a branch give.
pub proof fn lemma_else_from(s: Tokens, pos: int, in_attr: bool)
    requires
        0 <= pos <= s.len(),
    ensures
        spec_else(s, pos, in_attr) matches Ok((segments, next)) ==> specials_from(segments, s)
            && pos <= next <= s.len() && (segments.len() == 0 || is_if_chain(segments)),
        spec_else(s, pos, in_attr) matches Err(e) ==> of_markup(e),
    decreases s, s.len() - pos, 0int,
{
    if 0 <= pos && pos + 1 < s.len() && s[pos].is_op('@') && s[pos + 1].is_word("else"@) {
        if pos + 2 < s.len() && s[pos + 2].is_word("if"@) {
            lemma_if_from(s, pos + 1, pos + 3, in_attr);
        } else if pos + 2 < s.len() && s[pos + 2].is_group(Delimiter::Brace) {
            lemma_run_occurs(s, pos + 1, pos + 2);
            lemma_group_block_from(s, pos + 2, in_attr);
        }
    }
}

/// What the arms of a match give.
pub proof fn lemma_match_arms_from(s: Tokens, pos: int, in_attr: bool)
    ensures
        spec_match_arms(s, pos, in_attr) matches Ok(arms) ==> specials_from(arms, s),
        spec_match_arms(s, pos, in_attr) matches Err(e) ==> of_markup(e),
    decreases s, s.len() - pos, 2int,
{
    if 0 <= pos < s.len() {
        lemma_match_arm_from(s, pos, in_attr);
        if let Ok((arm, next)) = spec_match_arm(s, pos, in_attr) {
            if pos < next <= s.len() {
                lemma_match_arms_from(s, next, in_attr);
                if let Ok(rest) = spec_match_arms(s, next, in_attr) {
                    let all = seq![arm] + rest;
                    assert forall|i: int| 0 <= i < all.len() implies special_from(
                        #[trigger] all[i],
                        s,
                    ) && all[i].well_formed() by {
                        if i > 0 {
                            assert(all[i] == rest[i - 1]);
                        }
                    }
                }
            }
        }
    }
}

/// What one arm of a match gives.
pub proof fn lemma_match_arm_from(s: Tokens, pos: int, in_attr: bool)
    requires
        0 <= pos < s.len(),
    ensures
        spec_match_arm(s, pos, in_attr) matches Ok((arm, next)) ==> special_from(arm, s)
            && arm.well_formed() && pos < next <= s.len(),
        spec_match_arm(s, pos, in_attr) matches Err(e) ==> of_markup(e),
    decreases s, s.len() - pos, 1int,
{
    let arrow = scan_arrow(s, pos);
    lemma_scan_arrow(s, pos);
    if arrow < s.len() {
        let body = arrow + 2;
        if body < s.len() {
            lemma_run_occurs(s, pos, body);
            if s[body].is_group(Delimiter::Brace) {
                lemma_group_block_from(s, body, in_attr);
            } else {
                let comma = scan(s, body + 1, Stop::Comma);
                lemma_scan(s, body + 1, Stop::Comma);
                if comma < s.len() {
                    lemma_run_occurs(s, body, comma);
                }
            }
        }
    }
}

/// What an element gives.
pub proof fn lemma_element_from(s: Tokens, start: int, pos: int, in_attr: bool)
    requires
        0 <= start <= pos <= s.len(),
    ensures
        spec_element(s, start, pos, in_attr) matches Ok((markup, next)) ==> markup_from(
            markup,
            s,
        ) && markup.well_formed() && pos < next <= s.len(),
        spec_element(s, start, pos, in_attr) matches Err(e) ==> of_markup(e),
    decreases s, s.len() - pos, 2int,
{
    if !in_attr {
        lemma_run_occurs(s, start, pos);
        lemma_attrs_from(s, pos);
        if let Ok((attrs, next)) = spec_attrs(s, pos) {
            if 0 <= pos <= next <= s.len() {
                if next < s.len() && (s[next].is_op(';') || s[next].is_op('/')) {
                } else {
                    lemma_markup_from(s, next, false);
                }
            }
        }
    }
}

/// What the attributes of an element give.
pub proof fn lemma_attrs_from(s: Tokens, pos: int)
    requires
        0 <= pos <= s.len(),
    ensures
        spec_attrs(s, pos) matches Ok((attrs, next)) ==> attrs_from(attrs, s)
            && attrs.well_formed() && pos <= next <= s.len(),
        spec_attrs(s, pos) matches Err(e) ==> of_markup(e),
    decreases s, s.len() - pos, 1int,
{
    if pos < 0 || pos >= s.len() {
    } else if s[pos].is_op('.') {
        lemma_names(s, pos + 1);
        if let Ok((name, end)) = spec_name(s, pos + 1) {
            lemma_run_occurs(s, pos + 1, end);
            let (toggler, after) = spec_toggler(s, end);
            if toggler is Some {
                lemma_inner_occurs(s, end);
            }
            let class = match toggler {
                Some(t) => AttrsView::toggled_class(name, t),
                None => AttrsView::class(name),
            };
            lemma_more_attrs_from(s, pos, class, after);
        }
    } else if s[pos].is_op('#') {
        lemma_names(s, pos + 1);
        if let Ok((name, end)) = spec_name(s, pos + 1) {
            lemma_run_occurs(s, pos + 1, end);
            lemma_more_attrs_from(s, pos, AttrsView::id(name), end);
        }
    } else {
        lemma_names(s, pos);
        if let Ok((name, end)) = spec_namespaced_name(s, pos) {
            lemma_run_occurs(s, pos, end);
            if pos < end < s.len() && s[end].is_op('=') {
                lemma_markup_from(s, end + 1, true);
                if let Ok((value, after)) = spec_markup(s, end + 1, true) {
                    lemma_more_attrs_from(
                        s,
                        pos,
                        AttrsView::attribute(
                            AttributeView { name, attr_type: AttrTypeView::Normal { value } },
                        ),
                        after,
                    );
                }
            } else if pos < end < s.len() && s[end].is_op('?') {
                let (toggler, after) = spec_toggler(s, end + 1);
                if toggler is Some {
                    lemma_inner_occurs(s, end + 1);
                }
                lemma_more_attrs_from(
                    s,
                    pos,
                    AttrsView::attribute(
                        AttributeView { name, attr_type: AttrTypeView::Empty { toggler } },
                    ),
                    after,
                );
            }
        }
    }
}

/// What an attribute and those behind it give.
pub proof fn lemma_more_attrs_from(s: Tokens, pos: int, first: AttrsView, after: int)
    requires
        0 <= pos,
        attrs_from(first, s),
        first.well_formed(),
    ensures
        spec_more_attrs(s, pos, first, after) matches Ok((attrs, next)) ==> attrs_from(attrs, s)
            && attrs.well_formed() && pos < next <= s.len(),
        spec_more_attrs(s, pos, first, after) matches Err(e) ==> of_markup(e),
    decreases s, s.len() - pos, 0int,
{
    if pos < after <= s.len() {
        lemma_attrs_from(s, after);
        if let Ok((rest, _)) = spec_attrs(s, after) {
            lemma_concat_from(first, rest, s);
        }
    }
}

/// Every token sequence that a parse keeps without reading it (a splice, a
/// head, the tokens of `@let`, a condition, a name) stands in the input as
/// it is: as a run of consecutive tokens of the input, or of a group in it.
pub proof fn lemma_opaque_tokens_come_from_input(s: Tokens)
    ensures
        spec_parse(s) matches Ok(markups) ==> forall|i: int|
            0 <= i < markups.len() ==> markup_from(#[trigger] markups[i], s),
{
    lemma_markups_from(s, 0, false);
}

/// Every `@if` that a parse gives has one branch at least, and none of its
/// branches but the last is an `@else` without a condition.
pub proof fn lemma_parse_is_well_formed(s: Tokens)
    ensures
        spec_parse(s) matches Ok(markups) ==> forall|i: int|
            0 <= i < markups.len() ==> (#[trigger] markups[i]).well_formed(),
{
    lemma_markups_from(s, 0, false);
}

/// A failure of a parse is never that of the buffer name.
pub proof fn lemma_parse_failure_kind(s: Tokens)
    ensures
        spec_parse(s) matches Err(e) ==> e.kind != ErrorKind::BufferName,
{
    lemma_markups_from(s, 0, false);
}


// The lemmas from here on compare what a rule gives on a prefix of the
// input, `s.take(n)`, with what it gives on the input.

/// Whether `q` is a place at which only the end of `p` can have stopped a
/// parse of `p`: the end, or a last token that is `@`.
pub open spec fn at_edge(p: Tokens, q: int) -> bool {
    q == p.len() || (0 <= q == p.len() - 1 && p[q].is_op('@'))
}

/// Whether a name begins at `q` whose reading runs into the end of `p`.
pub open spec fn name_to_end(p: Tokens, q: int) -> bool {
    0 <= q < p.len() && p[q].is_term() && match spec_namespaced_name(p, q) {
        Ok((_, end)) => end == p.len(),
        Err(e) => e.found is None,
    }
}

/// What a rule gives on a prefix `p` carries over to the whole input: a
/// failure at a token stays a failure, and a success stays as it is unless
/// it ended at the edge of `p`.
pub open spec fn carries<T>(on_prefix: Parsed<T>, on_whole: Parsed<T>, p: Tokens) -> bool {
    match on_prefix {
        Err(e) => e.found is Some ==> on_whole is Err,
        Ok((_, next)) => on_whole == on_prefix || at_edge(p, next),
    }
}

/// As `carries`, for attributes, which also end where a name runs into the
/// end of `p`.
pub open spec fn carries_attrs(
    on_prefix: Parsed<AttrsView>,
    on_whole: Parsed<AttrsView>,
    p: Tokens,
) -> bool {
    match on_prefix {
        Err(e) => e.found is Some ==> on_whole is Err,
        Ok((_, next)) => on_whole == on_prefix || at_edge(p, next) || name_to_end(p, next),
    }
}

/// What a rule gives on a prefix is what it gives on the whole input,
/// unless it failed at the end of the prefix.
pub open spec fn carries_exactly<T>(on_prefix: Parsed<T>, on_whole: Parsed<T>) -> bool {
    match on_prefix {
        Err(e) => e.found is Some ==> on_whole == on_prefix,
        Ok(_) => on_whole == on_prefix,
    }
}

/// As `carries_exactly`, unless a name ran into the end of the prefix.
pub open spec fn carries_name(on_prefix: Parsed<Tokens>, on_whole: Parsed<Tokens>, n: int) -> bool {
    match on_prefix {
        Err(e) => e.found is Some ==> on_whole == on_prefix,
        Ok((_, end)) => end <= n && (end < n ==> on_whole == on_prefix),
    }
}

/// A scan that stops within the prefix stops at the same place in the input.
pub proof fn lemma_take_scan(s: Tokens, n: int, pos: int, stop: Stop)
    requires
        0 <= pos <= n <= s.len(),
    ensures
        pos <= scan(s.take(n), pos, stop) <= n,
        scan(s.take(n), pos, stop) < n ==> scan(s, pos, stop) == scan(s.take(n), pos, stop),
    decreases n - pos,
{
    let p = s.take(n);
    if pos < n {
        assert(p[pos] == s[pos]);
        if !stops(p[pos], stop) {
            lemma_take_scan(s, n, pos + 1, stop);
        }
    }
}

/// A name that ends within the prefix ends at the same place in the input.
pub proof fn lemma_take_name_end(s: Tokens, n: int, pos: int, after_hyphen: bool)
    requires
        0 <= pos <= n <= s.len(),
    ensures
        pos <= name_end(s.take(n), pos, after_hyphen) <= n,
        name_end(s.take(n), pos, after_hyphen) < n ==> name_end(s, pos, after_hyphen) == name_end(
            s.take(n),
            pos,
            after_hyphen,
        ),
    decreases n - pos,
{
    let p = s.take(n);
    if pos < n {
        assert(p[pos] == s[pos]);
        if p[pos].is_op('-') {
            lemma_take_name_end(s, n, pos + 1, true);
        } else if after_hyphen && p[pos].is_term() {
            lemma_take_name_end(s, n, pos + 1, false);
        }
    }
}

/// A plain name on a prefix and on the input.
pub proof fn lemma_take_name(s: Tokens, n: int, pos: int)
    requires
        0 <= pos <= n <= s.len(),
    ensures
        carries_name(spec_name(s.take(n), pos), spec_name(s, pos), n),
{
    let p = s.take(n);
    if pos < n {
        assert(p[pos] == s[pos]);
        if p[pos].is_term() {
            lemma_take_name_end(s, n, pos + 1, false);
            let end = name_end(p, pos + 1, false);
            if end < n {
                assert(p.subrange(pos, end) =~= s.subrange(pos, end));
            }
        }
    }
}

/// A name with its namespace on a prefix and on the input.
pub proof fn lemma_take_namespaced_name(s: Tokens, n: int, pos: int)
    requires
        0 <= pos <= n <= s.len(),
    ensures
        carries_name(spec_namespaced_name(s.take(n), pos), spec_namespaced_name(s, pos), n),
{
    let p = s.take(n);
    lemma_take_name(s, n, pos);
    lemma_names(p, pos);
    if let Ok((_, end)) = spec_name(p, pos) {
        if end < n {
            assert(p[end] == s[end]);
            if p[end].is_op(':') {
                lemma_take_name(s, n, end + 1);
                lemma_names(p, end + 1);
                if let Ok((_, full_end)) = spec_name(p, end + 1) {
                    if full_end < n {
                        assert(p.subrange(pos, full_end) =~= s.subrange(pos, full_end));
                    }
                }
            }
        }
    }
}

/// `@let` on a prefix and on the input.
pub proof fn lemma_take_let(s: Tokens, n: int, start: int, from: int)
    requires
        0 <= start <= from <= n <= s.len(),
    ensures
        carries_exactly(spec_let(s.take(n), start, from), spec_let(s, start, from)),
{
    let p = s.take(n);
    lemma_take_scan(s, n, from, Stop::Assign);
    let assign = scan(p, from, Stop::Assign);
    if assign < n {
        lemma_take_scan(s, n, assign + 1, Stop::Semicolon);
        let semicolon = scan(p, assign + 1, Stop::Semicolon);
        if semicolon < n {
            assert(p.subrange(start, semicolon + 1) =~= s.subrange(start, semicolon + 1));
        }
    }
}

/// A head with its body on a prefix and on the input.
pub proof fn lemma_take_head_body(
    s: Tokens,
    n: int,
    start: int,
    from: int,
    missing: ErrorKind,
    in_attr: bool,
)
    requires
        0 <= start <= from <= n <= s.len(),
    ensures
        carries_exactly(
            spec_head_body(s.take(n), start, from, missing, in_attr),
            spec_head_body(s, start, from, missing, in_attr),
        ),
{
    let p = s.take(n);
    lemma_take_scan(s, n, from, Stop::Brace);
    let brace = scan(p, from, Stop::Brace);
    if brace < n {
        assert(p[brace] == s[brace]);
        assert(p.subrange(start, brace) =~= s.subrange(start, brace));
    }
}

/// Markups on a prefix and on the input: a failure at a token of the
/// prefix stays a failure.
pub proof fn lemma_take_markups(s: Tokens, n: int, pos: int, in_attr: bool)
    requires
        0 <= pos <= n <= s.len(),
    ensures
        spec_markups(s.take(n), pos, in_attr) matches Err(e) && e.found is Some ==> spec_markups(
            s,
            pos,
            in_attr,
        ) is Err,
    decreases n - pos, 1int,
{
    let p = s.take(n);
    if pos < n {
        assert(p[pos] == s[pos]);
        if p[pos].is_op(';') {
            lemma_take_markups(s, n, pos + 1, in_attr);
        } else if p[pos].is_op('@') && pos + 1 < n && p[pos + 1].is_word("let"@) {
            assert(p[pos + 1] == s[pos + 1]);
            lemma_take_let(s, n, pos + 1, pos + 2);
            lemma_let_from(p, pos + 1, pos + 2);
            if let Ok((_, next)) = spec_let(p, pos + 1, pos + 2) {
                lemma_take_markups(s, n, next, in_attr);
            }
        } else {
            lemma_take_markup(s, n, pos, in_attr);
            lemma_markup_from(p, pos, in_attr);
            lemma_markup_from(s, pos, in_attr);
            if pos + 1 < n {
                assert(p[pos + 1] == s[pos + 1]);
            } else if p[pos].is_op('@') {
                assert(spec_special(p, n, in_attr) matches Err(e) && e.found is None);
            }
            if let Ok((_, next)) = spec_markup(p, pos, in_attr) {
                if spec_markup(s, pos, in_attr) == spec_markup(p, pos, in_attr) {
                    lemma_take_markups(s, n, next, in_attr);
                } else if next < n {
                    assert(spec_special(p, n, in_attr) matches Err(e) && e.found is None);
                    assert(spec_markup(p, next, in_attr) matches Err(e) && e.found is None);
                    assert(spec_markups(p, next, in_attr) matches Err(e) && e.found is None);
                } else {
                    assert(spec_markups(p, next, in_attr) is Ok);
                }
            }
        }
    }
}

/// One markup on a prefix and on the input.
pub proof fn lemma_take_markup(s: Tokens, n: int, pos: int, in_attr: bool)
    requires
        0 <= pos <= n <= s.len(),
    ensures
        carries(spec_markup(s.take(n), pos, in_attr), spec_markup(s, pos, in_attr), s.take(n)),
    decreases n - pos, 0int,
{
    let p = s.take(n);
    if pos < n {
        assert(p[pos] == s[pos]);
        if p[pos].is_literal() {
        } else if p[pos].is_op('@') {
            lemma_take_special(s, n, pos + 1, in_attr);
        } else if p[pos].is_term() {
            lemma_take_namespaced_name(s, n, pos);
            lemma_names(p, pos);
            lemma_names(s, pos);
            if let Ok((_, end)) = spec_namespaced_name(p, pos) {
                if end < n {
                    lemma_take_element(s, n, pos, end, in_attr);
                } else if !in_attr {
                    assert(spec_attrs(p, n) == Ok::<(AttrsView, int), Failure>(
                        (AttrsView::empty(), n),
                    ));
                    assert(spec_markup(p, n, false) is Err);
                    assert(spec_element(p, pos, end, in_attr) matches Err(e) && e.found is None);
                }
            }
        }
    }
}

/// What stands behind `@`, on a prefix and on the input.
pub proof fn lemma_take_special(s: Tokens, n: int, keyword: int, in_attr: bool)
    requires
        0 <= keyword <= n <= s.len(),
    ensures
        carries(
            spec_special(s.take(n), keyword, in_attr),
            spec_special(s, keyword, in_attr),
            s.take(n),
        ),
    decreases n - keyword, 1int,
{
    let p = s.take(n);
    if keyword < n {
        assert(p[keyword] == s[keyword]);
        if !p[keyword].is_term() {
        } else if p[keyword].is_word("if"@) {
            lemma_take_if(s, n, keyword, keyword + 1, in_attr);
        } else if p[keyword].is_word("while"@) {
            lemma_take_head_body(s, n, keyword, keyword + 1, ErrorKind::EndOfWhile, in_attr);
        } else if p[keyword].is_word("for"@) {
            lemma_take_scan(s, n, keyword + 1, Stop::In);
            let word_in = scan(p, keyword + 1, Stop::In);
            if word_in < n {
                lemma_take_head_body(s, n, keyword, word_in + 1, ErrorKind::EndOfFor, in_attr);
            }
        } else if p[keyword].is_word("match"@) {
            lemma_take_scan(s, n, keyword + 1, Stop::Brace);
            let brace = scan(p, keyword + 1, Stop::Brace);
            if brace < n {
                assert(p[brace] == s[brace]);
                assert(p.subrange(keyword, brace) =~= s.subrange(keyword, brace));
            }
        }
    }
}

/// `@if` on a prefix and on the input.
pub proof fn lemma_take_if(s: Tokens, n: int, start: int, from: int, in_attr: bool)
    requires
        0 <= start <= from <= n <= s.len(),
    ensures
        carries(
            spec_if(s.take(n), start, from, in_attr),
            spec_if(s, start, from, in_attr),
            s.take(n),
        ),
    decreases n - from, 1int,
{
    let p = s.take(n);
    lemma_take_head_body(s, n, start, from, ErrorKind::EndOfIf, in_attr);
    lemma_head_body_from(p, start, from, ErrorKind::EndOfIf, in_attr);
    if let Ok((_, next)) = spec_head_body(p, start, from, ErrorKind::EndOfIf, in_attr) {
        lemma_take_else(s, n, next, in_attr);
    }
}

/// The branches behind a branch, on a prefix and on the input.
pub proof fn lemma_take_else(s: Tokens, n: int, pos: int, in_attr: bool)
    requires
        0 <= pos <= n <= s.len(),
    ensures
        carries(spec_else(s.take(n), pos, in_attr), spec_else(s, pos, in_attr), s.take(n)),
    decreases n - pos, 0int,
{
    let p = s.take(n);
    if pos + 1 < n {
        assert(p[pos] == s[pos]);
        assert(p[pos + 1] == s[pos + 1]);
        if p[pos].is_op('@') && p[pos + 1].is_word("else"@) {
            if pos + 2 < n {
                assert(p[pos + 2] == s[pos + 2]);
                if p[pos + 2].is_word("if"@) {
                    lemma_take_if(s, n, pos + 1, pos + 3, in_attr);
                } else if p[pos + 2].is_group(Delimiter::Brace) {
                    assert(p.subrange(pos + 1, pos + 2) =~= s.subrange(pos + 1, pos + 2));
                }
            }
        }
    } else if pos < n {
        assert(p[pos] == s[pos]);
    }
}

/// An element on a prefix and on the input.
pub proof fn lemma_take_element(s: Tokens, n: int, start: int, pos: int, in_attr: bool)
    requires
        0 <= start < pos <= n <= s.len(),
    ensures
        carries(
            spec_element(s.take(n), start, pos, in_attr),
            spec_element(s, start, pos, in_attr),
            s.take(n),
        ),
    decreases n - pos, 2int,
{
    let p = s.take(n);
    assert(p[start] == s[start]);
    if !in_attr {
        lemma_take_attrs(s, n, pos);
        lemma_attrs_from(p, pos);
        assert(p.subrange(start, pos) =~= s.subrange(start, pos));
        if let Ok((_, next)) = spec_attrs(p, pos) {
            if next == n {
                assert(spec_markup(p, n, false) is Err);
            } else if spec_attrs(s, pos) == spec_attrs(p, pos) {
                assert(p[next] == s[next]);
                if !(p[next].is_op(';') || p[next].is_op('/')) {
                    lemma_take_markup(s, n, next, false);
                }
            } else if name_to_end(p, next) {
                lemma_names(p, next);
                if let Ok((_, end)) = spec_namespaced_name(p, next) {
                    assert(spec_attrs(p, n) == Ok::<(AttrsView, int), Failure>(
                        (AttrsView::empty(), n),
                    ));
                    assert(spec_markup(p, n, false) is Err);
                    assert(spec_element(p, next, end, false) matches Err(e) && e.found is None);
                }
                assert(spec_markup(p, next, false) matches Err(e) && e.found is None);
            } else {
                assert(spec_special(p, n, false) matches Err(e) && e.found is None);
                assert(spec_markup(p, next, false) matches Err(e) && e.found is None);
            }
        }
    }
}

/// The attributes of an element on a prefix and on the input.
pub proof fn lemma_take_attrs(s: Tokens, n: int, pos: int)
    requires
        0 <= pos <= n <= s.len(),
    ensures
        carries_attrs(spec_attrs(s.take(n), pos), spec_attrs(s, pos), s.take(n)),
    decreases n - pos, 1int,
{
    let p = s.take(n);
    if pos < n {
        assert(p[pos] == s[pos]);
        if p[pos].is_op('.') {
            lemma_take_name(s, n, pos + 1);
            lemma_names(p, pos + 1);
            if let Ok((name, end)) = spec_name(p, pos + 1) {
                if end < n {
                    assert(p[end] == s[end]);
                }
                let (toggler, after) = spec_toggler(p, end);
                let class = match toggler {
                    Some(t) => AttrsView::toggled_class(name, t),
                    None => AttrsView::class(name),
                };
                lemma_take_more_attrs(s, n, pos, class, after, end < n);
            }
        } else if p[pos].is_op('#') {
            lemma_take_name(s, n, pos + 1);
            lemma_names(p, pos + 1);
            if let Ok((name, end)) = spec_name(p, pos + 1) {
                lemma_take_more_attrs(s, n, pos, AttrsView::id(name), end, end < n);
            }
        } else {
            lemma_take_namespaced_name(s, n, pos);
            lemma_names(p, pos);
            if let Ok((name, end)) = spec_namespaced_name(p, pos) {
                if end < n {
                    assert(p[end] == s[end]);
                    if p[end].is_op('=') {
                        lemma_take_markup(s, n, end + 1, true);
                        lemma_markup_from(p, end + 1, true);
                        if let Ok((value, after)) = spec_markup(p, end + 1, true) {
                            lemma_take_more_attrs(
                                s,
                                n,
                                pos,
                                AttrsView::attribute(
                                    AttributeView {
                                        name,
                                        attr_type: AttrTypeView::Normal { value },
                                    },
                                ),
                                after,
                                spec_markup(s, end + 1, true) == spec_markup(p, end + 1, true),
                            );
                        }
                    } else if p[end].is_op('?') {
                        if end + 1 < n {
                            assert(p[end + 1] == s[end + 1]);
                        }
                        let (toggler, after) = spec_toggler(p, end + 1);
                        lemma_take_more_attrs(
                            s,
                            n,
                            pos,
                            AttrsView::attribute(
                                AttributeView { name, attr_type: AttrTypeView::Empty { toggler } },
                            ),
                            after,
                            end + 1 < n,
                        );
                    }
                }
            }
        }
    }
}

/// An attribute and those behind it, on a prefix and on the input. `stable`
/// says that the input gives the same first attribute up to the same place;
/// where it does not, that place is at the edge of the prefix.
pub proof fn lemma_take_more_attrs(
    s: Tokens,
    n: int,
    pos: int,
    first: AttrsView,
    after: int,
    stable: bool,
)
    requires
        0 <= pos < after <= n <= s.len(),
        !stable ==> at_edge(s.take(n), after),
    ensures
        stable ==> carries_attrs(
            spec_more_attrs(s.take(n), pos, first, after),
            spec_more_attrs(s, pos, first, after),
            s.take(n),
        ),
        !stable ==> (spec_more_attrs(s.take(n), pos, first, after) matches Ok((_, next))
            && at_edge(s.take(n), next)),
    decreases n - pos, 0int,
{
    let p = s.take(n);
    if stable {
        lemma_take_attrs(s, n, after);
    } else if after < n {
        assert(spec_name(p, after) is Err);
        assert(spec_attrs(p, after) == Ok::<(AttrsView, int), Failure>(
            (AttrsView::empty(), after),
        ));
    }
}

/// A prefix of input that parses either parses too, or fails at its end:
/// its failure names no token and is an unexpected end of input.
pub proof fn lemma_truncated_input_fails_at_end(s: Tokens, n: int)
    requires
        0 <= n <= s.len(),
        spec_parse(s) is Ok,
    ensures
        spec_parse(s.take(n)) matches Err(e) ==> e.found is None && e.class()
            == ErrorClass::UnexpectedEndOfInput,
{
    lemma_take_markups(s, n, 0, false);
    lemma_markups_from(s.take(n), 0, false);
}

} // verus!
