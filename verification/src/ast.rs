//! The syntax tree that the parser builds.

use crate::token::{Span, TokenStream, Tokens};
use vstd::prelude::*;

verus! {

/// One piece of markup.
#[derive(Debug, PartialEq, Eq)]
pub enum Markup {
    /// A fixed string.
    Literal { content: String, span: Span },
    /// An expression whose value is inserted; its tokens are kept as they came.
    Splice { expr: TokenStream },
    /// An element; without a body it is a void element.
    Element { name: TokenStream, attrs: Attrs, body: Option<Box<Markup>> },
    /// A sequence of markups in braces.
    Block(Block),
    /// `@while` or `@for`.
    Special(Special),
    /// `@if` with its `@else if` and `@else` branches, in order.
    If { segments: Vec<Special> },
    /// `@match` with its arms, in order.
    Match { head: TokenStream, arms: Vec<Special>, arms_span: Span },
    /// `@let` up to and including its semicolon.
    Let { tokens: TokenStream },
}

#[derive(Debug, PartialEq, Eq)]
pub struct Block {
    pub markups: Vec<Markup>,
    pub span: Span,
}

/// A head, kept as it came, and the body that it governs.
#[derive(Debug, PartialEq, Eq)]
pub struct Special {
    pub head: TokenStream,
    pub body: Block,
}

#[derive(Debug, PartialEq, Eq)]
pub struct Attrs {
    pub classes_static: Vec<TokenStream>,
    pub classes_toggled: Vec<(TokenStream, Toggler)>,
    pub ids: Vec<TokenStream>,
    pub attrs: Vec<Attribute>,
}

#[derive(Debug, PartialEq, Eq)]
pub struct Attribute {
    pub name: TokenStream,
    pub attr_type: AttrType,
}

#[derive(Debug, PartialEq, Eq)]
pub enum AttrType {
    Normal { value: Markup },
    Empty { toggler: Option<Toggler> },
}

/// A condition in brackets, kept as it came.
#[derive(Debug, PartialEq, Eq)]
pub struct Toggler {
    pub cond: TokenStream,
    pub cond_span: Span,
}

/// The mathematical value of a [`Markup`].
pub enum MarkupView {
    Literal { content: Seq<char>, span: Span },
    Splice { expr: Tokens },
    Element { name: Tokens, attrs: AttrsView, body: Option<Box<MarkupView>> },
    Block(BlockView),
    Special(SpecialView),
    If { segments: Seq<SpecialView> },
    Match { head: Tokens, arms: Seq<SpecialView>, arms_span: Span },
    Let { tokens: Tokens },
}

pub struct BlockView {
    pub markups: Seq<MarkupView>,
    pub span: Span,
}

pub struct SpecialView {
    pub head: Tokens,
    pub body: BlockView,
}

pub struct AttrsView {
    pub classes_static: Seq<Tokens>,
    pub classes_toggled: Seq<(Tokens, TogglerView)>,
    pub ids: Seq<Tokens>,
    pub attrs: Seq<AttributeView>,
}

pub struct AttributeView {
    pub name: Tokens,
    pub attr_type: AttrTypeView,
}

pub enum AttrTypeView {
    Normal { value: MarkupView },
    Empty { toggler: Option<TogglerView> },
}

pub struct TogglerView {
    pub cond: Tokens,
    pub cond_span: Span,
}

impl AttrsView {
    /// No attributes.
    pub open spec fn empty() -> AttrsView {
        AttrsView {
            classes_static: Seq::empty(),
            classes_toggled: Seq::empty(),
            ids: Seq::empty(),
            attrs: Seq::empty(),
        }
    }

    /// The attributes of `self`, each list followed by that of `other`.
    pub open spec fn concat(self, other: AttrsView) -> AttrsView {
        AttrsView {
            classes_static: self.classes_static + other.classes_static,
            classes_toggled: self.classes_toggled + other.classes_toggled,
            ids: self.ids + other.ids,
            attrs: self.attrs + other.attrs,
        }
    }

    pub open spec fn class(name: Tokens) -> AttrsView {
        AttrsView { classes_static: seq![name], ..AttrsView::empty() }
    }

    pub open spec fn toggled_class(name: Tokens, toggler: TogglerView) -> AttrsView {
        AttrsView { classes_toggled: seq![(name, toggler)], ..AttrsView::empty() }
    }

    pub open spec fn id(name: Tokens) -> AttrsView {
        AttrsView { ids: seq![name], ..AttrsView::empty() }
    }

    pub open spec fn attribute(attribute: AttributeView) -> AttrsView {
        AttrsView { attrs: seq![attribute], ..AttrsView::empty() }
    }
}

impl SpecialView {
    /// Whether this is the branch of an `@else` without a condition: its
    /// head is the keyword `else` and nothing more.
    pub open spec fn is_bare_else(self) -> bool {
        self.head.len() == 1 && self.head[0].is_word("else"@)
    }

    /// Whether the body is well formed.
    pub open spec fn well_formed(self) -> bool
        decreases self,
    {
        self.body.well_formed()
    }
}

/// Whether `segments` are the branches of one `@if`: there is one at least,
/// and none but the last is an `@else` without a condition.
pub open spec fn is_if_chain(segments: Seq<SpecialView>) -> bool {
    segments.len() > 0 && forall|i: int|
        0 <= i < segments.len() - 1 ==> !(#[trigger] segments[i]).is_bare_else()
}

impl MarkupView {
    /// Whether every `@if` in this markup has the branches of one `@if`.
    pub open spec fn well_formed(self) -> bool
        decreases self,
    {
        match self {
            MarkupView::Literal { .. } => true,
            MarkupView::Splice { .. } => true,
            MarkupView::Element { name, attrs, body } => {
                &&& attrs.well_formed()
                &&& match body {
                    Some(inner) => inner.well_formed(),
                    None => true,
                }
            },
            MarkupView::Block(block) => block.well_formed(),
            MarkupView::Special(special) => special.well_formed(),
            MarkupView::If { segments } => {
                &&& is_if_chain(segments)
                &&& forall|i: int|
                    0 <= i < segments.len() ==> (#[trigger] segments[i]).well_formed()
            },
            MarkupView::Match { head, arms, arms_span } => forall|i: int|
                0 <= i < arms.len() ==> (#[trigger] arms[i]).well_formed(),
            MarkupView::Let { .. } => true,
        }
    }
}

impl BlockView {
    pub open spec fn well_formed(self) -> bool
        decreases self,
    {
        forall|i: int| 0 <= i < self.markups.len() ==> (#[trigger] self.markups[i]).well_formed()
    }
}

impl AttributeView {
    pub open spec fn well_formed(self) -> bool
        decreases self,
    {
        match self.attr_type {
            AttrTypeView::Normal { value } => value.well_formed(),
            AttrTypeView::Empty { .. } => true,
        }
    }
}

impl AttrsView {
    pub open spec fn well_formed(self) -> bool
        decreases self,
    {
        forall|i: int| 0 <= i < self.attrs.len() ==> (#[trigger] self.attrs[i]).well_formed()
    }
}

impl Toggler {
    pub open spec fn view(&self) -> TogglerView {
        TogglerView { cond: self.cond@, cond_span: self.cond_span }
    }
}

impl Markup {
    pub open spec fn view(&self) -> MarkupView
        decreases self,
    {
        match self {
            Markup::Literal { content, span } => MarkupView::Literal {
                content: content@,
                span: *span,
            },
            Markup::Splice { expr } => MarkupView::Splice { expr: expr@ },
            Markup::Element { name, attrs, body } => MarkupView::Element {
                name: name@,
                attrs: attrs.view(),
                body: match body {
                    Some(inner) => Some(Box::new(inner.view())),
                    None => None,
                },
            },
            Markup::Block(block) => MarkupView::Block(block.view()),
            Markup::Special(special) => MarkupView::Special(special.view()),
            Markup::If { segments } => MarkupView::If {
                segments: Seq::new(
                    segments.len() as nat,
                    |i: int|
                        if 0 <= i < segments.len() {
                            segments[i].view()
                        } else {
                            arbitrary()
                        },
                ),
            },
            Markup::Match { head, arms, arms_span } => MarkupView::Match {
                head: head@,
                arms: Seq::new(
                    arms.len() as nat,
                    |i: int|
                        if 0 <= i < arms.len() {
                            arms[i].view()
                        } else {
                            arbitrary()
                        },
                ),
                arms_span: *arms_span,
            },
            Markup::Let { tokens } => MarkupView::Let { tokens: tokens@ },
        }
    }
}

impl Block {
    pub open spec fn view(&self) -> BlockView
        decreases self,
    {
        BlockView {
            markups: Seq::new(
                self.markups.len() as nat,
                |i: int|
                    if 0 <= i < self.markups.len() {
                        self.markups[i].view()
                    } else {
                        arbitrary()
                    },
            ),
            span: self.span,
        }
    }
}

impl Special {
    pub open spec fn view(&self) -> SpecialView
        decreases self,
    {
        SpecialView { head: self.head@, body: self.body.view() }
    }
}

impl Attribute {
    pub open spec fn view(&self) -> AttributeView
        decreases self,
    {
        AttributeView {
            name: self.name@,
            attr_type: match self.attr_type {
                AttrType::Normal { value } => AttrTypeView::Normal { value: value.view() },
                AttrType::Empty { toggler } => AttrTypeView::Empty {
                    toggler: match toggler {
                        Some(t) => Some(t@),
                        None => None,
                    },
                },
            },
        }
    }
}

impl Attrs {
    pub open spec fn view(&self) -> AttrsView
        decreases self,
    {
        AttrsView {
            classes_static: Seq::new(
                self.classes_static.len() as nat,
                |i: int| self.classes_static[i]@,
            ),
            classes_toggled: Seq::new(
                self.classes_toggled.len() as nat,
                |i: int| (self.classes_toggled[i].0@, self.classes_toggled[i].1@),
            ),
            ids: Seq::new(self.ids.len() as nat, |i: int| self.ids[i]@),
            attrs: Seq::new(
                self.attrs.len() as nat,
                |i: int|
                    if 0 <= i < self.attrs.len() {
                        self.attrs[i].view()
                    } else {
                        arbitrary()
                    },
            ),
        }
    }
}

impl Attrs {
    /// No attributes.
    pub fn new() -> (attrs: Attrs)
        ensures
            attrs@ == AttrsView::empty(),
    {
        let attrs = Attrs {
            classes_static: Vec::new(),
            classes_toggled: Vec::new(),
            ids: Vec::new(),
            attrs: Vec::new(),
        };
        assert(attrs@.classes_static =~= Seq::empty());
        assert(attrs@.classes_toggled =~= Seq::empty());
        assert(attrs@.ids =~= Seq::empty());
        assert(attrs@.attrs =~= Seq::empty());
        attrs
    }

    /// Adds a class that is always set.
    pub fn push_class(&mut self, name: TokenStream)
        ensures
            final(self)@ == old(self)@.concat(AttrsView::class(name@)),
    {
        self.classes_static.push(name);
        let ghost expected = old(self)@.concat(AttrsView::class(name@));
        assert(self@.classes_static =~= expected.classes_static);
        assert(self@.classes_toggled =~= expected.classes_toggled);
        assert(self@.ids =~= expected.ids);
        assert(self@.attrs =~= expected.attrs);
    }

    /// Adds a class that is set under a condition.
    pub fn push_toggled_class(&mut self, name: TokenStream, toggler: Toggler)
        ensures
            final(self)@ == old(self)@.concat(AttrsView::toggled_class(name@, toggler@)),
    {
        self.classes_toggled.push((name, toggler));
        let ghost expected = old(self)@.concat(AttrsView::toggled_class(name@, toggler@));
        assert(self@.classes_static =~= expected.classes_static);
        assert(self@.classes_toggled =~= expected.classes_toggled);
        assert(self@.ids =~= expected.ids);
        assert(self@.attrs =~= expected.attrs);
    }

    /// Adds an id.
    pub fn push_id(&mut self, name: TokenStream)
        ensures
            final(self)@ == old(self)@.concat(AttrsView::id(name@)),
    {
        self.ids.push(name);
        let ghost expected = old(self)@.concat(AttrsView::id(name@));
        assert(self@.classes_static =~= expected.classes_static);
        assert(self@.classes_toggled =~= expected.classes_toggled);
        assert(self@.ids =~= expected.ids);
        assert(self@.attrs =~= expected.attrs);
    }

    /// Adds an attribute.
    pub fn push_attribute(&mut self, attribute: Attribute)
        ensures
            final(self)@ == old(self)@.concat(AttrsView::attribute(attribute@)),
    {
        self.attrs.push(attribute);
        let ghost expected = old(self)@.concat(AttrsView::attribute(attribute@));
        assert(self@.classes_static =~= expected.classes_static);
        assert(self@.classes_toggled =~= expected.classes_toggled);
        assert(self@.ids =~= expected.ids);
        assert(self@.attrs =~= expected.attrs);
    }
}

impl Block {
    /// The block of `markups` at `span`.
    pub fn new(markups: Vec<Markup>, span: Span) -> (block: Block)
        ensures
            block@ == (BlockView { markups: markups_view(markups@), span }),
    {
        let block = Block { markups, span };
        assert(block@.markups =~= markups_view(markups@));
        block
    }
}

impl Markup {
    /// The `@if` with the branches `segments`.
    pub fn new_if(segments: Vec<Special>) -> (markup: Markup)
        ensures
            markup@ == (MarkupView::If { segments: specials_view(segments@) }),
    {
        let markup = Markup::If { segments };
        assert(markup@->If_segments =~= specials_view(segments@));
        markup
    }

    /// The `@match` with the arms `arms`.
    pub fn new_match(head: TokenStream, arms: Vec<Special>, arms_span: Span) -> (markup: Markup)
        ensures
            markup@ == (MarkupView::Match {
                head: head@,
                arms: specials_view(arms@),
                arms_span,
            }),
    {
        let markup = Markup::Match { head, arms, arms_span };
        assert(markup@->Match_arms =~= specials_view(arms@));
        markup
    }
}

/// The values of the markups of `v`, in order.
pub open spec fn markups_view(v: Seq<Markup>) -> Seq<MarkupView> {
    Seq::new(v.len(), |i: int| v[i]@)
}

/// The values of the branches or arms of `v`, in order.
pub open spec fn specials_view(v: Seq<Special>) -> Seq<SpecialView> {
    Seq::new(v.len(), |i: int| v[i]@)
}

} // verus!
