//! The token model: what the parser reads.

use vstd::prelude::*;

verus! {

/// How a group token is delimited.
#[derive(Clone, Copy, Debug, PartialEq, Eq, Structural)]
pub enum Delimiter {
    Parenthesis,
    Brace,
    Bracket,
    /// No visible delimiter.
    Invisible,
}

/// Whether an operator is immediately followed by another operator.
#[derive(Clone, Copy, Debug, PartialEq, Eq, Structural)]
pub enum Spacing {
    Alone,
    Joint,
}

/// A region of source text, as a half-open range of offsets.
#[derive(Clone, Copy, Debug, PartialEq, Eq, Structural)]
pub struct Span {
    pub lo: usize,
    pub hi: usize,
}

impl Span {
    /// The smallest span that covers both `self` and `other`.
    pub open spec fn spec_join(self, other: Span) -> Span {
        Span {
            lo: if self.lo <= other.lo { self.lo } else { other.lo },
            hi: if self.hi >= other.hi { self.hi } else { other.hi },
        }
    }

    pub fn new(lo: usize, hi: usize) -> (span: Span)
        ensures
            span == (Span { lo, hi }),
    {
        Span { lo, hi }
    }

    #[verifier::when_used_as_spec(spec_join)]
    pub fn join(self, other: Span) -> (joined: Span)
        ensures
            joined == self.spec_join(other),
    {
        Span {
            lo: if self.lo <= other.lo { self.lo } else { other.lo },
            hi: if self.hi >= other.hi { self.hi } else { other.hi },
        }
    }
}

/// The kind of a token and what it carries.
#[derive(Debug, PartialEq, Eq)]
pub enum TokenNode {
    /// A delimited sequence of tokens.
    Group(Delimiter, TokenStream),
    /// An identifier or keyword, by its text.
    Term(String),
    /// A single-character operator.
    Op(char, Spacing),
    /// A literal, by its source text.
    Literal(String),
}

/// One token with its place in the source.
#[derive(Debug, PartialEq, Eq)]
pub struct TokenTree {
    pub span: Span,
    pub kind: TokenNode,
}

/// An ordered sequence of tokens.
#[derive(Debug, PartialEq, Eq)]
pub struct TokenStream {
    pub trees: Vec<TokenTree>,
}

/// The mathematical value of a token's kind.
pub enum NodeView {
    Group(Delimiter, Seq<TreeView>),
    Term(Seq<char>),
    Op(char, Spacing),
    Literal(Seq<char>),
}

/// The mathematical value of a token.
pub struct TreeView {
    pub span: Span,
    pub kind: NodeView,
}

/// The mathematical value of a token sequence.
pub type Tokens = Seq<TreeView>;

impl TreeView {
    /// Whether this is the operator `c`, whatever its spacing.
    pub open spec fn is_op(self, c: char) -> bool {
        self.kind matches NodeView::Op(x, _) && x == c
    }

    /// Whether this is the operator `c` immediately followed by another operator.
    pub open spec fn is_joint_op(self, c: char) -> bool {
        self.kind matches NodeView::Op(x, spacing) && x == c && spacing == Spacing::Joint
    }

    /// Whether this is an identifier or keyword.
    pub open spec fn is_term(self) -> bool {
        self.kind is Term
    }

    /// Whether this is the identifier or keyword spelled `word`.
    pub open spec fn is_word(self, word: Seq<char>) -> bool {
        self.kind matches NodeView::Term(text) && text == word
    }

    /// Whether this is a literal.
    pub open spec fn is_literal(self) -> bool {
        self.kind is Literal
    }

    /// Whether this is a group delimited by `delimiter`.
    pub open spec fn is_group(self, delimiter: Delimiter) -> bool {
        self.kind matches NodeView::Group(d, _) && d == delimiter
    }

    /// The tokens inside a group; empty for any other token.
    pub open spec fn inner(self) -> Tokens {
        match self.kind {
            NodeView::Group(_, inner) => inner,
            _ => Seq::empty(),
        }
    }

    /// The text of an identifier or of a literal; empty for any other token.
    pub open spec fn text(self) -> Seq<char> {
        match self.kind {
            NodeView::Term(text) => text,
            NodeView::Literal(text) => text,
            _ => Seq::empty(),
        }
    }
}

impl TokenTree {
    pub open spec fn view(&self) -> TreeView
        decreases self,
    {
        TreeView {
            span: self.span,
            kind: match self.kind {
                TokenNode::Group(d, stream) => NodeView::Group(d, stream.view()),
                TokenNode::Term(text) => NodeView::Term(text@),
                TokenNode::Op(c, spacing) => NodeView::Op(c, spacing),
                TokenNode::Literal(text) => NodeView::Literal(text@),
            },
        }
    }

    pub fn new(span: Span, kind: TokenNode) -> (tree: TokenTree)
        ensures
            tree.span == span,
            tree.kind == kind,
    {
        TokenTree { span, kind }
    }

    pub fn is_op(&self, c: char) -> (b: bool)
        ensures
            b == self@.is_op(c),
    {
        match &self.kind {
            TokenNode::Op(x, _) => *x == c,
            _ => false,
        }
    }

    pub fn is_joint_op(&self, c: char) -> (b: bool)
        ensures
            b == self@.is_joint_op(c),
    {
        match &self.kind {
            TokenNode::Op(x, spacing) => *x == c && *spacing == Spacing::Joint,
            _ => false,
        }
    }

    pub fn is_term(&self) -> (b: bool)
        ensures
            b == self@.is_term(),
    {
        match &self.kind {
            TokenNode::Term(_) => true,
            _ => false,
        }
    }

    pub fn is_word(&self, word: &str) -> (b: bool)
        ensures
            b == self@.is_word(word@),
    {
        match &self.kind {
            TokenNode::Term(text) => {
                let wanted = String::from_str(word);
                *text == wanted
            },
            _ => false,
        }
    }

    pub fn is_literal(&self) -> (b: bool)
        ensures
            b == self@.is_literal(),
    {
        match &self.kind {
            TokenNode::Literal(_) => true,
            _ => false,
        }
    }

    pub fn is_group(&self, delimiter: Delimiter) -> (b: bool)
        ensures
            b == self@.is_group(delimiter),
    {
        match &self.kind {
            TokenNode::Group(d, _) => *d == delimiter,
            _ => false,
        }
    }

    /// The tokens inside a group, or nothing for any other token.
    pub fn group_stream(&self) -> (inner: Option<&TokenStream>)
        ensures
            inner is Some <==> self@.kind is Group,
            inner matches Some(stream) ==> stream@ == self@.inner(),
    {
        match &self.kind {
            TokenNode::Group(_, stream) => Some(stream),
            _ => None,
        }
    }
}

impl Clone for TokenTree {
    fn clone(&self) -> (copy: Self)
        ensures
            copy@ == self@,
        decreases self,
    {
        let kind = match &self.kind {
            TokenNode::Group(d, stream) => TokenNode::Group(*d, stream.clone()),
            TokenNode::Term(text) => TokenNode::Term(text.clone()),
            TokenNode::Op(c, spacing) => TokenNode::Op(*c, *spacing),
            TokenNode::Literal(text) => TokenNode::Literal(text.clone()),
        };
        TokenTree { span: self.span, kind }
    }
}

impl TokenStream {
    pub open spec fn view(&self) -> Tokens
        decreases self,
    {
        Seq::new(
            self.trees.len() as nat,
            |i: int|
                if 0 <= i < self.trees.len() {
                    self.trees[i].view()
                } else {
                    arbitrary()
                },
        )
    }

    /// A stream without tokens.
    pub fn new() -> (stream: TokenStream)
        ensures
            stream@ == Seq::<TreeView>::empty(),
    {
        TokenStream { trees: Vec::new() }
    }

    /// The stream that holds `trees` in their order.
    pub fn from_trees(trees: Vec<TokenTree>) -> (stream: TokenStream)
        ensures
            stream.trees == trees,
    {
        TokenStream { trees }
    }

    pub fn len(&self) -> (n: usize)
        ensures
            n == self@.len(),
    {
        self.trees.len()
    }

    /// The token at `index`, if there is one.
    pub fn get(&self, index: usize) -> (tree: Option<&TokenTree>)
        ensures
            tree is Some <==> index < self@.len(),
            tree matches Some(t) ==> t@ == self@[index as int],
    {
        if index < self.trees.len() {
            Some(&self.trees[index])
        } else {
            None
        }
    }

    /// A copy of the tokens from `from` up to, not including, `to`.
    pub fn slice(&self, from: usize, to: usize) -> (part: TokenStream)
        requires
            from <= to <= self@.len(),
        ensures
            part@ == self@.subrange(from as int, to as int),
    {
        let mut trees: Vec<TokenTree> = Vec::new();
        let mut i: usize = from;
        while i < to
            invariant
                from <= i <= to <= self.trees.len(),
                trees.len() == i - from,
                forall|k: int| 0 <= k < trees.len() ==> trees[k]@ == self.trees[from + k]@,
            decreases to - i,
        {
            trees.push(self.trees[i].clone());
            i += 1;
        }
        let part = TokenStream { trees };
        assert(part@ =~= self@.subrange(from as int, to as int));
        part
    }
}

impl Clone for TokenStream {
    fn clone(&self) -> (copy: Self)
        ensures
            copy@ == self@,
        decreases self,
    {
        let mut trees: Vec<TokenTree> = Vec::new();
        let mut i: usize = 0;
        while i < self.trees.len()
            invariant
                i <= self.trees.len(),
                trees.len() == i,
                forall|k: int| 0 <= k < i ==> trees[k]@ == self.trees[k]@,
            decreases self.trees.len() - i,
        {
            trees.push(self.trees[i].clone());
            i += 1;
        }
        let copy = TokenStream { trees };
        assert(copy@ =~= self@);
        copy
    }
}

} // verus!
