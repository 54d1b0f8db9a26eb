use maud_parser::ast::{AttrType, Attribute, Attrs, Block, Markup, Special};
use maud_parser::error::{ErrorClass, ErrorKind, ParseError};
use maud_parser::parse::{literal_markup, Parser};
use maud_parser::token::{Delimiter, Spacing, Span, TokenNode, TokenStream, TokenTree};
use maud_parser::{parse, BufferBorrow};

fn is_punct(c: char) -> bool {
    !(c.is_whitespace() || c.is_alphanumeric() || "_(){}[]\"'".contains(c))
}

fn lex_until(chars: &[char], pos: &mut usize, close: Option<char>) -> Vec<TokenTree> {
    let mut out = Vec::new();
    loop {
        while *pos < chars.len() && chars[*pos].is_whitespace() {
            *pos += 1;
        }
        if *pos >= chars.len() {
            assert!(close.is_none(), "unclosed group");
            return out;
        }
        let lo = *pos;
        let c = chars[*pos];
        if Some(c) == close {
            *pos += 1;
            return out;
        }
        let kind = if c == '(' || c == '{' || c == '[' {
            *pos += 1;
            let (delimiter, end) = match c {
                '(' => (Delimiter::Parenthesis, ')'),
                '{' => (Delimiter::Brace, '}'),
                _ => (Delimiter::Bracket, ']'),
            };
            let inner = lex_until(chars, pos, Some(end));
            TokenNode::Group(delimiter, TokenStream::from_trees(inner))
        } else if c == '"' {
            *pos += 1;
            while chars[*pos] != '"' {
                if chars[*pos] == '\\' {
                    *pos += 1;
                }
                *pos += 1;
            }
            *pos += 1;
            TokenNode::Literal(chars[lo..*pos].iter().collect())
        } else if c.is_ascii_digit() {
            while *pos < chars.len() && (chars[*pos].is_alphanumeric() || chars[*pos] == '_') {
                *pos += 1;
            }
            TokenNode::Literal(chars[lo..*pos].iter().collect())
        } else if c.is_alphabetic() || c == '_' {
            while *pos < chars.len() && (chars[*pos].is_alphanumeric() || chars[*pos] == '_') {
                *pos += 1;
            }
            TokenNode::Term(chars[lo..*pos].iter().collect())
        } else {
            *pos += 1;
            let joint = *pos < chars.len() && is_punct(chars[*pos]);
            TokenNode::Op(c, if joint { Spacing::Joint } else { Spacing::Alone })
        };
        out.push(TokenTree::new(Span::new(lo, *pos), kind));
    }
}

fn lex(src: &str) -> TokenStream {
    let chars: Vec<char> = src.chars().collect();
    let mut pos = 0;
    TokenStream::from_trees(lex_until(&chars, &mut pos, None))
}

fn text_of(stream: &TokenStream) -> String {
    let mut out = Vec::new();
    for tree in &stream.trees {
        out.push(match &tree.kind {
            TokenNode::Group(Delimiter::Parenthesis, inner) => format!("({})", text_of(inner)),
            TokenNode::Group(Delimiter::Brace, inner) => format!("{{{}}}", text_of(inner)),
            TokenNode::Group(Delimiter::Bracket, inner) => format!("[{}]", text_of(inner)),
            TokenNode::Group(Delimiter::Invisible, inner) => text_of(inner),
            TokenNode::Term(text) => text.clone(),
            TokenNode::Op(c, _) => c.to_string(),
            TokenNode::Literal(text) => text.clone(),
        });
    }
    out.join(" ")
}

fn parse_ok(src: &str) -> Vec<Markup> {
    match parse(lex(src)) {
        Ok(markups) => markups,
        Err(e) => panic!("{} failed: {}", src, e.message()),
    }
}

fn parse_err(src: &str) -> ParseError {
    match parse(lex(src)) {
        Ok(markups) => panic!("{} parsed: {:?}", src, markups),
        Err(e) => e,
    }
}

fn literal_content(markup: &Markup) -> &str {
    match markup {
        Markup::Literal { content, .. } => content,
        other => panic!("no literal: {:?}", other),
    }
}

fn element(markup: &Markup) -> (&TokenStream, &Attrs, Option<&Markup>) {
    match markup {
        Markup::Element { name, attrs, body } => (name, attrs, body.as_deref()),
        other => panic!("no element: {:?}", other),
    }
}

fn block(markup: &Markup) -> &Block {
    match markup {
        Markup::Block(block) => block,
        other => panic!("no block: {:?}", other),
    }
}

fn special_of(markup: &Markup) -> &Special {
    match markup {
        Markup::Special(special) => special,
        other => panic!("no special: {:?}", other),
    }
}

#[test]
fn empty_input_gives_no_markup() {
    assert_eq!(parse_ok(""), vec![]);
    assert_eq!(parse_ok(";;;"), vec![]);
}

#[test]
fn literals_and_semicolons_give_flat_literals() {
    let markups = parse_ok(r#""a" ; "b\n" ;; "c" "d""#);
    assert_eq!(markups.len(), 4);
    assert_eq!(literal_content(&markups[0]), "a");
    assert_eq!(literal_content(&markups[1]), "b\n");
    assert_eq!(literal_content(&markups[2]), "c");
    assert_eq!(literal_content(&markups[3]), "d");
    assert_eq!(
        markups[1],
        Markup::Literal { content: "b\n".to_string(), span: Span::new(6, 11) }
    );
}

#[test]
fn if_else_if_else_has_three_segments() {
    let markups = parse_ok(r#"@if COND1 { "a" } @else if COND2 { "b" } @else { "c" }"#);
    assert_eq!(markups.len(), 1);
    let segments = match &markups[0] {
        Markup::If { segments } => segments,
        other => panic!("no if: {:?}", other),
    };
    assert_eq!(segments.len(), 3);
    assert_eq!(text_of(&segments[0].head), "if COND1");
    assert_eq!(text_of(&segments[1].head), "else if COND2");
    assert_eq!(text_of(&segments[2].head), "else");
    assert_eq!(segments[2].head.trees.len(), 1);
    for (segment, content) in segments.iter().zip(["a", "b", "c"]) {
        assert_eq!(segment.body.markups.len(), 1);
        assert_eq!(literal_content(&segment.body.markups[0]), content);
    }
}

#[test]
fn if_chain_ends_where_no_else_follows() {
    let markups = parse_ok(r#"@if a { } "x" @if b { } @else { } "y""#);
    assert_eq!(markups.len(), 4);
    assert!(matches!(&markups[0], Markup::If { segments } if segments.len() == 1));
    assert_eq!(literal_content(&markups[1]), "x");
    assert!(matches!(&markups[2], Markup::If { segments } if segments.len() == 2));
    assert_eq!(literal_content(&markups[3]), "y");
}

#[test]
fn else_without_body_fails() {
    let e = parse_err(r#"@if a { "x" } @else"#);
    assert_eq!(e.kind, ErrorKind::ExpectedElseBody);
    assert_eq!(e.found, None);
    assert_eq!(e.message(), "expected body for @else");
    assert_eq!(e.class(), ErrorClass::UnexpectedEndOfInput);

    let e = parse_err(r#"@if a { "x" } @else "y""#);
    assert_eq!(e.kind, ErrorKind::ExpectedElseBody);
    assert_eq!(e.message(), "expected body for @else");
    assert_eq!(e.class(), ErrorClass::InvalidSyntax);
    assert_eq!(e.found.map(|t| t.kind), Some(TokenNode::Literal("\"y\"".to_string())));
}

#[test]
fn if_without_body_fails() {
    let e = parse_err("@if a == b");
    assert_eq!(e.kind, ErrorKind::EndOfIf);
    assert_eq!(e.message(), "unexpected end of @if expression");
    assert_eq!(e.class(), ErrorClass::UnexpectedEndOfInput);
    let e = parse_err("@if a { } @else if b");
    assert_eq!(e.kind, ErrorKind::EndOfIf);
}

#[test]
fn element_with_classes_and_id() {
    let markups = parse_ok("div.foo.bar#baz { }");
    assert_eq!(markups.len(), 1);
    let (name, attrs, body) = element(&markups[0]);
    assert_eq!(text_of(name), "div");
    let classes: Vec<String> = attrs.classes_static.iter().map(text_of).collect();
    assert_eq!(classes, ["foo", "bar"]);
    let ids: Vec<String> = attrs.ids.iter().map(text_of).collect();
    assert_eq!(ids, ["baz"]);
    assert!(attrs.classes_toggled.is_empty());
    assert!(attrs.attrs.is_empty());
    let body = block(body.expect("a body"));
    assert!(body.markups.is_empty());
    assert_eq!(body.span, Span::new(16, 19));
}

#[test]
fn void_element_with_attributes() {
    let markups = parse_ok(r#"input type="text" checked?[is_checked] /;"#);
    assert_eq!(markups.len(), 1);
    let (name, attrs, body) = element(&markups[0]);
    assert_eq!(text_of(name), "input");
    assert!(body.is_none());
    assert!(attrs.classes_static.is_empty() && attrs.ids.is_empty());
    assert_eq!(attrs.attrs.len(), 2);
    assert_eq!(text_of(&attrs.attrs[0].name), "type");
    match &attrs.attrs[0].attr_type {
        AttrType::Normal { value } => assert_eq!(literal_content(value), "text"),
        other => panic!("not normal: {:?}", other),
    }
    assert_eq!(text_of(&attrs.attrs[1].name), "checked");
    match &attrs.attrs[1].attr_type {
        AttrType::Empty { toggler: Some(toggler) } => {
            assert_eq!(text_of(&toggler.cond), "is_checked");
            assert_eq!(toggler.cond_span, Span::new(26, 38));
        }
        other => panic!("no toggler: {:?}", other),
    }
}

#[test]
fn void_element_ends_with_semicolon_or_slash() {
    let markups = parse_ok("br; hr / p { }");
    assert_eq!(markups.len(), 3);
    assert!(element(&markups[0]).2.is_none());
    assert!(element(&markups[1]).2.is_none());
    assert!(element(&markups[2]).2.is_some());
}

#[test]
fn element_takes_one_markup_as_body() {
    let markups = parse_ok(r#"p "a" "b""#);
    assert_eq!(markups.len(), 2);
    let (_, _, body) = element(&markups[0]);
    assert_eq!(literal_content(body.unwrap()), "a");
    assert_eq!(literal_content(&markups[1]), "b");

    let markups = parse_ok("a b;");
    assert_eq!(markups.len(), 1);
    let (name, attrs, body) = element(&markups[0]);
    assert_eq!(text_of(name), "a");
    assert_eq!(*attrs, Attrs::new());
    let (inner, _, inner_body) = element(body.unwrap());
    assert_eq!(text_of(inner), "b");
    assert!(inner_body.is_none());
}

#[test]
fn match_with_expression_and_block_arms() {
    let markups = parse_ok(r#"@match x { 1 => "one", _ => { "other" } }"#);
    assert_eq!(markups.len(), 1);
    let (head, arms, arms_span) = match &markups[0] {
        Markup::Match { head, arms, arms_span } => (head, arms, arms_span),
        other => panic!("no match: {:?}", other),
    };
    assert_eq!(text_of(head), "match x");
    assert_eq!(*arms_span, Span::new(9, 41));
    assert_eq!(arms.len(), 2);
    assert_eq!(text_of(&arms[0].head), "1 = >");
    assert_eq!(arms[0].body.markups.len(), 1);
    match &arms[0].body.markups[0] {
        Markup::Splice { expr } => assert_eq!(text_of(expr), "\"one\""),
        other => panic!("no splice: {:?}", other),
    }
    assert_eq!(arms[0].body.span, Span::new(16, 21));
    assert_eq!(text_of(&arms[1].head), "_ = >");
    assert_eq!(arms[1].body.markups.len(), 1);
    assert_eq!(literal_content(&arms[1].body.markups[0]), "other");
}

#[test]
fn match_arm_comma_after_block_is_optional() {
    for src in [
        "@match x { a => { } b => { } }",
        "@match x { a => { }, b => { }, }",
        "@match x { a => { }, b => { } }",
    ] {
        let markups = parse_ok(src);
        match &markups[0] {
            Markup::Match { arms, .. } => {
                assert_eq!(arms.len(), 2);
                assert_eq!(text_of(&arms[1].head), "b = >");
            }
            other => panic!("no match: {:?}", other),
        }
    }
}

#[test]
fn match_expression_body_spans_first_to_last_token() {
    let markups = parse_ok("@match x { Some(y) if y > 1 => y + 1 , }");
    match &markups[0] {
        Markup::Match { arms, .. } => {
            assert_eq!(arms.len(), 1);
            assert_eq!(text_of(&arms[0].head), "Some (y) if y > 1 = >");
            assert_eq!(arms[0].body.span, Span::new(31, 36));
            match &arms[0].body.markups[..] {
                [Markup::Splice { expr }] => assert_eq!(text_of(expr), "y + 1"),
                other => panic!("unexpected body: {:?}", other),
            }
        }
        other => panic!("no match: {:?}", other),
    }
}

#[test]
fn match_expression_begins_with_any_token() {
    let markups = parse_ok("@match x { a => , b , }");
    match &markups[0] {
        Markup::Match { arms, .. } => {
            assert_eq!(arms.len(), 1);
            match &arms[0].body.markups[..] {
                [Markup::Splice { expr }] => assert_eq!(text_of(expr), ", b"),
                other => panic!("unexpected body: {:?}", other),
            }
        }
        other => panic!("no match: {:?}", other),
    }
}

#[test]
fn match_arrow_needs_adjacent_tokens() {
    let e = parse_err("@match x { a = > { } }");
    assert_eq!(e.kind, ErrorKind::EndOfMatchPattern);
    assert_eq!(e.message(), "unexpected end of @match pattern");
    let markups = parse_ok("@match x { a = b => { } }");
    match &markups[0] {
        Markup::Match { arms, .. } => assert_eq!(text_of(&arms[0].head), "a = b = >"),
        other => panic!("no match: {:?}", other),
    }
}

#[test]
fn match_failures() {
    let e = parse_err("@match x y");
    assert_eq!(e.kind, ErrorKind::EndOfMatch);
    assert_eq!(e.message(), "unexpected end of @match expression");
    let e = parse_err("@match x { a => }");
    assert_eq!(e.kind, ErrorKind::EndOfMatchArm);
    assert_eq!(e.message(), "unexpected end of @match arm");
    let e = parse_err("@match x { a => b }");
    assert_eq!(e.kind, ErrorKind::EndOfMatchArm);
    let e = parse_err("@match x { a => b c }");
    assert_eq!(e.kind, ErrorKind::EndOfMatchArm);
    assert_eq!(e.class(), ErrorClass::UnexpectedEndOfInput);
    let e = parse_err("@match x { a b }");
    assert_eq!(e.kind, ErrorKind::EndOfMatchPattern);
}

#[test]
fn match_without_arms() {
    let markups = parse_ok("@match x { }");
    assert!(matches!(&markups[0], Markup::Match { arms, .. } if arms.is_empty()));
}

#[test]
fn while_keeps_its_head() {
    let markups = parse_ok(r#"@while let Some(x) = it.next() { (x) }"#);
    let special = special_of(&markups[0]);
    assert_eq!(text_of(&special.head), "while let Some (x) = it . next ()");
    assert_eq!(special.body.markups.len(), 1);
    let e = parse_err("@while x");
    assert_eq!(e.kind, ErrorKind::EndOfWhile);
    assert_eq!(e.message(), "unexpected end of @while expression");
}

#[test]
fn for_needs_in_before_its_body() {
    let markups = parse_ok("@for x in xs { (x) }");
    let special = special_of(&markups[0]);
    assert_eq!(text_of(&special.head), "for x in xs");

    let markups = parse_ok("@for S { a } in xs.iter() { (a) }");
    let special = special_of(&markups[0]);
    assert_eq!(text_of(&special.head), "for S {a} in xs . iter ()");
    assert_eq!(special.body.markups.len(), 1);

    let e = parse_err("@for x { }");
    assert_eq!(e.kind, ErrorKind::EndOfFor);
    assert_eq!(e.message(), "unexpected end of @for expression");
    let e = parse_err("@for x in xs");
    assert_eq!(e.kind, ErrorKind::EndOfFor);
    assert_eq!(e.class(), ErrorClass::UnexpectedEndOfInput);
}

#[test]
fn let_is_kept_whole() {
    let markups = parse_ok(r#"@let x = f(1) + 2; "a""#);
    assert_eq!(markups.len(), 2);
    match &markups[0] {
        Markup::Let { tokens } => assert_eq!(text_of(tokens), "let x = f (1) + 2 ;"),
        other => panic!("no let: {:?}", other),
    }
    let markups = parse_ok("{ @let (a, b) = c; }");
    assert!(matches!(&block(&markups[0]).markups[..], [Markup::Let { .. }]));
}

#[test]
fn let_failures() {
    let e = parse_err("@let x");
    assert_eq!(e.kind, ErrorKind::EndOfLet);
    assert_eq!(e.message(), "unexpected end of @let expression");
    let e = parse_err("@let x = 1");
    assert_eq!(e.kind, ErrorKind::EndOfLet);
    let e = parse_err("@let x ; y = 1");
    assert_eq!(e.kind, ErrorKind::EndOfLet);
    assert_eq!(e.class(), ErrorClass::UnexpectedEndOfInput);
}

#[test]
fn let_only_works_inside_a_block() {
    let e = parse_err("p @let x = 1;");
    assert_eq!(e.kind, ErrorKind::LetOutsideBlock);
    assert_eq!(e.message(), "@let only works inside a block");
    assert_eq!(e.class(), ErrorClass::MisplacedConstruct);
    let e = parse_err("a href=@let x = 1; ;");
    assert_eq!(e.kind, ErrorKind::LetOutsideBlock);
}

#[test]
fn unknown_keyword_is_named() {
    let e = parse_err("@unless x { }");
    assert_eq!(e.kind, ErrorKind::UnknownKeyword);
    assert_eq!(e.message(), "unknown keyword `@unless`");
    assert_eq!(e.class(), ErrorClass::UnknownKeyword);
    let e = parse_err("@else { }");
    assert_eq!(e.message(), "unknown keyword `@else`");
}

#[test]
fn at_needs_a_keyword() {
    let e = parse_err("@");
    assert_eq!(e.kind, ErrorKind::ExpectedKeyword);
    assert_eq!(e.message(), "expected keyword after `@`");
    assert_eq!(e.class(), ErrorClass::UnexpectedEndOfInput);
    let e = parse_err("@ \"x\"");
    assert_eq!(e.kind, ErrorKind::ExpectedKeyword);
    assert_eq!(e.class(), ErrorClass::InvalidSyntax);
}

#[test]
fn invalid_syntax() {
    for src in ["[a]", "+", "p =", "1 2"] {
        let e = parse_err(src);
        if src == "1 2" {
            assert_eq!(e.kind, ErrorKind::ExpectedString);
            assert_eq!(e.message(), "expected string");
        } else {
            assert_eq!(e.kind, ErrorKind::InvalidSyntax, "{}", src);
            assert_eq!(e.message(), "invalid syntax");
        }
        assert_eq!(e.class(), ErrorClass::InvalidSyntax);
    }
    let group = TokenTree::new(
        Span::new(0, 0),
        TokenNode::Group(Delimiter::Invisible, lex("\"a\"")),
    );
    let e = parse(TokenStream::from_trees(vec![group])).unwrap_err();
    assert_eq!(e.kind, ErrorKind::InvalidSyntax);
}

#[test]
fn end_of_input_where_a_markup_is_due() {
    for src in ["p", "p.a", "p a=", "p a?", "p #x [y]"] {
        let e = parse_err(src);
        if src == "p #x [y]" {
            assert_eq!(e.kind, ErrorKind::InvalidSyntax);
        } else {
            assert_eq!(e.kind, ErrorKind::EndOfInput, "{}", src);
            assert_eq!(e.message(), "unexpected end of input");
            assert_eq!(e.class(), ErrorClass::UnexpectedEndOfInput);
        }
    }
}

#[test]
fn element_is_refused_as_attribute_value() {
    let e = parse_err(r#"a href=b { } "x""#);
    assert_eq!(e.kind, ErrorKind::ElementInAttribute);
    assert_eq!(e.message(), "element not allowed inside an attribute value");
    assert_eq!(e.class(), ErrorClass::MisplacedConstruct);
    assert_eq!(e.found.map(|t| t.kind), Some(TokenNode::Term("b".to_string())));
    let e = parse_err(r#"a href={ b; } "x""#);
    assert_eq!(e.kind, ErrorKind::ElementInAttribute);
    let e = parse_err(r#"a href=@if c { b; } ;"#);
    assert_eq!(e.kind, ErrorKind::ElementInAttribute);
}

#[test]
fn attribute_context_ends_with_the_value() {
    let markups = parse_ok(r#"a href="x" b; "#);
    let (_, attrs, body) = element(&markups[0]);
    assert_eq!(attrs.attrs.len(), 1);
    assert_eq!(text_of(element(body.unwrap()).0), "b");

    let markups = parse_ok(r#"a href=(url) title={ "t" (u) } { }"#);
    let (_, attrs, _) = element(&markups[0]);
    assert_eq!(attrs.attrs.len(), 2);
    assert!(matches!(
        &attrs.attrs[0],
        Attribute { attr_type: AttrType::Normal { value: Markup::Splice { .. } }, .. }
    ));
    assert!(matches!(
        &attrs.attrs[1],
        Attribute { attr_type: AttrType::Normal { value: Markup::Block(_) }, .. }
    ));
}

#[test]
fn names_take_hyphens_and_a_namespace() {
    let markups = parse_ok(r#"my-el data-a-b="1x" xml:lang="en" svg:a-b? ;"#);
    let (name, attrs, _) = element(&markups[0]);
    assert_eq!(text_of(name), "my - el");
    let names: Vec<String> = attrs.attrs.iter().map(|a| text_of(&a.name)).collect();
    assert_eq!(names, ["data - a - b", "xml : lang", "svg : a - b"]);
    assert!(matches!(attrs.attrs[2].attr_type, AttrType::Empty { toggler: None }));

    let markups = parse_ok("a-- - b- ;");
    assert_eq!(text_of(element(&markups[0]).0), "a - - - b -");

    let markups = parse_ok("ns:tag;");
    assert_eq!(text_of(element(&markups[0]).0), "ns : tag");
}

#[test]
fn name_needs_an_identifier() {
    let e = parse_err("p.\"x\"");
    assert_eq!(e.kind, ErrorKind::ExpectedIdentifier);
    assert_eq!(e.message(), "expected identifier");
    assert_eq!(e.class(), ErrorClass::InvalidSyntax);
    let e = parse_err("p#");
    assert_eq!(e.kind, ErrorKind::ExpectedIdentifier);
    assert_eq!(e.class(), ErrorClass::UnexpectedEndOfInput);
    let e = parse_err("ns:1");
    assert_eq!(e.kind, ErrorKind::ExpectedIdentifier);
}

#[test]
fn failed_attribute_reads_nothing() {
    let e = parse_err("div a:.b;");
    assert_eq!(e.kind, ErrorKind::ExpectedIdentifier);
    assert_eq!(e.found.map(|t| t.kind), Some(TokenNode::Op('.', Spacing::Alone)));
}

#[test]
fn classes_with_and_without_condition() {
    let markups = parse_ok("p.a[x > 1].b.c-d[y]#e;");
    let (_, attrs, _) = element(&markups[0]);
    let toggled: Vec<(String, String)> = attrs
        .classes_toggled
        .iter()
        .map(|(name, toggler)| (text_of(name), text_of(&toggler.cond)))
        .collect();
    assert_eq!(
        toggled,
        [("a".to_string(), "x > 1".to_string()), ("c - d".to_string(), "y".to_string())]
    );
    let classes: Vec<String> = attrs.classes_static.iter().map(text_of).collect();
    assert_eq!(classes, ["b"]);
    assert_eq!(attrs.ids.len(), 1);
}

#[test]
fn opaque_tokens_are_kept() {
    let src = r#"(a + b[0]) @if x.y(1) { } @for (i, v) in items { } @let q = {1}; p.c[t == "s"] ;"#;
    let input = lex(src);
    let markups = parse(input.clone()).unwrap();
    assert_eq!(markups.len(), 5);
    let inner = |index: usize| match &input.trees[index].kind {
        TokenNode::Group(_, stream) => stream.clone(),
        other => panic!("no group: {:?}", other),
    };
    assert_eq!(markups[0], Markup::Splice { expr: inner(0) });
    match &markups[1] {
        Markup::If { segments } => assert_eq!(segments[0].head, input.slice(2, 7)),
        other => panic!("no if: {:?}", other),
    }
    assert_eq!(special_of(&markups[2]).head, input.slice(9, 13));
    assert_eq!(markups[3], Markup::Let { tokens: input.slice(15, 20) });
    let (_, attrs, _) = element(&markups[4]);
    assert_eq!(attrs.classes_toggled[0].0, input.slice(22, 23));
    assert_eq!(attrs.classes_toggled[0].1.cond, inner(23));
}

#[test]
fn truncated_inputs_fail_at_the_end() {
    for src in [
        r#"@if a { "x" } @else if b { "y" } @else { "z" }"#,
        r#"div.a#b c="d" e?[f] { p; }"#,
        r#"@for x in xs { (x) } @while y { } @match z { 1 => { } }"#,
        r#"@let a = 1; x:y-z a-b=(c) ;"#,
        r#""a" p "b" q r s;"#,
    ] {
        let all = lex(src);
        assert!(parse(all.clone()).is_ok(), "{}", src);
        for cut in 0..all.trees.len() {
            match parse(all.slice(0, cut)) {
                Ok(_) => {}
                Err(e) => {
                    assert_eq!(e.found, None, "{} cut at {}", src, cut);
                    assert_eq!(e.class(), ErrorClass::UnexpectedEndOfInput);
                }
            }
        }
        let e = parse(all.slice(0, all.trees.len() - 1)).unwrap_err();
        assert_eq!(e.class(), ErrorClass::UnexpectedEndOfInput);
    }
}

#[test]
fn nested_blocks() {
    let markups = parse_ok(r#"{ "a" { p; ; "b" } }"#);
    let outer = block(&markups[0]);
    assert_eq!(outer.markups.len(), 2);
    assert_eq!(outer.span, Span::new(0, 20));
    let inner = block(&outer.markups[1]);
    assert_eq!(inner.markups.len(), 2);
    assert_eq!(inner.span, Span::new(6, 18));
}

#[test]
fn first_failure_is_returned() {
    let e = parse_err(r#""a" @nope "b" @if"#);
    assert_eq!(e.message(), "unknown keyword `@nope`");
    let e = parse_err(r#"{ p { 1 } } @if"#);
    assert_eq!(e.kind, ErrorKind::ExpectedString);
    assert_eq!(e.found.map(|t| t.span), Some(Span::new(6, 7)));
}

#[test]
fn parser_steps() {
    let input = lex(r#"a-b "x" c"#);
    let mut parser = Parser::new(&input);
    assert_eq!(parser.peek(), Some(&input.trees[0]));
    let (first, second) = parser.peek2().unwrap();
    assert_eq!((first, second), (&input.trees[0], Some(&input.trees[1])));
    let mut attempt = parser;
    assert_eq!(attempt.name().unwrap(), input.slice(0, 3));
    assert_eq!(parser.peek(), Some(&input.trees[0]));
    parser.commit(attempt);
    assert_eq!(parser.peek(), Some(&input.trees[3]));
    assert_eq!(parser.attr_toggler(), None);
    parser.advance2();
    assert_eq!(parser.peek(), None);
    assert_eq!(parser.peek2(), None);
    assert_eq!(parser.next(), None);
    parser.advance();
    assert_eq!(parser.name().unwrap_err().kind, ErrorKind::ExpectedIdentifier);
}

#[test]
fn literal_markup_follows_the_value() {
    let tree = TokenTree::new(Span::new(3, 8), TokenNode::Literal("\"a\"".to_string()));
    assert_eq!(
        literal_markup(Some("a".to_string()), &tree),
        Ok(Markup::Literal { content: "a".to_string(), span: Span::new(3, 8) })
    );
    let e = literal_markup(None, &tree).unwrap_err();
    assert_eq!(e.kind, ErrorKind::ExpectedString);
    assert_eq!(e.found, Some(tree.clone()));
}

#[test]
fn malformed_string_literal_is_no_string() {
    for text in ["\"abc", "\"a\\q\"", "\"a\"b", "r", "'a'", "b\"a\"", "1.5"] {
        let tree = TokenTree::new(Span::new(0, 1), TokenNode::Literal(text.to_string()));
        let e = parse(TokenStream::from_trees(vec![tree])).unwrap_err();
        assert_eq!(e.kind, ErrorKind::ExpectedString, "{}", text);
    }
    let tree = TokenTree::new(Span::new(0, 1), TokenNode::Literal("r#\"a\"b\"#".to_string()));
    let markups = parse(TokenStream::from_trees(vec![tree])).unwrap();
    assert_eq!(literal_content(&markups[0]), "a\"b");
}

#[test]
fn span_join_covers_both() {
    assert_eq!(Span::new(3, 5).join(Span::new(8, 9)), Span::new(3, 9));
    assert_eq!(Span::new(8, 9).join(Span::new(3, 5)), Span::new(3, 9));
    assert_eq!(Span::new(1, 10).join(Span::new(3, 5)), Span::new(1, 10));
    assert_ne!(BufferBorrow::NeedBorrow, BufferBorrow::AlreadyBorrowed);
}
