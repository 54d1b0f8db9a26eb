use maud_parser::ast::{Attrs, Markup, Special};
use maud_parser::error::{ErrorClass, ErrorKind, ParseError};
use maud_parser::grammar::Stop;
use maud_parser::parse::{is_stop, Parser};
use maud_parser::token::{Delimiter, Spacing, Span, TokenNode, TokenStream, TokenTree};

fn term_at(at: usize, text: &str) -> TokenTree {
    TokenTree::new(Span::new(at, at + 1), TokenNode::Term(text.to_string()))
}

fn op_at(at: usize, c: char, spacing: Spacing) -> TokenTree {
    TokenTree::new(Span::new(at, at + 1), TokenNode::Op(c, spacing))
}

fn string_at(at: usize, content: &str) -> TokenTree {
    TokenTree::new(Span::new(at, at + 1), TokenNode::Literal(format!("{:?}", content)))
}

fn group_at(at: usize, delimiter: Delimiter, trees: Vec<TokenTree>) -> TokenTree {
    TokenTree::new(
        Span::new(at, at + 1),
        TokenNode::Group(delimiter, TokenStream::from_trees(trees)),
    )
}

/// Words separated by blanks: `{}`, `()` and `[]` are empty groups, a word
/// in double quotes is a string, a word of letters is an identifier, `=>` is
/// an arrow, and any other single character is an operator on its own.
fn words(src: &str) -> TokenStream {
    let mut trees = Vec::new();
    for word in src.split_whitespace() {
        let at = trees.len();
        let first = word.chars().next().unwrap();
        match word {
            "{}" => trees.push(group_at(at, Delimiter::Brace, vec![])),
            "()" => trees.push(group_at(at, Delimiter::Parenthesis, vec![])),
            "[]" => trees.push(group_at(at, Delimiter::Bracket, vec![])),
            "=>" => {
                trees.push(op_at(at, '=', Spacing::Joint));
                trees.push(op_at(at + 1, '>', Spacing::Alone));
            }
            _ if first == '"' => trees.push(string_at(at, word.trim_matches('"'))),
            _ if first.is_alphabetic() => trees.push(term_at(at, word)),
            _ => trees.push(op_at(at, first, Spacing::Alone)),
        }
    }
    TokenStream::from_trees(trees)
}

fn after(parser: &Parser) -> Option<Span> {
    parser.peek().map(|tree| tree.span)
}

#[test]
fn token_stream_access() {
    let input = words("a . b {}");
    assert_eq!(input.len(), 4);
    assert_eq!(input.get(1), Some(&op_at(1, '.', Spacing::Alone)));
    assert_eq!(input.get(4), None);
    assert_eq!(input.slice(1, 3), TokenStream::from_trees(vec![
        op_at(1, '.', Spacing::Alone),
        term_at(2, "b"),
    ]));
    assert_eq!(input.slice(2, 2), TokenStream::new());
    assert_eq!(input.clone(), input);
    assert_eq!(TokenStream::new().len(), 0);
}

#[test]
fn token_predicates() {
    let joint = op_at(0, '=', Spacing::Joint);
    assert!(joint.is_op('=') && joint.is_joint_op('=') && !joint.is_op('>'));
    assert!(!op_at(0, '=', Spacing::Alone).is_joint_op('='));
    let word = term_at(0, "match");
    assert!(word.is_term() && word.is_word("match") && !word.is_word("matc"));
    assert!(!word.is_literal() && !word.is_group(Delimiter::Brace));
    assert_eq!(word.group_stream(), None);
    let group = group_at(0, Delimiter::Bracket, vec![term_at(1, "x")]);
    assert!(group.is_group(Delimiter::Bracket) && !group.is_group(Delimiter::Brace));
    assert_eq!(group.group_stream(), Some(&TokenStream::from_trees(vec![term_at(1, "x")])));
    assert!(string_at(0, "s").is_literal());
    assert_eq!(group.clone(), group);
}

#[test]
fn stops_of_a_scan() {
    assert!(is_stop(&group_at(0, Delimiter::Brace, vec![]), Stop::Brace));
    assert!(!is_stop(&group_at(0, Delimiter::Bracket, vec![]), Stop::Brace));
    assert!(is_stop(&term_at(0, "in"), Stop::In));
    assert!(!is_stop(&term_at(0, "inn"), Stop::In));
    assert!(is_stop(&op_at(0, '=', Spacing::Joint), Stop::Assign));
    assert!(is_stop(&op_at(0, ';', Spacing::Alone), Stop::Semicolon));
    assert!(is_stop(&op_at(0, ',', Spacing::Alone), Stop::Comma));
    assert!(!is_stop(&op_at(0, ';', Spacing::Alone), Stop::Comma));
}

#[test]
fn find_gives_the_first_stop_or_the_end() {
    let input = words("a , b {} , {}");
    let parser = Parser::new(&input);
    assert_eq!(parser.find(0, Stop::Comma), 1);
    assert_eq!(parser.find(2, Stop::Comma), 4);
    assert_eq!(parser.find(0, Stop::Brace), 3);
    assert_eq!(parser.find(5, Stop::Comma), 6);
    assert_eq!(parser.find(0, Stop::In), 6);
    assert_eq!(parser.find(9, Stop::Brace), 6);
    let input = words("a = > b => c =");
    let parser = Parser::new(&input);
    assert!(!parser.arrow_here(1));
    assert!(parser.arrow_here(4));
    assert!(!parser.arrow_here(7));
    assert!(!parser.arrow_here(8));
    assert_eq!(parser.find_arrow(0), 4);
    assert_eq!(parser.find_arrow(5), 8);
}

#[test]
fn names_end_where_nothing_continues_them() {
    let input = words("a - b c : d - - e : f");
    let mut parser = Parser::new(&input);
    assert_eq!(parser.namespaced_name(), Ok(input.slice(0, 3)));
    assert_eq!(parser.name(), Ok(input.slice(3, 4)));
    assert_eq!(parser.name().unwrap_err(), ParseError::new(ErrorKind::ExpectedIdentifier, input.get(4)));
    parser.advance();
    let mut ahead = parser;
    assert_eq!(ahead.pass_name(), Ok(()));
    assert_eq!(after(&ahead), Some(Span::new(9, 10)));
    assert_eq!(parser.pass_namespaced_name(), Ok(()));
    assert_eq!(after(&parser), None);
    assert_eq!(parser.taken(5), input.slice(5, 11));
}

#[test]
fn toggler_is_optional() {
    let input = TokenStream::from_trees(vec![
        group_at(0, Delimiter::Bracket, vec![term_at(1, "on")]),
        group_at(2, Delimiter::Brace, vec![]),
    ]);
    let mut parser = Parser::new(&input);
    let toggler = parser.attr_toggler().unwrap();
    assert_eq!(toggler.cond, TokenStream::from_trees(vec![term_at(1, "on")]));
    assert_eq!(toggler.cond_span, Span::new(0, 1));
    assert_eq!(parser.attr_toggler(), None);
    assert_eq!(after(&parser), Some(Span::new(2, 3)));
}

#[test]
fn let_runs_to_the_semicolon_behind_the_assignment() {
    let input = words("let a ; b = c = d ; e ;");
    let mut parser = Parser::new(&input);
    parser.advance();
    assert_eq!(parser.let_expr(0), Ok(Markup::Let { tokens: input.slice(0, 9) }));
    assert_eq!(after(&parser), Some(Span::new(9, 10)));
}

#[test]
fn head_runs_to_the_first_braces() {
    let input = words("while a () [] {} b {}");
    let mut parser = Parser::new(&input);
    parser.advance();
    let special = parser.head_body(0, ErrorKind::EndOfWhile).unwrap();
    assert_eq!(special.head, input.slice(0, 4));
    assert_eq!(special.body.span, Span::new(4, 5));
    assert_eq!(after(&parser), Some(Span::new(5, 6)));
    let mut again = Parser::new(&input);
    again.advance();
    assert_eq!(again.while_expr(0), Ok(Markup::Special(special)));
    parser.advance2();
    let e = parser.head_body(5, ErrorKind::EndOfFor).unwrap_err();
    assert_eq!(e, ParseError::new(ErrorKind::EndOfFor, None));
}

#[test]
fn if_branches_are_added_in_order() {
    let input = words("if a {} @ else if {} @ else {} @ else {}");
    let mut parser = Parser::new(&input);
    parser.advance();
    let mut segments: Vec<Special> = Vec::new();
    assert_eq!(parser.if_expr(0, &mut segments), Ok(()));
    let heads: Vec<TokenStream> = segments.iter().map(|s| s.head.clone()).collect();
    assert_eq!(heads, [input.slice(0, 2), input.slice(4, 6), input.slice(8, 9)]);
    assert_eq!(after(&parser), Some(Span::new(10, 11)));
    assert_eq!(parser.else_if_expr(&mut segments), Ok(()));
    assert_eq!(segments.len(), 4);
    assert_eq!(parser.else_if_expr(&mut segments), Ok(()));
    assert_eq!(segments.len(), 4);
    assert_eq!(after(&parser), None);
}

#[test]
fn for_and_match_heads() {
    let input = words("for a in b {} match c {}");
    let mut parser = Parser::new(&input);
    parser.advance();
    let special = match parser.for_expr(0) {
        Ok(Markup::Special(special)) => special,
        other => panic!("{:?}", other),
    };
    assert_eq!(special.head, input.slice(0, 4));
    parser.advance();
    assert_eq!(
        parser.match_expr(5),
        Ok(Markup::Match { head: input.slice(5, 7), arms: vec![], arms_span: Span::new(7, 8) })
    );
    assert_eq!(after(&parser), None);
}

#[test]
fn arms_one_by_one() {
    let input = words("a => {} b => {} , c => d e , f => g");
    let mut parser = Parser::new(&input);
    let first = parser.match_arm().unwrap().unwrap();
    assert_eq!(first.head, input.slice(0, 3));
    assert_eq!(after(&parser), Some(Span::new(4, 5)));
    let second = parser.match_arm().unwrap().unwrap();
    assert_eq!(second.head, input.slice(4, 7));
    assert_eq!(after(&parser), Some(Span::new(9, 10)));
    let third = parser.match_arm().unwrap().unwrap();
    assert_eq!(third.head, input.slice(9, 12));
    assert_eq!(third.body.markups, vec![Markup::Splice { expr: input.slice(12, 14) }]);
    assert_eq!(third.body.span, Span::new(12, 14));
    let e = parser.match_arm().unwrap_err();
    assert_eq!(e, ParseError::new(ErrorKind::EndOfMatchArm, None));

    let input = words("a => b , c => {}");
    let mut parser = Parser::new(&input);
    let arms = parser.match_arms().unwrap();
    assert_eq!(arms.len(), 2);
    assert_eq!(parser.match_arm(), Ok(None));

    let mut parser = Parser::new(&input);
    parser.advance2();
    parser.advance();
    let arm = parser.arm_body(0).unwrap();
    assert_eq!(arm.head, input.slice(0, 3));
    let mut parser = Parser::new(&input);
    parser.advance2();
    parser.advance();
    assert_eq!(parser.arm_expr(0), Ok(arm));
    let mut parser = Parser::new(&input);
    parser.advance2();
    parser.advance2();
    parser.advance2();
    parser.advance2();
    parser.advance2();
    assert_eq!(parser.peek(), None);
    assert_eq!(parser.arm_expr(4).unwrap_err().kind, ErrorKind::EndOfMatchArm);
    assert_eq!(parser.arm_body(4).unwrap_err().kind, ErrorKind::EndOfMatchArm);
}

#[test]
fn attributes_end_where_none_begins() {
    let input = words("a . b # c d ? e = \"v\" f ;");
    let mut parser = Parser::new(&input);
    parser.advance();
    let attrs = parser.attrs().unwrap();
    assert_eq!(attrs.classes_static, [input.slice(2, 3)]);
    assert_eq!(attrs.ids, [input.slice(4, 5)]);
    assert_eq!(attrs.attrs.len(), 2);
    assert_eq!(after(&parser), Some(Span::new(10, 11)));
    assert_eq!(parser.attrs(), Ok(Attrs::new()));
    assert_eq!(after(&parser), Some(Span::new(10, 11)));

    let mut parser = Parser::new(&input);
    parser.advance();
    match parser.element(0) {
        Ok(Markup::Element { name, attrs: found, body: Some(body) }) => {
            assert_eq!(name, input.slice(0, 1));
            assert_eq!(found, attrs);
            assert_eq!(
                *body,
                Markup::Element { name: input.slice(10, 11), attrs: Attrs::new(), body: None }
            );
        }
        other => panic!("{:?}", other),
    }
    assert_eq!(after(&parser), None);
}

#[test]
fn block_keeps_the_context() {
    let inner = words("p ;");
    let outer = words("a = {}");
    let parser = Parser::new(&outer);
    let block = parser.block(&inner, Span::new(7, 9)).unwrap();
    assert_eq!(block.span, Span::new(7, 9));
    assert_eq!(block.markups.len(), 1);
    let nested = parser.with_input(&inner).markups().unwrap();
    assert_eq!(nested, block.markups);
}

#[test]
fn special_reads_the_keyword() {
    let input = words("@ while {} @ for");
    let mut parser = Parser::new(&input);
    parser.advance();
    assert!(matches!(parser.special(), Ok(Markup::Special(_))));
    assert_eq!(parser.markup().unwrap_err().kind, ErrorKind::EndOfFor);
    let literal = string_at(3, "x\ty");
    assert_eq!(
        parser.literal(&literal),
        Ok(Markup::Literal { content: "x\ty".to_string(), span: Span::new(3, 4) })
    );
    assert_eq!(
        parser.literal(&term_at(3, "x")).unwrap_err(),
        ParseError::new(ErrorKind::ExpectedString, Some(&term_at(3, "x")))
    );
}

#[test]
fn failures_at_a_token_and_at_the_end() {
    let input = words("a b");
    let mut parser = Parser::new(&input);
    let e = parser.error(ErrorKind::InvalidSyntax);
    assert_eq!(e.found, Some(term_at(0, "a")));
    assert_eq!(e.class(), ErrorClass::InvalidSyntax);
    assert_eq!(parser.error_at_end(ErrorKind::EndOfIf).found, None);
    parser.advance2();
    assert_eq!(parser.error(ErrorKind::InvalidSyntax).class(), ErrorClass::UnexpectedEndOfInput);
    assert_eq!(parser.at(1), Some(&term_at(1, "b")));
    assert_eq!(parser.at(2), None);
    assert_eq!(ErrorKind::EndOfInput.text(), "unexpected end of input");
    let e = ParseError::new(ErrorKind::UnknownKeyword, None);
    assert_eq!(e.message(), "unknown keyword `@`");
    assert_eq!(ParseError::new(ErrorKind::BufferName, None).class(), ErrorClass::MalformedBufferArgument);
    assert_eq!(
        ParseError::new(ErrorKind::UnknownKeyword, Some(&term_at(0, "a"))).class(),
        ErrorClass::UnknownKeyword
    );
}
