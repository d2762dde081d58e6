use rune_item_mod::ast::{ItemMod, ItemModBody, Items, Visibility};
use rune_item_mod::parse::parse_item_mod;
use rune_item_mod::parser::{Expected, ParseError, Parser};
use rune_item_mod::span::Span;
use rune_item_mod::token::{Kind, Token};

/// Builds a token stream from words separated by single spaces.
fn lex(text: &str) -> Vec<Token> {
    let mut out = Vec::new();
    let mut pos: u32 = 0;
    for word in text.split(' ').filter(|w| !w.is_empty()) {
        let kind = match word {
            "mod" => Kind::Mod,
            "pub" => Kind::Pub,
            "{" => Kind::OpenBrace,
            "}" => Kind::CloseBrace,
            "[" => Kind::OpenBracket,
            "]" => Kind::CloseBracket,
            "(" => Kind::OpenParen,
            ")" => Kind::CloseParen,
            ";" => Kind::SemiColon,
            "#" => Kind::Pound,
            "!" => Kind::Bang,
            "=" => Kind::Eq,
            _ => Kind::Ident,
        };
        let len = word.len() as u32;
        out.push(Token::new(kind, Span::new(pos, pos + len)));
        pos += len + 1;
    }
    out
}

fn parse(text: &str) -> Result<ItemMod, ParseError> {
    parse_item_mod(lex(text))
}

fn depth(m: &ItemMod) -> usize {
    match &m.body {
        ItemModBody::EmptyBody(_) => 0,
        ItemModBody::InlineBody(b) => match &b.file.items {
            Items::Nil => 1,
            Items::Cons(inner, _) => 1 + depth(inner),
        },
    }
}

fn nested(levels: usize) -> String {
    let mut text = String::new();
    for _ in 0..levels {
        text.push_str("mod m { ");
    }
    for _ in 0..levels {
        text.push_str("} ");
    }
    text
}

#[test]
fn inline_body_without_attributes() {
    let text = "mod ruins { }";
    let item = parse(text).unwrap();
    assert_eq!(item.attributes.len(), 0);
    assert_eq!(item.id, None);
    match &item.body {
        ItemModBody::InlineBody(b) => {
            assert_eq!(b.file.attributes.len(), 0);
            assert_eq!(b.file.items, Items::Nil);
        }
        ItemModBody::EmptyBody(_) => panic!("expected an inline body"),
    }
    assert_eq!(item.token_vec(), lex(text));
}

#[test]
fn outer_attribute_is_kept() {
    let text = "# [ cfg ( test ) ] mod tests { }";
    let item = parse(text).unwrap();
    assert_eq!(item.attributes.len(), 1);
    assert_eq!(item.attributes[0].content.len(), 4);
    assert!(item.attributes[0].bang.is_none());
    assert_eq!(item.token_vec(), lex(text));
}

#[test]
fn inner_attribute_stays_in_body() {
    let text = "mod whiskey_bravo { # ! [ allow ( dead_code ) ] mod x { } }";
    let item = parse(text).unwrap();
    assert_eq!(item.attributes.len(), 0);
    match &item.body {
        ItemModBody::InlineBody(b) => {
            assert_eq!(b.file.attributes.len(), 1);
            assert!(b.file.attributes[0].bang.is_some());
            assert!(matches!(b.file.items, Items::Cons(..)));
        }
        ItemModBody::EmptyBody(_) => panic!("expected an inline body"),
    }
    assert_eq!(item.token_vec(), lex(text));
}

#[test]
fn outer_attribute_not_in_nested_file() {
    let text = "# [ a ] mod x { # ! [ b ] # [ c ] mod y ; }";
    let item = parse(text).unwrap();
    assert_eq!(item.attributes.len(), 1);
    match &item.body {
        ItemModBody::InlineBody(b) => {
            assert_eq!(b.file.attributes.len(), 1);
            match &b.file.items {
                Items::Cons(inner, rest) => {
                    assert_eq!(inner.attributes.len(), 1);
                    assert_eq!(**rest, Items::Nil);
                }
                Items::Nil => panic!("expected an item"),
            }
        }
        ItemModBody::EmptyBody(_) => panic!("expected an inline body"),
    }
}

#[test]
fn empty_body_consumes_no_braces() {
    let text = "mod x ;";
    let item = parse(text).unwrap();
    assert!(matches!(item.body, ItemModBody::EmptyBody(t) if t.kind == Kind::SemiColon));
    assert_eq!(item.token_vec().len(), 3);
    assert_eq!(item.token_vec(), lex(text));
}

#[test]
fn public_item_round_trips() {
    let text = "# [ doc = x ] pub mod a { mod b ; mod c { } }";
    let item = parse(text).unwrap();
    assert!(matches!(item.visibility, Visibility::Public(_)));
    assert_eq!(item.token_vec(), lex(text));
}

#[test]
fn nesting_depth_one() {
    let item = parse(&nested(1)).unwrap();
    assert_eq!(depth(&item), 1);
    assert_eq!(item.token_vec(), lex(&nested(1)));
}

#[test]
fn nesting_depth_two() {
    let item = parse(&nested(2)).unwrap();
    assert_eq!(depth(&item), 2);
    assert_eq!(item.token_vec(), lex(&nested(2)));
}

#[test]
fn nesting_depth_fifty() {
    let item = parse(&nested(50)).unwrap();
    assert_eq!(depth(&item), 50);
    assert_eq!(item.token_vec(), lex(&nested(50)));
}

#[test]
fn body_choice_follows_next_token() {
    assert!(matches!(parse("mod a { }").unwrap().body, ItemModBody::InlineBody(_)));
    assert!(matches!(parse("mod a ;").unwrap().body, ItemModBody::EmptyBody(_)));
}

#[test]
fn missing_body_names_both_choices() {
    let err = parse("mod a").unwrap_err();
    assert_eq!(err.expected, Expected::ModBody);
    assert_eq!(err.span, Span::point(5));
    let err = parse("mod a ]").unwrap_err();
    assert_eq!(err.expected, Expected::ModBody);
    assert_eq!(err.span, Span::new(6, 7));
}

#[test]
fn missing_keyword_is_an_error() {
    let err = parse("a ;").unwrap_err();
    assert_eq!(err.expected, Expected::Token(Kind::Mod));
    assert_eq!(err.span, Span::new(0, 1));
}

#[test]
fn missing_name_is_an_error() {
    let err = parse("mod ;").unwrap_err();
    assert_eq!(err.expected, Expected::Token(Kind::Ident));
}

#[test]
fn unclosed_body_is_an_error() {
    let err = parse("mod a { mod b ;").unwrap_err();
    assert_eq!(err.expected, Expected::Token(Kind::CloseBrace));
}

#[test]
fn trailing_tokens_are_an_error() {
    let err = parse("mod a ; mod b ;").unwrap_err();
    assert_eq!(err.expected, Expected::Token(Kind::Eof));
    assert_eq!(err.span, Span::new(8, 11));
}

#[test]
fn unclosed_attribute_is_an_error() {
    let err = parse("# [ a mod b ;").unwrap_err();
    assert_eq!(err.expected, Expected::Token(Kind::CloseBracket));
}

#[test]
fn name_span_covers_keyword_and_name() {
    let item = parse("# [ a ] mod foo { }").unwrap();
    assert_eq!(item.name_span(), Span::new(8, 15));
    assert_eq!(item.span(), Span::new(0, 19));
    assert_eq!(item.body.span(), Span::new(16, 19));
}

#[test]
fn name_span_covers_visibility_and_name() {
    let item = parse("pub mod foo ;").unwrap();
    assert_eq!(item.name_span(), Span::new(0, 11));
    assert_eq!(item.span(), Span::new(0, 13));
    let outer = item.span();
    let name = item.name_span();
    assert!(outer.start <= name.start && name.end <= outer.end);
    assert!(name.end <= item.body.span().start);
}

#[test]
fn parser_lookahead_and_expect() {
    let mut p = Parser::new(lex("mod a"));
    assert_eq!(p.nth(0), Kind::Mod);
    assert_eq!(p.nth(1), Kind::Ident);
    assert_eq!(p.nth(2), Kind::Eof);
    assert!(p.expect(Kind::Ident).is_err());
    assert_eq!(p.cursor, 0);
    let t = p.expect(Kind::Mod).unwrap();
    assert_eq!(t.span, Span::new(0, 3));
    assert_eq!(p.cursor, 1);
    assert!(!p.is_eof());
    p.bump();
    assert!(p.is_eof());
}

#[test]
fn join_covers_both_spans() {
    let a = Span::new(4, 9);
    let b = Span::new(2, 5);
    assert_eq!(a.join(b), Span::new(2, 9));
    assert_eq!(b.join(a), Span::new(2, 9));
}

#[test]
fn several_items_and_attributes_round_trip() {
    let text = "mod a { # ! [ x ] # ! [ y ] pub mod b ; # [ z ] # [ w ] mod c { mod d ; } mod e ; }";
    let item = parse(text).unwrap();
    match &item.body {
        ItemModBody::InlineBody(b) => {
            assert_eq!(b.file.attributes.len(), 2);
            let mut count = 0;
            let mut items = &b.file.items;
            while let Items::Cons(inner, rest) = items {
                count += 1;
                if count == 2 {
                    assert_eq!(inner.attributes.len(), 2);
                    assert_eq!(depth(inner), 1);
                }
                items = rest;
            }
            assert_eq!(count, 3);
        }
        ItemModBody::EmptyBody(_) => panic!("expected an inline body"),
    }
    assert_eq!(item.token_vec(), lex(text));
}

#[test]
fn non_item_in_body_is_an_error() {
    let err = parse("mod a { b }").unwrap_err();
    assert_eq!(err.expected, Expected::Token(Kind::Mod));
    assert_eq!(err.span, Span::new(8, 9));
}

#[test]
fn inner_attribute_before_item_is_an_error() {
    let err = parse("# ! [ a ] mod b ;").unwrap_err();
    assert_eq!(err.expected, Expected::Token(Kind::Mod));
}

#[test]
fn clone_keeps_the_tree() {
    let text = "# [ a ] pub mod x { # ! [ b ] mod y { mod z ; } }";
    let item = parse(text).unwrap();
    let copy = item.clone();
    assert_eq!(copy, item);
    assert_eq!(copy.token_vec(), lex(text));
    let body = item.body.clone();
    assert_eq!(body, item.body);
}

#[test]
fn error_at_end_of_input_points_past_last_token() {
    let err = parse("mod a {").unwrap_err();
    assert_eq!(err.expected, Expected::Token(Kind::CloseBrace));
    assert_eq!(err.span, Span::point(7));
    let err = parse("").unwrap_err();
    assert_eq!(err.span, Span::point(0));
}

#[test]
fn missing_open_brace_after_peek_is_an_error() {
    let mut p = Parser::new(lex("; }"));
    let err = rune_item_mod::ast::ItemInlineBody::parse(&mut p).unwrap_err();
    assert_eq!(err.expected, Expected::Token(Kind::OpenBrace));
    assert_eq!(err.span, Span::new(0, 1));
}

#[test]
fn missing_name_at_end_points_past_keyword() {
    let err = parse("mod").unwrap_err();
    assert_eq!(err.expected, Expected::Token(Kind::Ident));
    assert_eq!(err.span, Span::point(3));
}
