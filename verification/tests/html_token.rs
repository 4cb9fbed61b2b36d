use saba_core::error::Error;
use saba_core::renderer::html::html_tag_attribute::{AttributeField, HtmlTagAttribute};
use saba_core::renderer::html::token::{HtmlToken, HtmlTokenizer};

fn attribute(name: &str, value: &str) -> HtmlTagAttribute {
    let mut a = HtmlTagAttribute::new();
    for c in name.chars() {
        a.add_char(c, AttributeField::Name);
    }
    for c in value.chars() {
        a.add_char(c, AttributeField::Value);
    }
    a
}

fn start(tag: &str, self_closing: bool, attributes: Vec<HtmlTagAttribute>) -> HtmlToken {
    HtmlToken::StartTag { tag: tag.to_string(), self_closing, attributes }
}

fn end(tag: &str) -> HtmlToken {
    HtmlToken::EndTag { tag: tag.to_string() }
}

fn all_tokens(html: &str) -> (Vec<HtmlToken>, Option<Error>) {
    let mut tokenizer = HtmlTokenizer::new(html.to_string());
    let mut tokens = Vec::new();
    loop {
        match tokenizer.next() {
            Ok(Some(t)) => tokens.push(t),
            Ok(None) => return (tokens, None),
            Err(e) => return (tokens, Some(e)),
        }
    }
}

fn chars(text: &str) -> Vec<HtmlToken> {
    text.chars().map(HtmlToken::Char).collect()
}

#[test]
fn token_test_empty() {
    let html = "".to_string();
    let mut tokenizer = HtmlTokenizer::new(html);
    assert!(tokenizer.next().expect("no error").is_none());
}

#[test]
fn test_start_and_end_tag() {
    let html = "<body></body>".to_string();
    let mut tokenizer = HtmlTokenizer::new(html);
    let expected = [
        HtmlToken::StartTag {
            tag: "body".to_string(),
            self_closing: false,
            attributes: Vec::new(),
        },
        HtmlToken::EndTag {
            tag: "body".to_string(),
        },
    ];
    for e in expected {
        assert_eq!(Ok(Some(e)), tokenizer.next());
    }
}

#[test]
fn test_attributes() {
    let html = "<p class=\"A\" id='B' foo=bar></p>".to_string();
    let mut tokenizer = HtmlTokenizer::new(html);
    let mut attr1 = HtmlTagAttribute::new();
    attr1.add_char('c', AttributeField::Name);
    attr1.add_char('l', AttributeField::Name);
    attr1.add_char('a', AttributeField::Name);
    attr1.add_char('s', AttributeField::Name);
    attr1.add_char('s', AttributeField::Name);
    attr1.add_char('A', AttributeField::Value);

    let mut attr2 = HtmlTagAttribute::new();
    attr2.add_char('i', AttributeField::Name);
    attr2.add_char('d', AttributeField::Name);
    attr2.add_char('B', AttributeField::Value);

    let mut attr3 = HtmlTagAttribute::new();
    attr3.add_char('f', AttributeField::Name);
    attr3.add_char('o', AttributeField::Name);
    attr3.add_char('o', AttributeField::Name);
    attr3.add_char('b', AttributeField::Value);
    attr3.add_char('a', AttributeField::Value);
    attr3.add_char('r', AttributeField::Value);

    let expected = [
        HtmlToken::StartTag {
            tag: "p".to_string(),
            self_closing: false,
            attributes: vec![attr1, attr2, attr3],
        },
        HtmlToken::EndTag {
            tag: "p".to_string(),
        },
    ];
    for e in expected {
        assert_eq!(Ok(Some(e)), tokenizer.next());
    }
}

#[test]
fn test_self_closing_tag() {
    let html = "<img />".to_string();
    let mut tokenizer = HtmlTokenizer::new(html);
    let expected = [HtmlToken::StartTag {
        tag: "img".to_string(),
        self_closing: true,
        attributes: Vec::new(),
    }];
    for e in expected {
        assert_eq!(Ok(Some(e)), tokenizer.next());
    }
}

#[test]
fn test_script_tag() {
    let html = "<script>js code;</script>".to_string();
    let mut tokenizer = HtmlTokenizer::new(html);
    let expected = [
        HtmlToken::StartTag {
            tag: "script".to_string(),
            self_closing: false,
            attributes: Vec::new(),
        },
        HtmlToken::Char('j'),
        HtmlToken::Char('s'),
        HtmlToken::Char(' '),
        HtmlToken::Char('c'),
        HtmlToken::Char('o'),
        HtmlToken::Char('d'),
        HtmlToken::Char('e'),
        HtmlToken::Char(';'),
        HtmlToken::EndTag {
            tag: "script".to_string(),
        },
    ];
    for e in expected {
        assert_eq!(Ok(Some(e)), tokenizer.next());
    }
}

#[test]
fn start_and_end_tag_are_the_whole_stream() {
    let (tokens, error) = all_tokens("<body></body>");
    assert_eq!(tokens, vec![start("body", false, vec![]), end("body")]);
    assert_eq!(error, None);
}

#[test]
fn attributes_keep_their_order_and_lose_their_quotes() {
    let (tokens, error) = all_tokens("<p class=\"A\" id='B' foo=bar></p>");
    assert_eq!(
        tokens,
        vec![
            start(
                "p",
                false,
                vec![attribute("class", "A"), attribute("id", "B"), attribute("foo", "bar")]
            ),
            end("p"),
        ]
    );
    assert_eq!(error, None);
}

#[test]
fn attribute_accessors_give_name_and_value() {
    let a = attribute("href", "x.html");
    assert_eq!(a.name(), "href");
    assert_eq!(a.value(), "x.html");
    assert_eq!(a.duplicate(), a);
}

#[test]
fn duplicate_attribute_names_are_kept() {
    let (tokens, _) = all_tokens("<a x=1 x=2>");
    assert_eq!(tokens, vec![start("a", false, vec![attribute("x", "1"), attribute("x", "2")])]);
}

#[test]
fn a_tag_has_the_attributes_that_are_written_in_their_order() {
    let (tokens, error) = all_tokens("<a x=\"1\" y=\"2\" x=\"3\" Z=\"\" w=\"a b>c\">");
    assert_eq!(
        tokens,
        vec![start(
            "a",
            false,
            vec![
                attribute("x", "1"),
                attribute("y", "2"),
                attribute("x", "3"),
                attribute("z", ""),
                attribute("w", "a b>c"),
            ]
        )]
    );
    assert_eq!(error, None);
}

#[test]
fn names_are_folded_to_lower_case_and_values_are_not() {
    let (tokens, _) = all_tokens("<DiV CLASS=AbC></DIV>");
    assert_eq!(
        tokens,
        vec![start("div", false, vec![attribute("class", "AbC")]), end("div")]
    );
}

#[test]
fn spaces_around_the_equals_sign_do_not_count() {
    let plain = all_tokens("<p a=b c='d'>x</p>");
    let spaced = all_tokens("<p a   =    b c    =  'd'>x</p>");
    assert_eq!(plain, spaced);
    assert_eq!(
        plain.0,
        vec![
            start("p", false, vec![attribute("a", "b"), attribute("c", "d")]),
            HtmlToken::Char('x'),
            end("p"),
        ]
    );
}

#[test]
fn longer_runs_of_spaces_between_attributes_change_no_token() {
    let plain = all_tokens("<p class=\"A\" id='B'></p>");
    let spaced = all_tokens("<p  class=\"A\"   id='B' ></p>");
    assert_eq!(plain, spaced);
    assert_eq!(
        plain.0,
        vec![start("p", false, vec![attribute("class", "A"), attribute("id", "B")]), end("p")]
    );
    assert_eq!(plain.1, None);

    let (tokens, error) = all_tokens("<p  a=b>");
    assert_eq!(tokens, vec![start("p", false, vec![attribute("a", "b")])]);
    assert_eq!(error, None);
    assert_eq!(all_tokens("<p a=b   c=d  e   =   'f'    >"), all_tokens("<p a=b c=d e='f'>"));
    assert_eq!(all_tokens("<img   />"), all_tokens("<img />"));
    assert_eq!(all_tokens("</p   >"), all_tokens("</p >"));
}

#[test]
fn text_is_one_token_for_each_character() {
    let (tokens, error) = all_tokens("a b\n");
    assert_eq!(tokens, chars("a b\n"));
    assert_eq!(error, None);
}

#[test]
fn a_less_than_sign_before_no_letter_is_dropped() {
    let (tokens, _) = all_tokens("1<2");
    assert_eq!(tokens, chars("12"));
}

#[test]
fn input_that_ends_inside_a_tag_gives_one_eof() {
    let mut tokenizer = HtmlTokenizer::new("<p class".to_string());
    assert_eq!(tokenizer.next(), Ok(Some(HtmlToken::Eof)));
    assert_eq!(tokenizer.next(), Ok(None));
    assert_eq!(tokenizer.next(), Ok(None));
}

#[test]
fn input_that_ends_after_a_less_than_sign_gives_eof() {
    let (tokens, error) = all_tokens("ab<");
    assert_eq!(tokens, vec![HtmlToken::Char('a'), HtmlToken::Char('b'), HtmlToken::Eof]);
    assert_eq!(error, None);
}

#[test]
fn input_that_ends_inside_a_quoted_value_gives_eof() {
    let (tokens, _) = all_tokens("<a href=\"x");
    assert_eq!(tokens, vec![HtmlToken::Eof]);
}

#[test]
fn an_attribute_on_an_end_tag_is_an_error() {
    let mut tokenizer = HtmlTokenizer::new("</p a>rest".to_string());
    assert_eq!(
        tokenizer.next(),
        Err(Error::UnexpectedInput("an end tag cannot have attributes".to_string()))
    );
    assert_eq!(tokenizer.next(), Ok(None));
}

#[test]
fn a_self_closing_end_tag_is_an_error() {
    let mut tokenizer = HtmlTokenizer::new("</p/>rest".to_string());
    assert_eq!(
        tokenizer.next(),
        Err(Error::UnexpectedInput("an end tag cannot be self-closing".to_string()))
    );
    assert_eq!(tokenizer.next(), Ok(None));
}

#[test]
fn an_end_tag_may_have_a_space_before_its_end() {
    let (tokens, error) = all_tokens("</p >");
    assert_eq!(tokens, vec![end("p")]);
    assert_eq!(error, None);
}

#[test]
fn script_text_keeps_its_less_than_signs() {
    let (tokens, error) = all_tokens("<script>a<b</script>c");
    let mut expected = vec![start("script", false, vec![])];
    expected.extend(chars("a<b"));
    expected.push(end("script"));
    expected.push(HtmlToken::Char('c'));
    assert_eq!(tokens, expected);
    assert_eq!(error, None);
}

#[test]
fn script_text_replays_an_end_tag_that_does_not_close() {
    let (tokens, error) = all_tokens("<script>x</sc y</script>");
    let mut expected = vec![start("script", false, vec![])];
    expected.extend(chars("x</sc y"));
    expected.push(end("script"));
    assert_eq!(tokens, expected);
    assert_eq!(error, None);
}

#[test]
fn script_text_keeps_a_slash_that_no_letter_follows() {
    let (tokens, _) = all_tokens("<script>1</2</script>");
    let mut expected = vec![start("script", false, vec![])];
    expected.extend(chars("1</2"));
    expected.push(end("script"));
    assert_eq!(tokens, expected);
}

#[test]
fn script_text_that_ends_in_a_tag_is_replayed_to_its_end() {
    let (tokens, error) = all_tokens("<script>a</b");
    let mut expected = vec![start("script", false, vec![])];
    expected.extend(chars("a</b"));
    expected.push(HtmlToken::Eof);
    assert_eq!(tokens, expected);
    assert_eq!(error, None);
}

#[test]
fn a_script_end_tag_is_folded_to_lower_case() {
    let (tokens, _) = all_tokens("<script></SCRIPT>");
    assert_eq!(tokens, vec![start("script", false, vec![]), end("script")]);
}
