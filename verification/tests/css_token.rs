use saba_core::error::Error;
use saba_core::renderer::css::token::{CssNumber, CssToken, CssTokenizer};

/// The value of a number token as a float: the digits before the point
/// from the left, then each digit after it with a tenth of the weight of
/// the one before.
fn float_of(n: &CssNumber) -> f64 {
    let digits = n.digits();
    let whole = digits.len() - n.scale();
    let mut num = 0f64;
    let mut factor = 1f64;
    for (i, d) in digits.iter().enumerate() {
        if i < whole {
            num = num * 10.0 + *d as f64;
        } else {
            factor *= 0.1;
            num += *d as f64 * factor;
        }
    }
    num
}

fn number(digits: &[u8], scale: usize) -> CssToken {
    CssToken::Number(CssNumber::new(digits.to_vec(), scale).expect("a number"))
}

fn ident(s: &str) -> CssToken {
    CssToken::Ident(s.to_string())
}

fn all_tokens(css: &str) -> Result<Vec<CssToken>, Error> {
    let mut t = CssTokenizer::new(css.to_string());
    let mut tokens = Vec::new();
    while let Some(token) = t.next()? {
        tokens.push(token);
    }
    Ok(tokens)
}

fn written(tokens: &[CssToken]) -> String {
    let mut s = String::new();
    for t in tokens {
        match t {
            CssToken::HashToken(v) => s.push_str(v),
            CssToken::Delim(c) => s.push(*c),
            CssToken::Number(n) => {
                let digits = n.digits();
                let whole = digits.len() - n.scale();
                for (i, d) in digits.iter().enumerate() {
                    if i == whole {
                        s.push('.');
                    }
                    s.push((b'0' + d) as char);
                }
            }
            CssToken::Colon => s.push(':'),
            CssToken::SemiColon => s.push(';'),
            CssToken::OpenParenthesis => s.push('('),
            CssToken::CloseParenthesis => s.push(')'),
            CssToken::OpenCurly => s.push('{'),
            CssToken::CloseCurly => s.push('}'),
            CssToken::Ident(v) => s.push_str(v),
            CssToken::StringToken(v) => {
                s.push('"');
                s.push_str(v);
                s.push('"');
            }
            CssToken::AtKeyword(v) => {
                s.push('@');
                s.push_str(v);
            }
        }
        s.push(' ');
    }
    s
}

#[test]
fn test_empty() {
    let style = "".to_string();
    let mut t = CssTokenizer::new(style);
    assert!(t.next().expect("no error").is_none());
}

#[test]
fn test_one_rule() {
    let style = "p { color: red; }".to_string();
    let mut t = CssTokenizer::new(style);
    let expected = [
        CssToken::Ident("p".to_string()),
        CssToken::OpenCurly,
        CssToken::Ident("color".to_string()),
        CssToken::Colon,
        CssToken::Ident("red".to_string()),
        CssToken::SemiColon,
        CssToken::CloseCurly,
    ];
    for e in expected {
        assert_eq!(Ok(Some(e.clone())), t.next());
    }
    assert!(t.next().expect("no error").is_none());
}

#[test]
fn test_id_selector() {
    let style = "#id { color: red; }".to_string();
    let mut t = CssTokenizer::new(style);
    let expected = [
        CssToken::HashToken("#id".to_string()),
        CssToken::OpenCurly,
        CssToken::Ident("color".to_string()),
        CssToken::Colon,
        CssToken::Ident("red".to_string()),
        CssToken::SemiColon,
        CssToken::CloseCurly,
    ];
    for e in expected {
        assert_eq!(Ok(Some(e.clone())), t.next());
    }
    assert!(t.next().expect("no error").is_none());
}

#[test]
fn test_class_selector() {
    let style = ".class { color: red; }".to_string();
    let mut t = CssTokenizer::new(style);
    let expected = [
        CssToken::Delim('.'),
        CssToken::Ident("class".to_string()),
        CssToken::OpenCurly,
        CssToken::Ident("color".to_string()),
        CssToken::Colon,
        CssToken::Ident("red".to_string()),
        CssToken::SemiColon,
        CssToken::CloseCurly,
    ];
    for e in expected {
        assert_eq!(Ok(Some(e.clone())), t.next());
    }
    assert!(t.next().expect("no error").is_none());
}

#[test]
fn test_multiple_rules() {
    let style = "p { content: \"Hey\"; } h1 { font-size: 40; color: blue; }".to_string();
    let mut t = CssTokenizer::new(style);
    let expected = [
        CssToken::Ident("p".to_string()),
        CssToken::OpenCurly,
        CssToken::Ident("content".to_string()),
        CssToken::Colon,
        CssToken::StringToken("Hey".to_string()),
        CssToken::SemiColon,
        CssToken::CloseCurly,
        CssToken::Ident("h1".to_string()),
        CssToken::OpenCurly,
        CssToken::Ident("font-size".to_string()),
        CssToken::Colon,
        number(&[4, 0], 0),
        CssToken::SemiColon,
        CssToken::Ident("color".to_string()),
        CssToken::Colon,
        CssToken::Ident("blue".to_string()),
        CssToken::SemiColon,
        CssToken::CloseCurly,
    ];
    for e in expected {
        let found = t.next();
        if let Ok(Some(CssToken::Number(n))) = &found {
            assert_eq!(float_of(n), 40.0);
        }
        assert_eq!(Ok(Some(e.clone())), found);
    }
    assert!(t.next().expect("no error").is_none());
}

#[test]
fn a_written_token_stream_gives_the_same_tokens_again() {
    for style in ["#id { color: red; }", "p { color: red; }", "a.b,c(1.5) @media 'x' -d_e: 12"] {
        let tokens = all_tokens(style).expect("tokens");
        let again = all_tokens(&written(&tokens)).expect("tokens");
        assert_eq!(tokens, again);
    }
    let tokens = all_tokens("#id { color: red; }").expect("tokens");
    assert_eq!(tokens[0], CssToken::HashToken("#id".to_string()));
}

#[test]
fn numbers_have_at_most_one_point() {
    assert_eq!(all_tokens("1.25"), Ok(vec![number(&[1, 2, 5], 2)]));
    assert_eq!(
        all_tokens("12.5.3"),
        Ok(vec![number(&[1, 2, 5], 1), CssToken::Delim('.'), number(&[3], 0)])
    );
    assert_eq!(all_tokens("7."), Ok(vec![number(&[7], 0)]));
    assert_eq!(all_tokens("007"), Ok(vec![number(&[0, 0, 7], 0)]));
    assert_eq!(all_tokens("40px"), Ok(vec![number(&[4, 0], 0), ident("px")]));
}

#[test]
fn a_number_token_has_the_value_of_its_digits() {
    let tokens = all_tokens("1.25 40 0.5").expect("tokens");
    let values: Vec<f64> = tokens
        .iter()
        .map(|t| match t {
            CssToken::Number(n) => float_of(n),
            _ => panic!("not a number"),
        })
        .collect();
    assert!((values[0] - 1.25).abs() < 1e-12);
    assert_eq!(values[1], 40.0);
    assert_eq!(values[2], 0.5);
}

#[test]
fn the_digits_of_a_number_are_read_as_one_integer() {
    let n = CssNumber::new(vec![1, 2, 5], 2).expect("a number");
    assert_eq!(n.numerator(), Some(125));
    assert_eq!(CssNumber::new(vec![], 0).expect("a number").numerator(), Some(0));
    let digits: Vec<u8> = "18446744073709551615".bytes().map(|b| b - b'0').collect();
    assert_eq!(CssNumber::new(digits, 0).expect("a number").numerator(), Some(u64::MAX));
    let digits: Vec<u8> = "18446744073709551616".bytes().map(|b| b - b'0').collect();
    assert_eq!(CssNumber::new(digits, 3).expect("a number").numerator(), None);
    let digits: Vec<u8> = "000000000000000000000000000042".bytes().map(|b| b - b'0').collect();
    assert_eq!(CssNumber::new(digits, 0).expect("a number").numerator(), Some(42));
}

#[test]
fn a_number_is_made_of_decimal_digits() {
    assert!(CssNumber::new(vec![1, 10], 0).is_none());
    assert!(CssNumber::new(vec![1], 2).is_none());
    let n = CssNumber::new(vec![1, 2, 3], 1).expect("a number");
    assert_eq!(n.digits(), vec![1, 2, 3]);
    assert_eq!(n.scale(), 1);
    assert_eq!(n.duplicate(), n);
}

#[test]
fn strings_end_at_their_own_quote() {
    assert_eq!(
        all_tokens("\"a'b\" 'c\"d'"),
        Ok(vec![
            CssToken::StringToken("a'b".to_string()),
            CssToken::StringToken("c\"d".to_string())
        ])
    );
}

#[test]
fn a_string_without_its_end_runs_to_the_end_of_the_input() {
    let mut t = CssTokenizer::new("p 'abc; }".to_string());
    assert_eq!(t.next(), Ok(Some(ident("p"))));
    assert_eq!(t.next(), Ok(Some(CssToken::StringToken("abc; }".to_string()))));
    assert_eq!(t.next(), Ok(None));
    assert_eq!(t.next(), Ok(None));
}

#[test]
fn an_at_sign_before_a_letter_starts_an_at_keyword() {
    assert_eq!(
        all_tokens("@media @ @1"),
        Ok(vec![
            CssToken::AtKeyword("media".to_string()),
            CssToken::Delim('@'),
            CssToken::Delim('@'),
            number(&[1], 0)
        ])
    );
}

#[test]
fn a_hash_sign_ends_an_identifier_and_starts_a_hash_token() {
    assert_eq!(
        all_tokens("a#b-c_d#e #"),
        Ok(vec![
            ident("a"),
            CssToken::HashToken("#b-c_d".to_string()),
            CssToken::HashToken("#e".to_string()),
            CssToken::HashToken("#".to_string())
        ])
    );
}

#[test]
fn punctuation_gives_fixed_tokens() {
    assert_eq!(
        all_tokens("(),.:;{}"),
        Ok(vec![
            CssToken::OpenParenthesis,
            CssToken::CloseParenthesis,
            CssToken::Delim(','),
            CssToken::Delim('.'),
            CssToken::Colon,
            CssToken::SemiColon,
            CssToken::OpenCurly,
            CssToken::CloseCurly
        ])
    );
}

#[test]
fn all_whitespace_is_skipped() {
    assert_eq!(all_tokens(" \t\r\n\u{a0}\u{3000}p\u{2003}"), Ok(vec![ident("p")]));
}

#[test]
fn a_character_that_starts_no_token_is_an_error_and_is_skipped() {
    let mut t = CssTokenizer::new("p ! q".to_string());
    assert_eq!(t.next(), Ok(Some(ident("p"))));
    assert_eq!(
        t.next(),
        Err(Error::UnexpectedInput("char ! is not supported yet".to_string()))
    );
    assert_eq!(t.next(), Ok(Some(ident("q"))));
    assert_eq!(t.next(), Ok(None));
}

#[test]
fn a_token_has_a_copy() {
    for t in all_tokens("#a , 1.5 : ; ( ) { } b 'c' @d").expect("tokens") {
        assert_eq!(t.duplicate(), t);
    }
}
