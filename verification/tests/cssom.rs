use saba_core::error::Error;
use saba_core::renderer::css::cssom::{CssParser, Declaration, QualifiedRule, Selector, StyleSheet};
use saba_core::renderer::css::token::{CssNumber, CssToken, CssTokenizer};

fn parse(css: &str) -> Result<StyleSheet, Error> {
    CssParser::new(CssTokenizer::new(css.to_string())).parse_stylesheet()
}

fn selector(s: &Selector) -> String {
    match s {
        Selector::TypeSelector(n) => format!("type {}", n),
        Selector::ClassSelector(n) => format!("class {}", n),
        Selector::IdSelector(n) => format!("id {}", n),
        Selector::UnknownSelector => "unknown".to_string(),
    }
}

/// The rules as text: the selector, then each declaration.
fn outline(css: &str) -> Vec<String> {
    let sheet = parse(css).expect("a style sheet");
    sheet
        .rules
        .iter()
        .map(|r| {
            let mut s = selector(&r.selector);
            for d in &r.declarations {
                s.push_str(&format!(" | {} = {:?}", d.property, d.value));
            }
            s
        })
        .collect()
}

#[test]
fn an_empty_text_has_no_rules() {
    assert!(parse("").expect("a style sheet").rules.is_empty());
    assert!(parse("  \n ").expect("a style sheet").rules.is_empty());
}

#[test]
fn one_rule_with_one_declaration() {
    let sheet = parse("p { color: red; }").expect("a style sheet");
    assert_eq!(sheet.rules.len(), 1);
    let rule = &sheet.rules[0];
    assert!(matches!(&rule.selector, Selector::TypeSelector(n) if n == "p"));
    assert_eq!(rule.declarations.len(), 1);
    assert_eq!(rule.declarations[0].property, "color");
    assert_eq!(rule.declarations[0].value, CssToken::Ident("red".to_string()));
}

#[test]
fn the_three_kinds_of_selector() {
    assert_eq!(
        outline("p { a: b } .c { d: e } #f { g: h }"),
        vec![
            "type p | a = Ident(\"b\")",
            "class c | d = Ident(\"e\")",
            "id f | g = Ident(\"h\")"
        ]
    );
}

#[test]
fn rules_keep_their_order_and_values_their_token() {
    let sheet = parse("p { content: \"Hey\"; } h1 { font-size: 40; color: blue; }")
        .expect("a style sheet");
    assert_eq!(sheet.rules.len(), 2);
    let h1 = &sheet.rules[1];
    assert_eq!(h1.declarations.len(), 2);
    assert_eq!(h1.declarations[0].property, "font-size");
    assert_eq!(
        h1.declarations[0].value,
        CssToken::Number(CssNumber::new(vec![4, 0], 0).expect("a number"))
    );
    assert_eq!(h1.declarations[1].property, "color");
    assert_eq!(
        sheet.rules[0].declarations[0].value,
        CssToken::StringToken("Hey".to_string())
    );
}

#[test]
fn a_declaration_without_its_colon_is_skipped() {
    assert_eq!(
        outline("p { color red; width: 1; height 2; depth: 3 }"),
        vec!["type p | width = Number(CssNumber { digits: [1], scale: 0 }) | depth = Number(CssNumber { digits: [3], scale: 0 })"]
    );
    assert_eq!(outline("p { a; b: c }"), vec!["type p | b = Ident(\"c\")"]);
}

#[test]
fn a_declaration_that_the_input_ends_in_is_left_out() {
    assert_eq!(outline("p { a: b; c"), vec!["type p | a = Ident(\"b\")"]);
    assert_eq!(outline("p { a: b; c:"), vec!["type p | a = Ident(\"b\")"]);
    assert_eq!(outline("p { a: b; c: d"), vec!["type p | a = Ident(\"b\") | c = Ident(\"d\")"]);
}

#[test]
fn tokens_that_start_no_declaration_are_skipped() {
    assert_eq!(outline("p { ( 1 , a: b ) }"), vec!["type p | a = Ident(\"b\")"]);
}

#[test]
fn a_pseudo_class_is_skipped_and_the_type_is_kept() {
    assert_eq!(outline("a:hover { color: red }"), vec!["type a | color = Ident(\"red\")"]);
}

#[test]
fn an_at_rule_is_read_and_left_out() {
    assert_eq!(
        outline("@media screen { a: b } p { c: d }"),
        vec!["type p | c = Ident(\"d\")"]
    );
    assert!(outline("@import 'x'").is_empty());
}

#[test]
fn the_last_selector_before_the_block_is_the_rule_s() {
    assert_eq!(outline("p .c #d { a: b }"), vec!["id d | a = Ident(\"b\")"]);
}

#[test]
fn any_other_token_gives_no_selector_and_is_the_one_token_read() {
    assert_eq!(outline(": { a: b }"), vec!["unknown | a = Ident(\"b\")"]);
    assert_eq!(outline("1 { a: b }"), vec!["unknown | a = Ident(\"b\")"]);
    assert_eq!(outline("p , { a: b }"), vec!["unknown | a = Ident(\"b\")"]);
    assert_eq!(outline("( x { a: b }"), vec!["type x | a = Ident(\"b\")"]);
    assert_eq!(outline("p , q { a: b }"), vec!["type q | a = Ident(\"b\")"]);
    assert_eq!(
        outline(": { a: b } p { c: d }"),
        vec!["unknown | a = Ident(\"b\")", "type p | c = Ident(\"d\")"]
    );
}

#[test]
fn a_rule_without_a_block_is_no_rule() {
    assert!(outline("p").is_empty());
    assert_eq!(outline("p { a: b } q"), vec!["type p | a = Ident(\"b\")"]);
}

#[test]
fn a_dot_without_an_identifier_is_an_error() {
    assert_eq!(
        parse(". { a: b }").err(),
        Some(Error::UnexpectedInput("expected an identifier".to_string()))
    );
    assert_eq!(
        parse("p { a: b } .").err(),
        Some(Error::UnexpectedInput("expected an identifier".to_string()))
    );
}

#[test]
fn a_character_that_starts_no_token_is_an_error() {
    assert_eq!(
        parse("p { a: b } ! q { c: d }").err(),
        Some(Error::UnexpectedInput("char ! is not supported yet".to_string()))
    );
}

#[test]
fn the_builders_set_what_they_name() {
    let mut d = Declaration::new();
    assert_eq!(d.property, "");
    assert_eq!(d.value, CssToken::Ident(String::new()));
    d.set_property("color".to_string());
    d.set_value(CssToken::Colon);
    assert_eq!(d.property, "color");
    assert_eq!(d.value, CssToken::Colon);

    let mut r = QualifiedRule::new();
    assert!(matches!(&r.selector, Selector::TypeSelector(n) if n.is_empty()));
    assert!(r.declarations.is_empty());
    r.set_selector(Selector::UnknownSelector);
    r.set_declarations(vec![d]);
    assert!(matches!(r.selector, Selector::UnknownSelector));
    assert_eq!(r.declarations.len(), 1);

    let mut s = StyleSheet::new();
    assert!(s.rules.is_empty());
    s.set_rules(vec![r]);
    assert_eq!(s.rules.len(), 1);
}
