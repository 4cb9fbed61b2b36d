use saba_core::renderer::dom::node::{Element, ElementKind, Node, NodeKind, Window};
use saba_core::renderer::html::html_tag_attribute::{AttributeField, HtmlTagAttribute};
use saba_core::renderer::html::parser::HtmlParser;
use saba_core::renderer::html::token::HtmlTokenizer;

fn parse(html: &str) -> Window {
    HtmlParser::new(HtmlTokenizer::new(html.to_string())).construct_tree()
}

fn node(window: &Window, id: usize) -> &Node {
    window.node(id).expect("a node of the tree")
}

fn children(window: &Window, id: usize) -> Vec<usize> {
    let mut ids = Vec::new();
    let mut next = node(window, id).first_child();
    while let Some(child) = next {
        ids.push(child);
        next = node(window, child).next_sibling();
    }
    ids
}

fn element(tag: &str) -> Node {
    Node::new(NodeKind::Element(Element::new(tag, Vec::new()).expect("a known element")))
}

fn text_of(window: &Window, id: usize) -> String {
    match node(window, id).node_kind() {
        NodeKind::Text(s) => s,
        _ => panic!("not a text node"),
    }
}

fn kind_of(window: &Window, id: usize) -> Option<ElementKind> {
    node(window, id).get_element_kind()
}

/// What the tree looks like, written with brackets.
fn outline(window: &Window, id: usize) -> String {
    let mut s = match node(window, id).node_kind() {
        NodeKind::Document => "#document".to_string(),
        NodeKind::Element(e) => format!("{:?}", e.kind()),
        NodeKind::Text(t) => format!("{:?}", t),
    };
    let below = children(window, id);
    if !below.is_empty() {
        s.push('[');
        for (i, c) in below.iter().enumerate() {
            if i > 0 {
                s.push(' ');
            }
            s.push_str(&outline(window, *c));
        }
        s.push(']');
    }
    s
}

fn check_links(window: &Window) {
    for id in 0..window.len() {
        let n = node(window, id);
        let below = children(window, id);
        assert_eq!(n.last_child(), below.last().copied());
        let mut previous = None;
        for c in below {
            assert_eq!(node(window, c).parent(), Some(id));
            assert_eq!(node(window, c).previous_sibling(), previous);
            previous = Some(c);
        }
        if let Some(next) = n.next_sibling() {
            assert_eq!(node(window, next).previous_sibling(), Some(id));
        }
        if let Some(previous) = n.previous_sibling() {
            assert_eq!(node(window, previous).next_sibling(), Some(id));
        }
        if let Some(parent) = n.parent() {
            assert!(parent < id);
            assert!(children(window, parent).contains(&id));
        }
        if let NodeKind::Text(text) = n.node_kind() {
            assert!(!text.is_empty());
            assert_eq!(n.first_child(), None);
            let parent = n.parent().expect("a parent");
            assert!(node(window, parent).get_element_kind().is_some());
            if let Some(next) = n.next_sibling() {
                assert!(!matches!(node(window, next).node_kind(), NodeKind::Text(_)));
            }
        }
    }
    assert_eq!(node(window, 0).parent(), None);
    assert!(matches!(node(window, 0).node_kind(), NodeKind::Document));
}

#[test]
fn parser_test_empty() {
    let html = "".to_string();
    let t = HtmlTokenizer::new(html);
    let window = HtmlParser::new(t).construct_tree();
    let expected = Node::new(NodeKind::Document);

    assert_eq!(&expected, node(&window, window.document()));
    assert_eq!(node(&window, window.document()).first_child(), None);
    assert_eq!(window.len(), 1);
}

#[test]
fn parser_test_body() {
    let html = "<html><head></head><body></body></html>".to_string();
    let t = HtmlTokenizer::new(html);
    let window = HtmlParser::new(t).construct_tree();
    let document = window.document();
    assert_eq!(&Node::new(NodeKind::Document), node(&window, document));

    let html = node(&window, document)
        .first_child()
        .expect("failed to get a first child of document");
    assert_eq!(&element("html"), node(&window, html));

    let head = node(&window, html)
        .first_child()
        .expect("failed to get a first child of html");
    assert_eq!(&element("head"), node(&window, head));

    let body = node(&window, head)
        .next_sibling()
        .expect("failed to get a next sibling of head");
    assert_eq!(&element("body"), node(&window, body));

    assert_eq!(node(&window, head).first_child(), None);
    assert_eq!(node(&window, body).first_child(), None);
    assert_eq!(outline(&window, 0), "#document[Html[Head Body]]");
    check_links(&window);
}

#[test]
fn test_text() {
    let html = "<html><head></head><body>text</body></html>".to_string();
    let t = HtmlTokenizer::new(html);
    let window = HtmlParser::new(t).construct_tree();
    let document = window.document();
    assert_eq!(&Node::new(NodeKind::Document), node(&window, document));

    let html = node(&window, document)
        .first_child()
        .expect("failed to get a first child of document");
    assert_eq!(&element("html"), node(&window, html));

    let head = node(&window, html)
        .first_child()
        .expect("failed to get a first child of document");
    let body = node(&window, head)
        .next_sibling()
        .expect("failed to get a next sibling of head");
    assert_eq!(&element("body"), node(&window, body));

    let text = node(&window, body)
        .first_child()
        .expect("failed to get a first child of document");
    assert_eq!(
        &Node::new(NodeKind::Text("text".to_string())),
        node(&window, text)
    );
    assert_eq!(text_of(&window, text), "text");
    check_links(&window);
}

#[test]
fn test_multiple_nodes() {
    let html = "<html><head></head><body><p><a foo=bar>text</a></p></body></html>".to_string();
    let t = HtmlTokenizer::new(html);
    let window = HtmlParser::new(t).construct_tree();
    let document = window.document();

    let html = node(&window, document)
        .first_child()
        .expect("failed to get a first child of document");
    let head = node(&window, html)
        .first_child()
        .expect("failed to get a first child of document");
    let body = node(&window, head)
        .next_sibling()
        .expect("failed to get a next sibling of head");
    assert_eq!(&element("body"), node(&window, body));

    let p = node(&window, body)
        .first_child()
        .expect("failed to get a first child of body");
    assert_eq!(&element("p"), node(&window, p));

    let mut attr = HtmlTagAttribute::new();
    attr.add_char('f', AttributeField::Name);
    attr.add_char('o', AttributeField::Name);
    attr.add_char('o', AttributeField::Name);
    attr.add_char('b', AttributeField::Value);
    attr.add_char('a', AttributeField::Value);
    attr.add_char('r', AttributeField::Value);
    let a = node(&window, p)
        .first_child()
        .expect("failed to get a first child of p");
    assert_eq!(
        &Node::new(NodeKind::Element(
            Element::new("a", vec![attr.clone()]).expect("a known element")
        )),
        node(&window, a)
    );
    let found = node(&window, a).get_element().expect("an element");
    assert_eq!(found.kind(), ElementKind::A);
    assert_eq!(found.attributes(), vec![attr]);

    let text = node(&window, a)
        .first_child()
        .expect("failed to get a first child of a");
    assert_eq!(
        &Node::new(NodeKind::Text("text".to_string())),
        node(&window, text)
    );
    assert_eq!(text_of(&window, text), "text");
    assert_eq!(outline(&window, 0), "#document[Html[Head Body[P[A[\"text\"]]]]]");
    check_links(&window);
}

#[test]
fn missing_html_head_and_body_are_put_in() {
    let window = parse("<p>hi</p>");
    assert_eq!(outline(&window, 0), "#document[Html[Head Body[P[\"hi\"]]]]");
    check_links(&window);
}

#[test]
fn a_stray_end_tag_closes_every_open_element() {
    let window = parse("<head><script>a</style>b<p>c</p>");
    assert_eq!(outline(&window, 0), "#document[Html[Head[Script[\"a\"]]] Body[P[\"c\"]]]");
    check_links(&window);
}

#[test]
fn text_before_the_first_tag_is_dropped() {
    let window = parse("  hello world");
    assert_eq!(outline(&window, 0), "#document");
    let window = parse("hello<p>world");
    assert_eq!(outline(&window, 0), "#document[Html[Head Body[P[\"world\"]]]]");
}

#[test]
fn whitespace_before_any_text_is_dropped_and_inside_text_is_kept() {
    let window = parse("<html><head></head><body>\n  a b \n</body></html>");
    assert_eq!(outline(&window, 0), "#document[Html[Head Body[\"a b \\n\"]]]");
}

#[test]
fn text_after_an_element_starts_a_new_text_node() {
    let window = parse("<body><p>one<a>two</a>three</p></body>");
    assert_eq!(
        outline(&window, 0),
        "#document[Html[Head Body[P[\"one\" A[\"two\"] \"three\"]]]]"
    );
    check_links(&window);
}

#[test]
fn siblings_are_chained_in_the_order_of_the_document() {
    let window = parse("<body><p>1</p><p>2</p><a>3</a></body>");
    assert_eq!(
        outline(&window, 0),
        "#document[Html[Head Body[P[\"1\"] P[\"2\"] A[\"3\"]]]]"
    );
    check_links(&window);
}

#[test]
fn style_text_in_the_head_becomes_a_text_node_of_the_style_element() {
    let window = parse("<html><head><style>p { color: red; }</style></head><body></body></html>");
    assert_eq!(
        outline(&window, 0),
        "#document[Html[Head[Style[\"p { color: red; }\"]] Body]]"
    );
    check_links(&window);
}

#[test]
fn script_and_style_are_elements_of_their_own_kind() {
    let window = parse("<head><script>1<2</script><style>a</style></head>");
    assert_eq!(
        outline(&window, 0),
        "#document[Html[Head[Script[\"1<2\"] Style[\"a\"]]]]"
    );
    let html = children(&window, 0)[0];
    let head = children(&window, html)[0];
    let below = children(&window, head);
    assert_eq!(kind_of(&window, below[0]), Some(ElementKind::Script));
    assert_eq!(kind_of(&window, below[1]), Some(ElementKind::Style));
}

#[test]
fn unknown_elements_are_left_out_and_their_text_is_kept() {
    let window = parse("<body><div>x</div></body>");
    assert_eq!(outline(&window, 0), "#document[Html[Head Body[\"x\"]]]");
}

#[test]
fn an_end_tag_for_body_without_an_open_body_closes_nothing() {
    let window = parse("<html><head></head><body></body></body><p>x</p>");
    assert_eq!(outline(&window, 0), "#document[Html[Head Body P[\"x\"]]]");
    check_links(&window);
}

#[test]
fn a_document_that_ends_early_keeps_what_was_built() {
    let window = parse("<html><head></head><body><p>par");
    assert_eq!(outline(&window, 0), "#document[Html[Head Body[P[\"par\"]]]]");
    let window = parse("<html><head></head><body><p class");
    assert_eq!(outline(&window, 0), "#document[Html[Head Body]]");
}

#[test]
fn malformed_input_ends_the_document() {
    let window = parse("<body><p>a</p b>c");
    assert_eq!(outline(&window, 0), "#document[Html[Head Body[P[\"a\"]]]]");
    check_links(&window);
}

#[test]
fn content_after_the_end_of_the_body_goes_into_what_is_still_open() {
    let window = parse("<html><head></head><body></body></html><p>late</p>");
    assert_eq!(outline(&window, 0), "#document[Html[Head Body P[\"late\"]]]");
    check_links(&window);
    let window = parse("<html><head></head><body></html><p>late</p>");
    assert_eq!(outline(&window, 0), "#document[Html[Head Body] P[\"late\"]]");
    check_links(&window);
}

#[test]
fn an_end_tag_for_html_closes_body_and_html_only_from_the_top() {
    let window = parse("<html><head></head><body><p></html>x</p>y");
    assert_eq!(outline(&window, 0), "#document[Html[Head Body[P[\"x\"] \"y\"]]]");
    check_links(&window);
}

#[test]
fn an_element_name_outside_the_set_is_an_error() {
    assert!(Element::new("div", Vec::new()).is_err());
    assert!(ElementKind::from_str("h1").is_err());
    assert_eq!(ElementKind::from_str("script"), Ok(ElementKind::Script));
    assert_eq!(ElementKind::from_str("style"), Ok(ElementKind::Style));
    assert_eq!(ElementKind::from_str("html"), Ok(ElementKind::Html));
    assert_eq!(ElementKind::from_str("head"), Ok(ElementKind::Head));
    assert_eq!(ElementKind::from_str("body"), Ok(ElementKind::Body));
    assert_eq!(ElementKind::from_str("p"), Ok(ElementKind::P));
    assert_eq!(ElementKind::from_str("a"), Ok(ElementKind::A));
}

#[test]
fn an_element_kind_is_parsed_from_its_name() {
    assert_eq!("p".parse::<ElementKind>(), Ok(ElementKind::P));
    assert_eq!("script".parse::<ElementKind>(), Ok(ElementKind::Script));
    assert_eq!("body".parse::<ElementKind>(), ElementKind::from_str("body"));
    assert_eq!("div".parse::<ElementKind>(), ElementKind::from_str("div"));
    assert!("P".parse::<ElementKind>().is_err());
}

#[test]
fn nodes_are_alike_by_their_kind() {
    assert_eq!(Node::new(NodeKind::Text("a".to_string())), Node::new(NodeKind::Text("b".to_string())));
    assert_ne!(Node::new(NodeKind::Document), Node::new(NodeKind::Text("b".to_string())));
    assert_ne!(element("p"), element("a"));
    assert_eq!(element("p"), element("p"));
}

#[test]
fn a_new_node_has_no_links_and_setters_set_them() {
    let mut n = Node::new(NodeKind::Document);
    assert_eq!(n.parent(), None);
    assert_eq!(n.first_child(), None);
    assert_eq!(n.last_child(), None);
    assert_eq!(n.previous_sibling(), None);
    assert_eq!(n.next_sibling(), None);
    assert_eq!(n.get_element_kind(), None);
    assert!(n.get_element().is_none());
    n.set_parent(Some(1));
    n.set_first_child(Some(2));
    n.set_last_child(Some(3));
    n.set_previous_sibling(Some(4));
    n.set_next_sibling(Some(5));
    assert_eq!(n.parent(), Some(1));
    assert_eq!(n.first_child(), Some(2));
    assert_eq!(n.last_child(), Some(3));
    assert_eq!(n.previous_sibling(), Some(4));
    assert_eq!(n.next_sibling(), Some(5));
}

#[test]
fn a_new_window_holds_the_document_alone() {
    let window = Window::new();
    assert_eq!(window.len(), 1);
    assert_eq!(window.document(), 0);
    assert!(window.node(1).is_none());
    assert_eq!(node(&window, 0), &Node::new(NodeKind::Document));
}
