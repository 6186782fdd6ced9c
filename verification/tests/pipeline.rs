use html_dom::dom::DomElem;
use html_dom::dom::NodeType;
use html_dom::dom::TAG;
use html_dom::parser::parse_string_to_dom;
use html_dom::parser::tokenize;
use html_dom::parser::ParseError;
use html_dom::parser::Token;

#[test]
fn tokenize_div_pair() {
    let toks = tokenize("<div></div>").unwrap();
    assert_eq!(
        toks,
        vec![
            Token::OpenAngle,
            Token::Word("div".to_string()),
            Token::CloseAngle,
            Token::ClosingMarker,
            Token::Word("div".to_string()),
            Token::CloseAngle,
        ]
    );
}

#[test]
fn tokenize_attribute_group() {
    let toks = tokenize("<div id='x'>").unwrap();
    assert_eq!(
        toks,
        vec![
            Token::OpenAngle,
            Token::Word("div".to_string()),
            Token::Word("id".to_string()),
            Token::Equals,
            Token::SingleQuote,
            Token::QuotedText("x".to_string()),
            Token::SingleQuote,
            Token::CloseAngle,
        ]
    );
}

#[test]
fn tokenize_double_quotes_keep_spaces() {
    let toks = tokenize("<p class=\"a b\">").unwrap();
    assert_eq!(
        toks,
        vec![
            Token::OpenAngle,
            Token::Word("p".to_string()),
            Token::Word("class".to_string()),
            Token::Equals,
            Token::DoubleQuote,
            Token::QuotedText("a b".to_string()),
            Token::DoubleQuote,
            Token::CloseAngle,
        ]
    );
}

#[test]
fn tokenize_whitespace_separates_words() {
    let toks = tokenize("a b\nc").unwrap();
    assert_eq!(
        toks,
        vec![
            Token::Word("a".to_string()),
            Token::Word("b".to_string()),
            Token::Word("c".to_string()),
        ]
    );
}

#[test]
fn tokenize_empty_quoted_value() {
    let toks = tokenize("=''").unwrap();
    assert_eq!(
        toks,
        vec![
            Token::Equals,
            Token::SingleQuote,
            Token::QuotedText(String::new()),
            Token::SingleQuote,
        ]
    );
}

#[test]
fn tokenize_unterminated_quote_is_reported() {
    assert_eq!(tokenize("<div id='x"), Err(ParseError::UnterminatedQuote));
    assert_eq!(tokenize("<div id=\"x"), Err(ParseError::UnterminatedQuote));
}

#[test]
fn tokenize_between_tags_collects_text() {
    let toks = tokenize("<p>Hello there</p>").unwrap();
    assert_eq!(
        toks,
        vec![
            Token::OpenAngle,
            Token::Word("p".to_string()),
            Token::CloseAngle,
            Token::Word("Hello there".to_string()),
            Token::ClosingMarker,
            Token::Word("p".to_string()),
            Token::CloseAngle,
        ]
    );
}

#[test]
fn parse_ids_and_classes_in_document_order() {
    let dom = parse_string_to_dom("<div id='x'><p class='a'>A</p><p class='a'>B</p></div>")
        .unwrap();

    let div = dom.find_by_id("x".to_string()).expect("id 'x' must be indexed");
    match dom.get_node(div).get_type() {
        NodeType::Element(ed) => assert!(ed.get_tag() == TAG::DIV),
        NodeType::Text(_) => panic!("the id must name the div element"),
    }

    let ps = dom.find_by_class("a".to_string()).expect("class 'a' must be indexed").clone();
    assert_eq!(ps.len(), 2);
    let texts: Vec<String> = ps
        .iter()
        .map(|&h| {
            let children = dom.get_node(h).get_children().clone();
            assert_eq!(children.len(), 1);
            match dom.get_node(children[0]).get_type() {
                NodeType::Text(t) => t.clone(),
                NodeType::Element(_) => panic!("expected a text child"),
            }
        })
        .collect();
    assert_eq!(texts, vec!["A".to_string(), "B".to_string()]);

    assert_eq!(dom.print_tree(), "<DIV><P>A</P><P>B</P></DIV>");
}

#[test]
fn parse_hello_paragraph() {
    let dom = parse_string_to_dom("<p>Hello</p>").unwrap();
    let root = match dom.get_root() {
        DomElem::Node(h) => *h,
        DomElem::Empty => panic!("a root must have been built"),
    };
    match dom.get_node(root).get_type() {
        NodeType::Element(ed) => assert!(ed.get_tag() == TAG::P),
        NodeType::Text(_) => panic!("the root must be an element"),
    }
    let children = dom.get_node(root).get_children().clone();
    assert_eq!(children.len(), 1);
    match dom.get_node(children[0]).get_type() {
        NodeType::Text(t) => assert_eq!(t, "Hello"),
        NodeType::Element(_) => panic!("the only child must be text"),
    }
    assert_eq!(dom.print_tree(), "<P>Hello</P>");
}

#[test]
fn parse_mismatched_close_tag_fails() {
    assert_eq!(
        parse_string_to_dom("<div><p></div>").err(),
        Some(ParseError::MismatchedCloseTag)
    );
}

#[test]
fn parse_unknown_tag_fails() {
    assert_eq!(parse_string_to_dom("<span></span>").err(), Some(ParseError::UnknownTag));
}

#[test]
fn parse_unclosed_tag_fails() {
    assert_eq!(parse_string_to_dom("<div>").err(), Some(ParseError::UnclosedTag));
    assert_eq!(parse_string_to_dom("<html><body>").err(), Some(ParseError::UnclosedTag));
}

#[test]
fn parse_second_root_fails() {
    assert_eq!(
        parse_string_to_dom("<div></div><p></p>").err(),
        Some(ParseError::MultipleRootNodes)
    );
}

#[test]
fn parse_empty_input_gives_empty_dom() {
    let dom = parse_string_to_dom("").unwrap();
    assert!(matches!(dom.get_root(), DomElem::Empty));
    assert!(dom.find_by_id("x".to_string()).is_none());
    assert!(dom.find_by_class("a".to_string()).is_none());
    assert_eq!(dom.print_tree(), "");
}

#[test]
fn parse_duplicate_id_last_write_wins() {
    let dom = parse_string_to_dom("<div id='x'><p id='x'></p></div>").unwrap();
    let winner = dom.find_by_id("x".to_string()).expect("id 'x' must be indexed");
    match dom.get_node(winner).get_type() {
        NodeType::Element(ed) => assert!(ed.get_tag() == TAG::P),
        NodeType::Text(_) => panic!("the id must name the inner element"),
    }
}

#[test]
fn serialize_reproduces_nesting_and_is_repeatable() {
    let dom = parse_string_to_dom("<html><head></head><body><div><p>A</p></div></body></html>")
        .unwrap();
    let first = dom.print_tree();
    let second = dom.print_tree();
    assert_eq!(first, "<HTML><HEAD></HEAD><BODY><DIV><P>A</P></DIV></BODY></HTML>");
    assert_eq!(first, second);
}

#[test]
fn parse_stores_attributes_on_the_element() {
    let dom = parse_string_to_dom("<div id='x' class=\"c\" hidden></div>").unwrap();
    let root = match dom.get_root() {
        DomElem::Node(h) => *h,
        DomElem::Empty => panic!("a root must have been built"),
    };
    match dom.get_node(root).get_type() {
        NodeType::Element(ed) => {
            assert_eq!(ed.get_attribute("id").map(String::as_str), Some("x"));
            assert_eq!(ed.get_attribute("class").map(String::as_str), Some("c"));
            assert_eq!(ed.get_attribute("hidden").map(String::as_str), Some(""));
            assert!(ed.get_attribute("missing").is_none());
        },
        NodeType::Text(_) => panic!("the root must be an element"),
    }
}

#[test]
fn parse_text_around_nested_elements_keeps_order() {
    let dom = parse_string_to_dom("<div>A<p>B</p>C</div>").unwrap();
    assert_eq!(dom.print_tree(), "<DIV>A<P>B</P>C</DIV>");
}

#[test]
fn serialize_drops_attributes_but_keeps_text() {
    let dom = parse_string_to_dom("<div id='x' class='c'><p class='c'>t u</p></div>").unwrap();
    assert_eq!(dom.print_tree(), "<DIV><P>t u</P></DIV>");
}

#[test]
fn serialize_keeps_raw_text_with_newline() {
    let dom = parse_string_to_dom("<p>a\nb</p>").unwrap();
    assert_eq!(dom.print_tree(), "<P>a\nb</P>");
}

#[test]
fn unknown_tag_is_reported_before_a_root_clash() {
    assert_eq!(
        parse_string_to_dom("<div></div><span>").err(),
        Some(ParseError::UnknownTag)
    );
}

#[test]
fn slash_outside_a_closing_marker_is_an_ordinary_character() {
    let toks = tokenize("a/b").unwrap();
    assert_eq!(toks, vec![Token::Word("a/b".to_string())]);
}

#[test]
fn dangling_open_angle_is_a_plain_token() {
    let toks = tokenize("<").unwrap();
    assert_eq!(toks, vec![Token::OpenAngle]);
    assert_eq!(parse_string_to_dom("<").err(), Some(ParseError::UnknownTag));
}

#[test]
fn top_level_text_is_dropped() {
    let dom = parse_string_to_dom("stray <p>kept</p> stray").unwrap();
    assert_eq!(dom.print_tree(), "<P>kept</P>");
}

#[test]
fn all_five_tags_are_recognized() {
    for (name, upper) in [
        ("html", "<HTML></HTML>"),
        ("head", "<HEAD></HEAD>"),
        ("body", "<BODY></BODY>"),
        ("p", "<P></P>"),
        ("div", "<DIV></DIV>"),
    ] {
        let text = format!("<{name}></{name}>");
        let dom = parse_string_to_dom(&text).unwrap();
        assert_eq!(dom.print_tree(), upper);
    }
}
