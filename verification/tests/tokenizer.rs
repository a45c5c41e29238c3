use browser::attrs::Attributes;
use browser::tag_parse::{HTMLChild, HTMLEndTag, HTMLStartTag, TagParser};

fn tokens(markup: &str) -> Vec<HTMLChild> {
    let mut parser = TagParser::new();
    parser.parse(markup);
    parser.get_nodes()
}

fn start_tag(token: &HTMLChild) -> &HTMLStartTag {
    match token {
        HTMLChild::StartTag(tag) => tag,
        other => panic!("expected a start tag, found {:?}", other),
    }
}

fn text(token: &HTMLChild) -> &str {
    match token {
        HTMLChild::Text(content) => content.as_str(),
        other => panic!("expected text, found {:?}", other),
    }
}

fn attr<'a>(tag: &'a HTMLStartTag, name: &str) -> Option<&'a str> {
    tag.attrs.get(&name.to_string()).map(|value| value.as_str())
}

fn render(token: &HTMLChild, attr_order: &[&str]) -> String {
    match token {
        HTMLChild::StartTag(tag) => {
            let mut out = format!("<{}", tag.name);
            for name in attr_order {
                if let Some(value) = attr(tag, name) {
                    out.push_str(&format!(" {}=\"{}\"", name, value));
                }
            }
            if tag.self_close {
                out.push('/');
            }
            out.push('>');
            out
        }
        HTMLChild::EndTag(_) => "</>".to_string(),
        HTMLChild::Text(content) => content.clone(),
    }
}

#[test]
fn empty_markup_has_no_tokens() {
    assert!(tokens("").is_empty());
}

#[test]
fn start_tag_then_end_tag() {
    let found = tokens("<div></div>");
    assert_eq!(found.len(), 2);
    let tag = start_tag(&found[0]);
    assert_eq!(tag.name, "div");
    assert!(!tag.self_close);
    assert!(attr(tag, "style").is_none());
    assert!(matches!(found[1], HTMLChild::EndTag(_)));
}

#[test]
fn text_between_tags_is_emitted_at_the_next_tag() {
    let found = tokens("<p>hello world</p>");
    assert_eq!(found.len(), 3);
    assert_eq!(start_tag(&found[0]).name, "p");
    assert_eq!(text(&found[1]), "hello world");
    assert!(matches!(found[2], HTMLChild::EndTag(_)));
}

#[test]
fn text_before_the_first_tag_is_a_token() {
    let found = tokens("intro<br>");
    assert_eq!(found.len(), 2);
    assert_eq!(text(&found[0]), "intro");
    assert_eq!(start_tag(&found[1]).name, "br");
}

#[test]
fn text_after_the_last_tag_is_not_emitted() {
    let found = tokens("<p>tail");
    assert_eq!(found.len(), 1);
    assert_eq!(start_tag(&found[0]).name, "p");
    assert!(tokens("only text").is_empty());
}

#[test]
fn unterminated_tag_is_not_emitted() {
    assert!(tokens("<div").is_empty());
    assert!(tokens("<div class=\"a\"").is_empty());
}

#[test]
fn end_tag_drops_its_name() {
    let found = tokens("</anything>");
    assert_eq!(found.len(), 1);
    assert!(matches!(found[0], HTMLChild::EndTag(_)));
    let bare = tokens("</>");
    assert_eq!(bare.len(), 1);
    assert!(matches!(bare[0], HTMLChild::EndTag(_)));
}

#[test]
fn quoted_attribute_keeps_white_space() {
    let found = tokens("<div style=\"width: 100px; height: 20px;\"></div>");
    assert_eq!(found.len(), 2);
    let tag = start_tag(&found[0]);
    assert_eq!(tag.name, "div");
    assert_eq!(attr(tag, "style"), Some("width: 100px; height: 20px;"));
}

#[test]
fn quoted_attribute_may_hold_a_closing_bracket() {
    let found = tokens("<a href=\"x>y\">");
    assert_eq!(found.len(), 1);
    assert_eq!(attr(start_tag(&found[0]), "href"), Some("x>y"));
}

#[test]
fn unquoted_attribute_runs_to_the_closing_bracket() {
    let found = tokens("<a b=c d=e>");
    assert_eq!(found.len(), 1);
    let tag = start_tag(&found[0]);
    assert_eq!(attr(tag, "b"), Some("c d=e"));
    assert!(attr(tag, "d").is_none());
}

#[test]
fn quote_inside_an_unquoted_value_is_content() {
    let found = tokens("<a b=c\"d>");
    assert_eq!(found.len(), 1);
    assert_eq!(attr(start_tag(&found[0]), "b"), Some("c\"d"));
}

#[test]
fn empty_quoted_value_is_bound() {
    let found = tokens("<a b=\"\">");
    assert_eq!(found.len(), 1);
    assert_eq!(attr(start_tag(&found[0]), "b"), Some(""));
}

#[test]
fn several_attributes_are_all_bound() {
    let found = tokens("<img src=\"a.png\" alt=\"an image\">");
    assert_eq!(found.len(), 1);
    let tag = start_tag(&found[0]);
    assert_eq!(attr(tag, "src"), Some("a.png"));
    assert_eq!(attr(tag, "alt"), Some("an image"));
    assert!(!tag.self_close);
}

#[test]
fn later_attribute_of_the_same_name_wins() {
    let found = tokens("<a b=\"1\" b=\"2\">");
    assert_eq!(attr(start_tag(&found[0]), "b"), Some("2"));
}

#[test]
fn self_closing_tag_without_attributes() {
    let found = tokens("<br/>");
    assert_eq!(found.len(), 1);
    let tag = start_tag(&found[0]);
    assert_eq!(tag.name, "br");
    assert!(tag.self_close);
}

#[test]
fn self_closing_tag_with_attributes() {
    let found = tokens("<img src=\"a\" />");
    assert_eq!(found.len(), 1);
    let tag = start_tag(&found[0]);
    assert_eq!(tag.name, "img");
    assert!(tag.self_close);
    assert_eq!(attr(tag, "src"), Some("a"));
    assert!(attr(tag, "/").is_none());
}

#[test]
fn space_before_the_name_is_skipped() {
    let found = tokens("< div>");
    assert_eq!(found.len(), 1);
    assert_eq!(start_tag(&found[0]).name, "div");
}

#[test]
fn bytes_are_read_as_characters() {
    let found = tokens("<p>\u{e9}</p>");
    assert_eq!(found.len(), 3);
    assert_eq!(text(&found[1]), "\u{c3}\u{a9}");
}

#[test]
fn parse_continues_where_it_stopped() {
    let mut parser = TagParser::new();
    parser.parse("<di");
    parser.parse("v>te");
    parser.parse("xt</div>");
    let found = parser.get_nodes();
    assert_eq!(found.len(), 3);
    assert_eq!(start_tag(&found[0]).name, "div");
    assert_eq!(text(&found[1]), "text");
    assert!(matches!(found[2], HTMLChild::EndTag(_)));
}

#[test]
fn written_tokens_are_read_back() {
    let markup = "<div id=\"main\" class=\"a b\"><p>some text</p><br/><img src=\"x>y\"/></div>";
    let first = tokens(markup);
    assert_eq!(first.len(), 7);
    let order = ["id", "class", "src"];
    let mut written = String::new();
    for token in &first {
        written.push_str(&render(token, &order));
    }
    let second = tokens(&written);
    assert_eq!(second.len(), first.len());
    for (a, b) in first.iter().zip(second.iter()) {
        match (a, b) {
            (HTMLChild::StartTag(x), HTMLChild::StartTag(y)) => {
                assert_eq!(x.name, y.name);
                assert_eq!(x.self_close, y.self_close);
                for name in order {
                    assert_eq!(attr(x, name), attr(y, name));
                }
            }
            (HTMLChild::EndTag(_), HTMLChild::EndTag(_)) => {}
            (HTMLChild::Text(x), HTMLChild::Text(y)) => assert_eq!(x, y),
            (x, y) => panic!("{:?} was read back as {:?}", x, y),
        }
    }
}

#[test]
fn start_tag_constructors_and_getters() {
    let plain = HTMLStartTag::new("p".to_string(), false);
    assert_eq!(plain.clone_name(), "p");
    assert!(!plain.is_self_close());
    assert!(!plain.clone_attrs().contains_key(&"id".to_string()));

    let mut attrs = Attributes::new();
    attrs.insert("id".to_string(), "x".to_string());
    let tag = HTMLStartTag::new_with_attrs("img".to_string(), true, attrs);
    assert_eq!(tag.clone_name(), "img");
    assert!(tag.is_self_close());
    let copy = tag.clone_attrs();
    assert_eq!(copy.get(&"id".to_string()).map(|v| v.as_str()), Some("x"));
    let _end = HTMLEndTag::new();
}

#[test]
fn attributes_insert_replaces_and_get_finds() {
    let mut attrs = Attributes::new();
    assert!(attrs.get(&"a".to_string()).is_none());
    attrs.insert("a".to_string(), "1".to_string());
    attrs.insert("b".to_string(), "2".to_string());
    attrs.insert("a".to_string(), "3".to_string());
    assert_eq!(attrs.get(&"a".to_string()).map(|v| v.as_str()), Some("3"));
    assert_eq!(attrs.get(&"b".to_string()).map(|v| v.as_str()), Some("2"));
    assert!(attrs.contains_key(&"b".to_string()));
    assert!(!attrs.contains_key(&"c".to_string()));
    let copy = attrs.clone();
    assert_eq!(copy.get(&"a".to_string()).map(|v| v.as_str()), Some("3"));
}
