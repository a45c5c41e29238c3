use browser::parse_html_new;
use browser::tag_parse::{HTMLChild, HTMLEndTag, HTMLStartTag};
use browser::tree::Tree;
use browser::tree_generation_2::{create_node_tree, HTMLNode};

fn tag_name(tree: &Tree<HTMLNode>, id: usize) -> String {
    match &tree.get(id).value {
        HTMLNode::Element(element) => element.tagname().clone(),
        other => panic!("expected an element, found {:?}", other),
    }
}

fn element_ancestors(tree: &Tree<HTMLNode>, id: usize) -> usize {
    let mut count = 0;
    let mut at = tree.get(id).get_parent();
    while let Some(parent) = at {
        if matches!(tree.get(parent).value, HTMLNode::Element(_)) {
            count += 1;
        }
        at = tree.get(parent).get_parent();
    }
    count
}

#[test]
fn no_tokens_give_a_lone_root() {
    let tree = create_node_tree(Vec::new());
    assert_eq!(tree.len(), 1);
    assert!(matches!(tree.get(0).value, HTMLNode::Root));
    assert_eq!(tree.get(0).get_parent(), None);
    assert_eq!(tree.get(0).get_child(0), None);
}

#[test]
fn nested_elements_hang_under_their_opener() {
    let tree = parse_html_new("<div><a></a></div>");
    assert_eq!(tree.len(), 3);
    assert!(matches!(tree.get(0).value, HTMLNode::Root));
    assert_eq!(tree.get(0).children, vec![1]);
    assert_eq!(tag_name(&tree, 1), "div");
    assert_eq!(tree.get(1).get_parent(), Some(0));
    assert_eq!(tree.get(1).children, vec![2]);
    assert_eq!(tag_name(&tree, 2), "a");
    assert_eq!(tree.get(2).get_parent(), Some(1));
    assert!(tree.get(2).children.is_empty());
}

#[test]
fn text_is_a_child_and_does_not_open() {
    let tree = parse_html_new("<p>one<b>two</b>three</p>");
    assert_eq!(tree.len(), 6);
    assert_eq!(tree.get(1).children, vec![2, 3, 5]);
    assert!(matches!(&tree.get(2).value, HTMLNode::Text(t) if t == "one"));
    assert_eq!(tag_name(&tree, 3), "b");
    assert_eq!(tree.get(3).children, vec![4]);
    assert!(matches!(&tree.get(4).value, HTMLNode::Text(t) if t == "two"));
    assert!(matches!(&tree.get(5).value, HTMLNode::Text(t) if t == "three"));
    assert_eq!(tree.get(5).get_parent(), Some(1));
}

#[test]
fn self_closing_element_does_not_open() {
    let tree = parse_html_new("<br/><p></p>");
    assert_eq!(tree.len(), 3);
    assert_eq!(tree.get(0).children, vec![1, 2]);
    assert_eq!(tree.get(1).get_parent(), Some(0));
    assert_eq!(tree.get(2).get_parent(), Some(0));
}

#[test]
fn end_tag_at_the_root_does_nothing() {
    let tree = parse_html_new("</div></div><p></p>");
    assert_eq!(tree.len(), 2);
    assert_eq!(tag_name(&tree, 1), "p");
    assert_eq!(tree.get(1).get_parent(), Some(0));
}

#[test]
fn end_tag_closes_whatever_is_open() {
    let tree = parse_html_new("<a><b></a><c></c>");
    assert_eq!(tree.len(), 4);
    assert_eq!(tag_name(&tree, 3), "c");
    assert_eq!(tree.get(3).get_parent(), Some(1));
    assert_eq!(tree.get(1).children, vec![2, 3]);
}

#[test]
fn element_keeps_name_and_attributes_of_its_tag() {
    let tree = parse_html_new("<div id=\"x\" style=\"width: 1px;\"></div>");
    match &tree.get(1).value {
        HTMLNode::Element(element) => {
            assert!(element.is_tag(&"div".to_string()));
            assert!(!element.is_tag(&"Div".to_string()));
            assert!(element.has_attribute(&"id".to_string()));
            assert!(!element.has_attribute(&"class".to_string()));
            assert_eq!(element.get_attribute(&"id".to_string()).map(|v| v.as_str()), Some("x"));
            assert!(element.get_attribute(&"class".to_string()).is_none());
            assert_eq!(element.get_attribute_unwrapped(&"style".to_string()), "width: 1px;");
            assert!(element.attributes().contains_key(&"style".to_string()));
            let copy = element.clone();
            assert_eq!(copy.tagname(), "div");
        }
        other => panic!("expected an element, found {:?}", other),
    }
}

#[test]
fn element_ancestors_count_the_unclosed_start_tags() {
    let tree = parse_html_new("<a><b><c></c>text</b><d/><e></e></a><f></f>");
    let expected = [("a", 0), ("b", 1), ("c", 2), ("d", 1), ("e", 1), ("f", 0)];
    let mut seen = 0;
    for id in 1..tree.len() {
        match &tree.get(id).value {
            HTMLNode::Element(element) => {
                let (name, depth) = expected[seen];
                assert_eq!(element.tagname(), name);
                assert_eq!(element_ancestors(&tree, id), depth);
                seen += 1;
            }
            HTMLNode::Text(content) => {
                assert_eq!(content, "text");
                assert_eq!(element_ancestors(&tree, id), 2);
            }
            HTMLNode::Root => panic!("a second root"),
        }
    }
    assert_eq!(seen, expected.len());
}

#[test]
fn tokens_built_by_hand_give_the_same_tree() {
    let tokens = vec![
        HTMLChild::StartTag(HTMLStartTag::new("ul".to_string(), false)),
        HTMLChild::StartTag(HTMLStartTag::new("li".to_string(), true)),
        HTMLChild::Text("x".to_string()),
        HTMLChild::EndTag(HTMLEndTag::new()),
        HTMLChild::EndTag(HTMLEndTag::new()),
        HTMLChild::Text("y".to_string()),
    ];
    let tree = create_node_tree(tokens);
    assert_eq!(tree.len(), 5);
    assert_eq!(tree.get(0).children, vec![1, 4]);
    assert_eq!(tree.get(1).children, vec![2, 3]);
    assert_eq!(tag_name(&tree, 2), "li");
    assert!(matches!(&tree.get(4).value, HTMLNode::Text(t) if t == "y"));
}
