use browser::tag_parse::{HTMLChild, HTMLEndTag, HTMLStartTag};
use browser::tree::TreeNode;
use browser::tree_generation::{create_elements, HTMLNode, HTMLNodeContent, HTMLRoot, RenderGenerator};
use browser::{parse_html, walk, WalkCB};

struct Numbering {
    next: usize,
    seen: Vec<String>,
}

impl RenderGenerator<usize> for Numbering {
    fn generate(&mut self, node: &HTMLNodeContent) -> usize {
        self.seen.push(label(node));
        self.next += 1;
        self.next - 1
    }
}

fn label(node: &HTMLNodeContent) -> String {
    match node {
        HTMLNodeContent::Root(_) => "root".to_string(),
        HTMLNodeContent::Element(element) => format!("<{}>", element.tagname),
        HTMLNodeContent::Text(text) => format!("{:?}", text.content),
    }
}

struct Collect {
    seen: Vec<(String, usize)>,
}

impl WalkCB<usize> for Collect {
    fn element(&mut self, el: &TreeNode<HTMLNode<usize>>) {
        self.seen.push((label(&el.value.content), el.value.renderer));
    }
}

#[test]
fn every_node_gets_a_renderer_in_the_order_of_its_making() {
    let mut generator = Numbering { next: 0, seen: Vec::new() };
    let tree = parse_html("<div id=\"a\"><p>text</p><br/></div><i></i>", &mut generator);
    assert_eq!(generator.seen, vec!["root", "<div>", "<p>", "\"text\"", "<br>", "<i>"]);
    assert_eq!(tree.len(), 6);
    for id in 0..tree.len() {
        assert_eq!(tree.get(id).value.renderer, id);
    }
    assert_eq!(tree.get(0).children, vec![1, 5]);
    assert_eq!(tree.get(1).children, vec![2, 4]);
    assert_eq!(tree.get(2).children, vec![3]);
    assert_eq!(tree.get(4).get_parent(), Some(1));
    match &tree.get(1).value.content {
        HTMLNodeContent::Element(element) => {
            assert_eq!(element.tagname, "div");
            assert_eq!(element.attrs.get(&"id".to_string()).map(|v| v.as_str()), Some("a"));
        }
        other => panic!("expected an element, found {:?}", other),
    }
}

#[test]
fn tokens_by_hand_give_a_rendered_tree() {
    let mut generator = Numbering { next: 10, seen: Vec::new() };
    let tokens = vec![
        HTMLChild::EndTag(HTMLEndTag::new()),
        HTMLChild::StartTag(HTMLStartTag::new("a".to_string(), false)),
        HTMLChild::Text("x".to_string()),
    ];
    let tree = create_elements(tokens, &mut generator);
    assert_eq!(tree.len(), 3);
    assert_eq!(tree.get(0).value.renderer, 10);
    assert_eq!(tree.get(2).value.renderer, 12);
    assert_eq!(tree.get(2).get_parent(), Some(1));
    assert!(matches!(tree.get(0).value.content, HTMLNodeContent::Root(_)));
    let _root = HTMLRoot::new();
}

#[test]
fn walk_visits_in_preorder() {
    let mut generator = Numbering { next: 0, seen: Vec::new() };
    let tree = parse_html("<a><b>t</b></a><c></c>", &mut generator);
    let mut all = Collect { seen: Vec::new() };
    walk(&tree, 0, &mut all);
    let names: Vec<&str> = all.seen.iter().map(|(name, _)| name.as_str()).collect();
    assert_eq!(names, vec!["root", "<a>", "<b>", "\"t\"", "<c>"]);
    let mut below = Collect { seen: Vec::new() };
    walk(&tree, 1, &mut below);
    assert_eq!(below.seen, vec![("<a>".to_string(), 1), ("<b>".to_string(), 2), ("\"t\"".to_string(), 3)]);
}
