use browser::css_parse::CSSBlock;
use browser::dom::{accumulate_precomputed_styles, compute_style, pixels, BlockElement, DomNode, Extent, RootElement, TextNode};
use browser::selector::{Selector, SelectorComponent};
use browser::styles::{ComputedStyleValue, Number, PreComputedStyleValue, SizeType, StyleError, StyleMap, StyleName};
use browser::tree::Tree;
use browser::tree_generation_2::{HTMLElement, HTMLNode};
use browser::web_frame::{annotate, embedded_stylesheet, layout, matching_blocks, prepare_all, style_document};
use browser::{parse_css, parse_html_new};

fn size(extent: &Option<Extent>) -> Option<(f32, f32)> {
    extent.as_ref().map(|e| {
        (e.width.as_str().parse::<f32>().unwrap(), e.height.as_str().parse::<f32>().unwrap())
    })
}

fn sizes(extents: &[Option<Extent>]) -> Vec<Option<(f32, f32)>> {
    extents.iter().map(size).collect()
}

fn styled(markup: &str, css: &str) -> Result<Vec<Option<(f32, f32)>>, StyleError> {
    let dom = parse_html_new(markup);
    let mut tree = annotate(&dom);
    let blocks = parse_css(css);
    prepare_all(&mut tree, &blocks)?;
    Ok(sizes(&layout(&tree)))
}

fn element_of(markup: &str) -> HTMLElement {
    let dom = parse_html_new(markup);
    match &dom.get(1).value {
        HTMLNode::Element(element) => element.clone(),
        other => panic!("expected an element, found {:?}", other),
    }
}

fn declared(value: Option<&PreComputedStyleValue>) -> String {
    match value {
        Some(PreComputedStyleValue::Size(SizeType::Pixels(n))) => format!("{}px", n.as_str()),
        Some(PreComputedStyleValue::Size(SizeType::Percent(n))) => format!("{}%", n.as_str()),
        Some(PreComputedStyleValue::Inherit) => "inherit".to_string(),
        Some(PreComputedStyleValue::VDefault) => "default".to_string(),
        None => "unset".to_string(),
    }
}

#[test]
fn inline_style_gives_the_size() {
    let extents = style_document("<div style=\"width: 100px; height: 20px;\"></div>").unwrap();
    assert_eq!(sizes(&extents), vec![None, Some((100.0, 20.0))]);
    let extent = extents[1].as_ref().unwrap();
    assert_eq!(extent.width.as_str(), "100");
    assert_eq!(extent.height.as_str(), "20");
}

#[test]
fn rule_blocks_apply_by_tag_name() {
    let found = styled("<div><a></a></div>", "div { width: 100px; }\na { height: 100px; }").unwrap();
    assert_eq!(found.len(), 3);
    assert_eq!(found[0], None);
    assert_eq!(found[1], Some((100.0, 0.0)));
    let (_, height) = found[2].unwrap();
    assert_eq!(height, 100.0);
}

#[test]
fn unset_property_takes_the_nearest_ancestors_value() {
    let found = styled("<div><a></a></div>", "div { width: 100px; }\na { height: 100px; }").unwrap();
    assert_eq!(found[2], Some((100.0, 100.0)));
    let deep = styled("<div><p><a></a></p></div>", "div { width: 7px; } p { height: 3px; }").unwrap();
    assert_eq!(deep, vec![None, Some((7.0, 0.0)), Some((7.0, 3.0)), Some((7.0, 3.0))]);
}

#[test]
fn inherited_percent_resolves_to_zero() {
    let found = styled("<p><c></c></p>", "p { width: 50%; } c { width: inherit; }").unwrap();
    assert_eq!(found, vec![None, Some((0.0, 0.0)), Some((0.0, 0.0))]);
}

#[test]
fn inherit_takes_the_ancestors_pixels() {
    let found = style_document(
        "<div style=\"width: 50px;\"><span style=\"width: inherit;\"></span></div>",
    ).unwrap();
    assert_eq!(sizes(&found), vec![None, Some((50.0, 0.0)), Some((50.0, 0.0))]);
}

#[test]
fn inherit_skips_ancestors_that_inherit_too() {
    let found = style_document(
        "<a style=\"height: 9px;\"><b style=\"height: inherit;\"><c style=\"height: inherit; width: 1px;\"></c></b></a>",
    ).unwrap();
    assert_eq!(sizes(&found), vec![None, Some((0.0, 9.0)), Some((0.0, 9.0)), Some((1.0, 9.0))]);
}

#[test]
fn nearest_value_wins_over_farther_ones() {
    let found = style_document(
        "<a style=\"width: 1px;\"><b style=\"width: 2px;\"><c></c></b></a>",
    ).unwrap();
    assert_eq!(sizes(&found), vec![None, Some((1.0, 0.0)), Some((2.0, 0.0)), Some((2.0, 0.0))]);
}

#[test]
fn inherit_without_any_ancestor_value_resolves_to_zero() {
    let found = style_document("<div style=\"width: inherit;\"></div>").unwrap();
    assert_eq!(sizes(&found), vec![None, Some((0.0, 0.0))]);
}

#[test]
fn element_without_any_style_resolves_to_zero() {
    let found = style_document("<div><p></p></div>").unwrap();
    assert_eq!(sizes(&found), vec![None, Some((0.0, 0.0)), Some((0.0, 0.0))]);
    let extent = found[1].as_ref().unwrap();
    assert_eq!(extent.width.as_str(), "0");
    assert_eq!(extent.height.as_str(), "0");
}

#[test]
fn default_keyword_resolves_to_zero_and_is_not_overridden() {
    let found = style_document(
        "<a style=\"width: 5px;\"><b style=\"width: default;\"></b></a>",
    ).unwrap();
    assert_eq!(sizes(&found), vec![None, Some((5.0, 0.0)), Some((0.0, 0.0))]);
}

#[test]
fn inline_declaration_wins_over_a_matching_rule() {
    let found = style_document(
        "<style>div { width: 10px; height: 4px; }</style><div style=\"width: 30px;\"></div>",
    ).unwrap();
    assert_eq!(sizes(&found), vec![None, Some((0.0, 0.0)), None, Some((30.0, 4.0))]);
}

#[test]
fn later_matching_rule_wins_over_an_earlier_one() {
    let found = styled("<div></div>", "div { width: 1px; height: 1px; } p { width: 9px; } div { width: 2px; }").unwrap();
    assert_eq!(found, vec![None, Some((2.0, 1.0))]);
}

#[test]
fn style_elements_are_joined_into_one_stylesheet() {
    let dom = parse_html_new("<style>a { width: 1px; }</style><p></p><style>b { width: 2px; }</style>");
    assert_eq!(embedded_stylesheet(&dom), Ok("a { width: 1px; }\nb { width: 2px; }".to_string()));
    let none = parse_html_new("<p>text</p>");
    assert_eq!(embedded_stylesheet(&none), Ok(String::new()));
    let empty = parse_html_new("<style></style><style>x</style>");
    assert_eq!(embedded_stylesheet(&empty), Ok("\nx".to_string()));
}

#[test]
fn style_element_that_holds_an_element_is_an_error() {
    let dom = parse_html_new("<style><b></b></style>");
    assert_eq!(embedded_stylesheet(&dom), Err(StyleError::InvalidCss));
    assert_eq!(style_document("<style><b></b>a { width: 1px; }</style>").err(), Some(StyleError::InvalidCss));
}

#[test]
fn unreadable_inline_size_is_an_error() {
    assert_eq!(style_document("<div style=\"width: big;\"></div>").err(), Some(StyleError::InvalidSize));
    assert_eq!(styled("<div></div>", "div { height: tall; }").err(), Some(StyleError::InvalidSize));
    assert_eq!(styled("<div></div>", "p { height: tall; }").ok(), Some(vec![None, Some((0.0, 0.0))]));
}

#[test]
fn text_and_root_draw_nothing() {
    let found = style_document("<p style=\"width: 3px;\">words</p>").unwrap();
    assert_eq!(sizes(&found), vec![None, Some((3.0, 0.0)), None]);
    assert!(style_document("").unwrap().len() == 1);
}

#[test]
fn selector_matches_by_exact_tag_name() {
    let element = element_of("<div></div>");
    assert!(Selector::parse("div").matches(&element));
    assert!(!Selector::parse("Div").matches(&element));
    assert!(!Selector::parse("di").matches(&element));
    assert!(!Selector::parse("").matches(&element));
    assert!(SelectorComponent::TagName("div".to_string()).matches(&element));
    assert!(!SelectorComponent::TagName("p".to_string()).matches(&element));
    let parsed: Selector = "div".parse().ok().unwrap();
    assert!(parsed.matches(&element));
}

#[test]
fn selector_is_a_conjunction() {
    let element = element_of("<div></div>");
    assert!(Selector::new(Vec::new()).matches(&element));
    let both = Selector::new(vec![
        SelectorComponent::TagName("div".to_string()),
        SelectorComponent::TagName("div".to_string()),
    ]);
    assert!(both.matches(&element));
    let mixed = Selector::new(vec![
        SelectorComponent::TagName("div".to_string()),
        SelectorComponent::TagName("p".to_string()),
    ]);
    assert!(!mixed.matches(&element));
}

#[test]
fn only_elements_are_matched() {
    let selector = Selector::new(Vec::new());
    assert!(DomNode::Element(BlockElement::new(element_of("<div></div>"))).matches(&selector));
    assert!(!DomNode::Root(RootElement::new()).matches(&selector));
    assert!(!DomNode::Text(TextNode::new("div".to_string())).matches(&selector));
    assert_eq!(TextNode::new("abc".to_string()).text(), "abc");
}

#[test]
fn matching_blocks_merges_in_source_order() {
    let node = DomNode::Element(BlockElement::new(element_of("<div></div>")));
    let blocks: Vec<CSSBlock> = parse_css("div { width: 1px; } a { width: 5px; height: 5px; } div { width: 2%; }");
    let merged = matching_blocks(&node, &blocks).unwrap();
    assert_eq!(declared(merged.get(StyleName::Width)), "2%");
    assert_eq!(declared(merged.get(StyleName::Height)), "unset");
    let root = DomNode::Root(RootElement::new());
    let nothing = matching_blocks(&root, &blocks).unwrap();
    assert!(nothing.get(StyleName::Width).is_none());
    let broken = parse_css("div { width: 1px; } div { width: wide; }");
    assert_eq!(matching_blocks(&node, &broken).err(), Some(StyleError::InvalidSize));
    assert!(matching_blocks(&root, &broken).is_ok());
}

#[test]
fn prepare_puts_inline_first_and_fills_the_rest() {
    let mut block = BlockElement::new(element_of("<div style=\"width: 30px;\"></div>"));
    let mut global = StyleMap::new();
    global.insert(StyleName::Width, PreComputedStyleValue::Inherit);
    global.insert(StyleName::Height, PreComputedStyleValue::VDefault);
    assert_eq!(block.prepare(&global), Ok(()));
    assert_eq!(declared(block.styles().get(StyleName::Width)), "30px");
    assert_eq!(declared(block.styles().get(StyleName::Height)), "default");
    assert_eq!(block.element().tagname(), "div");

    let mut plain = DomNode::Element(BlockElement::new(element_of("<div></div>")));
    assert_eq!(plain.prepare(&StyleMap::new()), Ok(()));
    match &plain {
        DomNode::Element(block) => {
            assert!(block.styles().get(StyleName::Width).is_none());
            assert!(block.styles().get(StyleName::Height).is_none());
        }
        other => panic!("expected an element, found {:?}", other),
    }
    let mut root = DomNode::Root(RootElement::new());
    assert_eq!(root.prepare(&global), Ok(()));
}

#[test]
fn prepare_stops_at_an_unreadable_inline_size() {
    let mut block = BlockElement::new(element_of("<div style=\"width: 3px; height: x;\"></div>"));
    let mut global = StyleMap::new();
    global.insert(StyleName::Height, PreComputedStyleValue::VDefault);
    assert_eq!(block.prepare(&global), Err(StyleError::InvalidSize));
    assert_eq!(declared(block.styles().get(StyleName::Width)), "3px");
    assert_eq!(declared(block.styles().get(StyleName::Height)), "unset");
}

#[test]
fn merge_into_overrides_only_unset_and_inherit() {
    let mut block = BlockElement::new(element_of("<div style=\"width: 1px; height: 2px;\"></div>"));
    block.prepare(&StyleMap::new()).unwrap();
    let mut walk = StyleMap::new();
    walk.insert(StyleName::Width, PreComputedStyleValue::Inherit);
    walk.insert(StyleName::Height, PreComputedStyleValue::VDefault);
    block.merge_into(&mut walk);
    assert_eq!(declared(walk.get(StyleName::Width)), "1px");
    assert_eq!(declared(walk.get(StyleName::Height)), "default");
    let mut empty = StyleMap::new();
    block.merge_into(&mut empty);
    assert_eq!(declared(empty.get(StyleName::Width)), "1px");
    assert_eq!(declared(empty.get(StyleName::Height)), "2px");
}

#[test]
fn accumulate_walks_up_to_the_root() {
    let dom = parse_html_new("<a style=\"width: 4px; height: inherit;\"><b style=\"height: inherit;\"></b></a>");
    let mut tree: Tree<DomNode> = annotate(&dom);
    prepare_all(&mut tree, &Vec::new()).unwrap();
    let mut gathered = StyleMap::new();
    accumulate_precomputed_styles(&tree, 2, &mut gathered);
    assert_eq!(declared(gathered.get(StyleName::Width)), "4px");
    assert_eq!(declared(gathered.get(StyleName::Height)), "inherit");
    let mut at_root = StyleMap::new();
    accumulate_precomputed_styles(&tree, 0, &mut at_root);
    assert!(at_root.get(StyleName::Width).is_none());
    assert_eq!(size(&compute_style(&tree, 2)), Some((4.0, 0.0)));
    assert_eq!(size(&compute_style(&tree, 0)), None);
}

#[test]
fn pixels_of_a_missing_entry_are_zero() {
    let mut computed = StyleMap::new();
    computed.insert(StyleName::Width, ComputedStyleValue::Size(Number::parse("8").unwrap()));
    computed.insert(StyleName::Height, ComputedStyleValue::VDefault);
    assert_eq!(pixels(&computed, StyleName::Width).as_str(), "8");
    assert_eq!(pixels(&computed, StyleName::Height).as_str(), "0");
    let empty: StyleMap<ComputedStyleValue> = StyleMap::new();
    assert_eq!(pixels(&empty, StyleName::Width).as_str(), "0");
}
