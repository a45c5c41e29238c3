use browser::css_parse::{blocks_from_captures, create_block, create_blocks, rules_from_captures, CSSBlock, CSSRule};
use browser::strings::{string_of_char, trim};
use browser::{parse_css, parse_css_inner};

fn pairs(block: &CSSBlock) -> Vec<(&str, &str)> {
    block.rules.iter().map(|rule| (rule.name.as_str(), rule.value.as_str())).collect()
}

#[test]
fn trim_removes_white_space_at_both_ends() {
    assert_eq!(trim("  a b \n"), "a b");
    assert_eq!(trim("\t\r\nx"), "x");
    assert_eq!(trim("x"), "x");
    assert_eq!(trim("   "), "");
    assert_eq!(trim(""), "");
    assert_eq!(trim("\u{a0}wide\u{2003}"), "wide");
    assert_eq!(trim(" \u{e9}t\u{e9} "), "\u{e9}t\u{e9}");
}

#[test]
fn string_of_char_holds_one_character() {
    assert_eq!(string_of_char('x'), "x");
    assert_eq!(string_of_char('\u{e9}'), "\u{e9}");
}

#[test]
fn inline_declarations_come_in_source_order() {
    let block = parse_css_inner("width: 100px; height: 20px;");
    assert_eq!(block.selector, "");
    assert_eq!(pairs(&block), vec![("width", "100px"), ("height", "20px")]);
}

#[test]
fn declaration_value_is_trimmed() {
    let block = create_block("width  :   100px  ;");
    assert_eq!(pairs(&block), vec![("width", "100px")]);
}

#[test]
fn declaration_without_colon_or_semicolon_is_dropped() {
    assert_eq!(pairs(&create_block("width 100px; height: 20px;")), vec![("height", "20px")]);
    assert!(pairs(&create_block("width: 100px")).is_empty());
    assert!(pairs(&create_block("")).is_empty());
    assert!(pairs(&create_block("WIDTH: 1px;")).is_empty());
}

#[test]
fn hyphenated_property_names_are_read() {
    let block = create_block("margin-top: 3px; width:4%;");
    assert_eq!(pairs(&block), vec![("margin-top", "3px"), ("width", "4%")]);
}

#[test]
fn rule_blocks_come_in_source_order() {
    let blocks = parse_css("div { width: 100px; }\na { height: 100px; }");
    assert_eq!(blocks.len(), 2);
    assert_eq!(blocks[0].selector, "div");
    assert_eq!(pairs(&blocks[0]), vec![("width", "100px")]);
    assert_eq!(blocks[1].selector, "a");
    assert_eq!(pairs(&blocks[1]), vec![("height", "100px")]);
}

#[test]
fn rule_block_with_several_declarations() {
    let blocks = create_blocks("  p.note  {\n  width: 10px;\n  height: inherit;\n}\n");
    assert_eq!(blocks.len(), 1);
    assert_eq!(blocks[0].selector, "p.note");
    assert_eq!(pairs(&blocks[0]), vec![("width", "10px"), ("height", "inherit")]);
}

#[test]
fn text_outside_blocks_is_dropped() {
    assert!(create_blocks("").is_empty());
    assert!(create_blocks("width: 1px;").is_empty());
    assert!(create_blocks("div { }").len() == 1);
    assert!(create_blocks("div {}").is_empty());
    let blocks = create_blocks("a { junk } b { width: 1px; }");
    assert_eq!(blocks.len(), 2);
    assert!(blocks[0].rules.is_empty());
    assert_eq!(pairs(&blocks[1]), vec![("width", "1px")]);
}

#[test]
fn captures_become_rules() {
    let captures = vec![
        ("width".to_string(), " 1px ".to_string()),
        ("height".to_string(), "2%".to_string()),
    ];
    let rules = rules_from_captures(&captures);
    assert_eq!(rules.len(), 2);
    assert_eq!((rules[0].name.as_str(), rules[0].value.as_str()), ("width", "1px"));
    assert_eq!((rules[1].name.as_str(), rules[1].value.as_str()), ("height", "2%"));
    assert!(rules_from_captures(&Vec::new()).is_empty());
}

#[test]
fn captures_become_blocks() {
    let captures = vec![
        (" div ".to_string(), " width: 1px; ".to_string()),
        ("a".to_string(), "nothing".to_string()),
    ];
    let blocks = blocks_from_captures(&captures);
    assert_eq!(blocks.len(), 2);
    assert_eq!(blocks[0].selector, "div");
    assert_eq!(pairs(&blocks[0]), vec![("width", "1px")]);
    assert_eq!(blocks[1].selector, "a");
    assert!(blocks[1].rules.is_empty());
}

#[test]
fn rule_and_block_constructors() {
    let rule = CSSRule::new("width".to_string(), "1px".to_string());
    assert_eq!(rule.name, "width");
    assert_eq!(rule.value, "1px");
    let block = CSSBlock::new();
    assert_eq!(block.selector, "");
    assert!(block.rules.is_empty());
}
