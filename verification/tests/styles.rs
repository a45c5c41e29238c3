use browser::css_parse::create_block;
use browser::styles::{
    append, append_ref, compute_size, compute_styles, parse_size, size_from_capture,
    ComputedStyleValue, Number, PreComputedStyleValue, SizeType, StyleError, StyleMap, StyleName,
};

fn pixels(text: &str) -> PreComputedStyleValue {
    PreComputedStyleValue::Size(SizeType::Pixels(Number::parse(text).unwrap()))
}

fn percent(text: &str) -> PreComputedStyleValue {
    PreComputedStyleValue::Size(SizeType::Percent(Number::parse(text).unwrap()))
}

fn size_text(value: &ComputedStyleValue) -> &str {
    match value {
        ComputedStyleValue::Size(n) => n.as_str(),
        other => panic!("expected a size, found {:?}", other),
    }
}

fn declared(value: Option<&PreComputedStyleValue>) -> String {
    match value {
        Some(PreComputedStyleValue::Size(SizeType::Pixels(n))) => format!("{}px", n.as_str()),
        Some(PreComputedStyleValue::Size(SizeType::Percent(n))) => format!("{}%", n.as_str()),
        Some(PreComputedStyleValue::Inherit) => "inherit".to_string(),
        Some(PreComputedStyleValue::VDefault) => "default".to_string(),
        None => "unset".to_string(),
    }
}

#[test]
fn numerals_are_recognised() {
    for text in ["0", "12", "-12", "1.5", "-0.25", ".5", "5.", "-.5", "007"] {
        let number = Number::parse(text);
        assert_eq!(number.as_ref().map(|n| n.as_str()), Some(text), "{}", text);
        assert!(text.parse::<f32>().is_ok());
    }
}

#[test]
fn other_texts_are_no_numerals() {
    for text in ["", "-", ".", "-.", "1.2.3", "--1", "1-2", "+1", "1e5", "px", " 1", "1 ", "inf", "١"] {
        assert!(Number::parse(text).is_none(), "{:?}", text);
    }
}

#[test]
fn zero_is_the_numeral_of_zero() {
    assert_eq!(Number::zero().as_str(), "0");
    assert_eq!(Number::zero().clone().as_str().parse::<f32>().unwrap(), 0.0);
}

#[test]
fn sizes_with_units_are_read() {
    assert_eq!(declared(parse_size(&"100px".to_string()).ok().as_ref()), "100px");
    assert_eq!(declared(parse_size(&"50%".to_string()).ok().as_ref()), "50%");
    assert_eq!(declared(parse_size(&"-1.5px".to_string()).ok().as_ref()), "-1.5px");
    assert_eq!(declared(parse_size(&".5%".to_string()).ok().as_ref()), ".5%");
}

#[test]
fn keywords_are_read_before_sizes() {
    assert!(matches!(parse_size(&"inherit".to_string()), Ok(PreComputedStyleValue::Inherit)));
    assert!(matches!(parse_size(&"default".to_string()), Ok(PreComputedStyleValue::VDefault)));
}

#[test]
fn first_size_in_the_text_counts() {
    assert_eq!(declared(parse_size(&"about 12px or 15%".to_string()).ok().as_ref()), "12px");
    assert_eq!(declared(parse_size(&"12pxjunk".to_string()).ok().as_ref()), "12px");
    assert_eq!(declared(parse_size(&"inherit 3px".to_string()).ok().as_ref()), "3px");
}

#[test]
fn text_without_a_size_is_an_error() {
    for text in ["", "big", "100", "px", "%", "100 px", "Inherit"] {
        assert_eq!(parse_size(&text.to_string()).err(), Some(StyleError::InvalidSize), "{:?}", text);
    }
}

#[test]
fn size_with_a_broken_numeral_is_an_error() {
    for text in ["1.2.3px", "--1px", "-px", ".px", "1-2%"] {
        assert_eq!(parse_size(&text.to_string()).err(), Some(StyleError::InvalidSize), "{:?}", text);
    }
}

#[test]
fn captured_numeral_and_unit_become_a_size() {
    assert_eq!(declared(size_from_capture("7", "px").ok().as_ref()), "7px");
    assert_eq!(declared(size_from_capture("7", "%").ok().as_ref()), "7%");
    assert_eq!(size_from_capture("seven", "px").err(), Some(StyleError::InvalidSize));
    assert_eq!(size_from_capture("7", "em").err(), Some(StyleError::InvalidUnit));
    assert_eq!(size_from_capture("seven", "em").err(), Some(StyleError::InvalidUnit));
    assert_eq!(size_from_capture("7", "").err(), Some(StyleError::InvalidUnit));
}

#[test]
fn pixels_pass_through_and_the_rest_resolves_to_zero() {
    assert_eq!(size_text(&compute_size(&pixels("42.5"))), "42.5");
    assert_eq!(size_text(&compute_size(&percent("50"))), "0");
    assert_eq!(size_text(&compute_size(&PreComputedStyleValue::Inherit)), "0");
    assert_eq!(size_text(&compute_size(&PreComputedStyleValue::VDefault)), "0");
}

#[test]
fn style_map_insert_get_contains() {
    let mut styles: StyleMap<u8> = StyleMap::new();
    assert!(!styles.contains_key(StyleName::Width));
    assert_eq!(styles.get(StyleName::Height), None);
    styles.insert(StyleName::Width, 1);
    styles.insert(StyleName::Width, 2);
    assert_eq!(styles.get(StyleName::Width), Some(&2));
    assert!(styles.contains_key(StyleName::Width));
    assert!(!styles.contains_key(StyleName::Height));
    styles.insert(StyleName::Height, 3);
    assert_eq!(styles.get(StyleName::Height), Some(&3));
    assert_eq!(styles.get(StyleName::Width), Some(&2));
}

#[test]
fn every_entry_is_resolved_by_itself() {
    let mut styles = StyleMap::new();
    styles.insert(StyleName::Width, pixels("100"));
    let computed = compute_styles(&styles);
    assert_eq!(computed.get(StyleName::Width).map(size_text), Some("100"));
    assert!(computed.get(StyleName::Height).is_none());

    styles.insert(StyleName::Height, percent("10"));
    let computed = compute_styles(&styles);
    assert_eq!(computed.get(StyleName::Width).map(size_text), Some("100"));
    assert_eq!(computed.get(StyleName::Height).map(size_text), Some("0"));

    let empty: StyleMap<PreComputedStyleValue> = StyleMap::new();
    let computed = compute_styles(&empty);
    assert!(computed.get(StyleName::Width).is_none());
    assert!(computed.get(StyleName::Height).is_none());
}

#[test]
fn resolving_a_resolved_mapping_changes_nothing() {
    let mut styles = StyleMap::new();
    styles.insert(StyleName::Width, pixels("12.5"));
    styles.insert(StyleName::Height, PreComputedStyleValue::Inherit);
    let once = compute_styles(&styles);
    let mut again_input = StyleMap::new();
    for name in [StyleName::Width, StyleName::Height] {
        if let Some(ComputedStyleValue::Size(n)) = once.get(name) {
            again_input.insert(name, PreComputedStyleValue::Size(SizeType::Pixels(n.clone())));
        }
    }
    let twice = compute_styles(&again_input);
    for name in [StyleName::Width, StyleName::Height] {
        assert_eq!(once.get(name).map(size_text), twice.get(name).map(size_text));
    }
    assert_eq!(twice.get(StyleName::Width).map(size_text), Some("12.5"));
    assert_eq!(twice.get(StyleName::Height).map(size_text), Some("0"));
}

#[test]
fn declarations_are_applied_in_order() {
    let mut styles = StyleMap::new();
    let block = create_block("width: 1px; height: 2%; width: inherit;");
    assert_eq!(append_ref(&mut styles, &block), Ok(()));
    assert_eq!(declared(styles.get(StyleName::Width)), "inherit");
    assert_eq!(declared(styles.get(StyleName::Height)), "2%");
}

#[test]
fn unknown_properties_are_passed_over() {
    let mut styles = StyleMap::new();
    let block = create_block("color: red; width: 5px; margin-top: none;");
    assert_eq!(append(&mut styles, block), Ok(()));
    assert_eq!(declared(styles.get(StyleName::Width)), "5px");
    assert_eq!(declared(styles.get(StyleName::Height)), "unset");
}

#[test]
fn unreadable_value_stops_the_work() {
    let mut styles = StyleMap::new();
    styles.insert(StyleName::Height, pixels("9"));
    let block = create_block("width: 1px; height: tall; width: 2px;");
    assert_eq!(append_ref(&mut styles, &block), Err(StyleError::InvalidSize));
    assert_eq!(declared(styles.get(StyleName::Width)), "1px");
    assert_eq!(declared(styles.get(StyleName::Height)), "9px");
}
