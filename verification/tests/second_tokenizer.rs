use browser::tag_parse_legacy::{parse_tags, HTMLChild};

fn describe(token: &HTMLChild, attrs: &[&str]) -> String {
    match token {
        HTMLChild::StartTag(tag) => {
            let mut out = format!("start {}", tag.clone_name());
            for name in attrs {
                if let Some(value) = tag.clone_attrs().get(&name.to_string()) {
                    out.push_str(&format!(" {}={:?}", name, value));
                }
            }
            if tag.is_closed() {
                out.push_str(" closed");
            }
            out
        }
        HTMLChild::EndTag(tag) => format!("end {}", tag.name()),
        HTMLChild::Text(content) => format!("text {:?}", content),
    }
}

fn all(markup: &str, attrs: &[&str]) -> Vec<String> {
    parse_tags(markup).iter().map(|token| describe(token, attrs)).collect()
}

#[test]
fn second_tokenizer_reads_tags_and_text() {
    assert_eq!(all("<p>hi</p>", &[]), vec!["start p", "text \"hi\"", "end p"]);
    assert!(all("", &[]).is_empty());
}

#[test]
fn second_tokenizer_keeps_the_end_tag_name() {
    assert_eq!(all("</div>", &[]), vec!["end div"]);
    assert_eq!(all("</ div >", &[]), vec!["end div"]);
}

#[test]
fn second_tokenizer_emits_what_is_left_at_the_end() {
    assert_eq!(all("tail", &[]), vec!["text \"tail\""]);
    assert_eq!(all("<p>tail", &[]), vec!["start p", "text \"tail\""]);
    assert_eq!(all("<di", &[]), vec!["start di"]);
    assert_eq!(all("</di", &[]), vec!["end di"]);
    assert_eq!(all("<a b", &["b"]), vec!["start a"]);
    assert_eq!(all("<a b=c", &["b"]), vec!["start a"]);
    assert_eq!(all("<", &[]), vec!["start "]);
}

#[test]
fn second_tokenizer_turns_a_slash_after_the_name_into_an_end_tag() {
    assert_eq!(all("<br/>", &[]), vec!["end "]);
    assert_eq!(all("<br />", &[]), vec!["start br closed"]);
}

#[test]
fn second_tokenizer_binds_attributes() {
    assert_eq!(
        all("<a href=\"x y\" id=z>", &["href", "id"]),
        vec!["start a href=\"x y\" id=\"z\""]
    );
    assert_eq!(all("<a b=\"1\" b=\"2\">", &["b"]), vec!["start a b=\"2\""]);
    assert_eq!(all("<a b=\"x>y\">", &["b"]), vec!["start a b=\"x\"", "text \"y\\\">\""]);
}

#[test]
fn second_tokenizer_keeps_a_quote_open_across_tags() {
    assert_eq!(
        all("<a b=\"c><d e=\"f\">", &["b", "e"]),
        vec!["start a b=\"c\"", "start d e=\"\""]
    );
    assert_eq!(
        all("<a b=\"c><d e=\"f\"=g>", &["b", "e", "f\""]),
        vec!["start a b=\"c\"", "start d e=\"\" f\"=\"g\""]
    );
}

#[test]
fn second_tokenizer_takes_a_space_before_the_name_as_its_end() {
    assert_eq!(all("< div>", &["div"]), vec!["start "]);
    assert_eq!(all("< div=x>", &["div"]), vec!["start  div=\"x\""]);
}
