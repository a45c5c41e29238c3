//! A second markup tokenizer, with other edge cases than the state machine
//! of `tag_parse`: an end tag keeps its name, a `/` right after `<name`
//! turns the tag into an end tag, whatever is still being read at the end
//! of the input is emitted, and a quote that is open when `>` ends a tag
//! stays open for the next tag.

use vstd::prelude::*;
use vstd::string::*;
use crate::attrs::Attributes;
use crate::strings::{chars_of_bytes, string_of_char};
use crate::tag_parse::{bind_spec, StartTagView};

verus! {

/// What a token holds.
pub enum LegacyToken {
    StartTag(StartTagView),
    EndTag { name: Seq<char> },
    Text(Seq<char>),
}

/// A start tag.
#[derive(Debug)]
pub struct HTMLStartTag {
    name: String,
    attrs: Attributes,
    self_closes: bool,
}

impl View for HTMLStartTag {
    type V = StartTagView;

    closed spec fn view(&self) -> StartTagView {
        StartTagView { name: self.name@, self_close: self.self_closes, attrs: self.attrs@ }
    }
}

impl HTMLStartTag {
    fn new(name: String) -> (tag: HTMLStartTag)
        ensures
            tag@ == (StartTagView { name: name@, self_close: false, attrs: Map::empty() }),
    {
        HTMLStartTag { name, attrs: Attributes::new(), self_closes: false }
    }

    /// A copy of the tag's name.
    pub fn clone_name(&self) -> (name: String)
        ensures
            name@ == self@.name,
    {
        self.name.clone()
    }

    /// A copy of the tag's attributes.
    pub fn clone_attrs(&self) -> (attrs: Attributes)
        ensures
            attrs@ == self@.attrs,
    {
        self.attrs.clone()
    }

    /// Whether the tag closes itself.
    pub fn is_closed(&self) -> (closes: bool)
        ensures
            closes == self@.self_close,
    {
        self.self_closes
    }
}

/// An end tag, with the name that stood in it.
#[derive(Debug)]
pub struct HTMLEndTag {
    name: String,
}

impl View for HTMLEndTag {
    type V = Seq<char>;

    closed spec fn view(&self) -> Seq<char> {
        self.name@
    }
}

impl HTMLEndTag {
    fn new(name: String) -> (tag: HTMLEndTag)
        ensures
            tag@ == name@,
    {
        HTMLEndTag { name }
    }

    /// The name that stood in the tag.
    pub fn name(&self) -> (name: &String)
        ensures
            name@ == self@,
    {
        &self.name
    }
}

/// One token of markup.
#[derive(Debug)]
pub enum HTMLChild {
    StartTag(HTMLStartTag),
    EndTag(HTMLEndTag),
    Text(String),
}

impl View for HTMLChild {
    type V = LegacyToken;

    open spec fn view(&self) -> LegacyToken {
        match self {
            HTMLChild::StartTag(tag) => LegacyToken::StartTag(tag@),
            HTMLChild::EndTag(tag) => LegacyToken::EndTag { name: tag@ },
            HTMLChild::Text(content) => LegacyToken::Text(content@),
        }
    }
}

/// What a list of tokens holds.
pub open spec fn legacy_tokens_view(tokens: Seq<HTMLChild>) -> Seq<LegacyToken> {
    Seq::new(tokens.len(), |i: int| tokens[i]@)
}

/// Where the tokenizer stands, with what it is reading.
pub enum LegacyState {
    /// Between tags, with the text read so far, if any.
    Initial { text: Option<Seq<char>> },
    /// After `<`, reading the name of a start tag.
    StartName { name: Seq<char> },
    /// After `</`, reading the name of an end tag.
    EndName { name: Seq<char> },
    /// Inside a start tag, between attributes.
    TagOpen { tag: StartTagView },
    /// Reading an attribute's name, up to `=`.
    AttrName { tag: StartTagView, name: Seq<char> },
    /// Reading an attribute's value.
    AttrContent { tag: StartTagView, name: Seq<char>, value: Seq<char> },
}

/// A tokenizer at some point of its input: its state, whether a quote is
/// open, and the tokens it has emitted so far.
pub struct LegacyParser {
    pub state: LegacyState,
    pub quoted: bool,
    pub emitted: Seq<LegacyToken>,
}

/// The tokenizer before any input.
pub open spec fn legacy_initial() -> LegacyParser {
    LegacyParser { state: LegacyState::Initial { text: None }, quoted: false, emitted: Seq::empty() }
}

/// A start tag with a name and nothing else.
pub open spec fn bare_tag(name: Seq<char>) -> StartTagView {
    StartTagView { name, self_close: false, attrs: Map::empty() }
}

/// The tokenizer after reading one more character.
pub open spec fn legacy_step(parser: LegacyParser, ch: char) -> LegacyParser {
    let between = LegacyState::Initial { text: None };
    match parser.state {
        LegacyState::Initial { text } => if ch == '<' {
            LegacyParser {
                state: LegacyState::StartName { name: Seq::empty() },
                emitted: match text {
                    Some(content) => parser.emitted.push(LegacyToken::Text(content)),
                    None => parser.emitted,
                },
                ..parser
            }
        } else {
            LegacyParser {
                state: LegacyState::Initial {
                    text: Some(
                        match text {
                            Some(content) => content.push(ch),
                            None => seq![ch],
                        },
                    ),
                },
                ..parser
            }
        },
        LegacyState::StartName { name } => if ch == ' ' {
            LegacyParser { state: LegacyState::TagOpen { tag: bare_tag(name) }, ..parser }
        } else if ch == '>' {
            LegacyParser {
                state: between,
                emitted: parser.emitted.push(LegacyToken::StartTag(bare_tag(name))),
                ..parser
            }
        } else if ch == '/' {
            LegacyParser { state: LegacyState::EndName { name: Seq::empty() }, ..parser }
        } else {
            LegacyParser { state: LegacyState::StartName { name: name.push(ch) }, ..parser }
        },
        LegacyState::EndName { name } => if ch == ' ' {
            parser
        } else if ch == '>' {
            LegacyParser {
                state: between,
                emitted: parser.emitted.push(LegacyToken::EndTag { name }),
                ..parser
            }
        } else if ch == '/' {
            LegacyParser { state: LegacyState::EndName { name: Seq::empty() }, ..parser }
        } else {
            LegacyParser { state: LegacyState::EndName { name: name.push(ch) }, ..parser }
        },
        LegacyState::TagOpen { tag } => if ch == '>' {
            LegacyParser {
                state: between,
                emitted: parser.emitted.push(LegacyToken::StartTag(tag)),
                ..parser
            }
        } else if ch == '/' {
            LegacyParser {
                state: LegacyState::TagOpen { tag: StartTagView { self_close: true, ..tag } },
                ..parser
            }
        } else if ch == ' ' {
            parser
        } else {
            LegacyParser { state: LegacyState::AttrName { tag, name: seq![ch] }, ..parser }
        },
        LegacyState::AttrName { tag, name } => if ch == '=' {
            LegacyParser {
                state: LegacyState::AttrContent { tag, name, value: Seq::empty() },
                ..parser
            }
        } else {
            LegacyParser { state: LegacyState::AttrName { tag, name: name.push(ch) }, ..parser }
        },
        LegacyState::AttrContent { tag, name, value } => if ch == '>' {
            LegacyParser {
                state: between,
                emitted: parser.emitted.push(LegacyToken::StartTag(bind_spec(tag, name, value))),
                ..parser
            }
        } else if ch == '"' {
            if parser.quoted {
                LegacyParser {
                    state: LegacyState::TagOpen { tag: bind_spec(tag, name, value) },
                    quoted: false,
                    ..parser
                }
            } else {
                LegacyParser { quoted: true, ..parser }
            }
        } else {
            LegacyParser {
                state: LegacyState::AttrContent { tag, name, value: value.push(ch) },
                ..parser
            }
        },
    }
}

/// The tokenizer after reading `input`, one character after the other.
pub open spec fn legacy_feed(parser: LegacyParser, input: Seq<char>) -> LegacyParser
    decreases input.len(),
{
    if input.len() == 0 {
        parser
    } else {
        legacy_step(legacy_feed(parser, input.drop_last()), input.last())
    }
}

/// The tokens at the end of the input: what has been emitted, and after it
/// whatever is still being read. An attribute that is still being read is
/// dropped.
pub open spec fn legacy_finish(parser: LegacyParser) -> Seq<LegacyToken> {
    match parser.state {
        LegacyState::Initial { text } => match text {
            Some(content) => parser.emitted.push(LegacyToken::Text(content)),
            None => parser.emitted,
        },
        LegacyState::StartName { name } => parser.emitted.push(
            LegacyToken::StartTag(bare_tag(name)),
        ),
        LegacyState::EndName { name } => parser.emitted.push(LegacyToken::EndTag { name }),
        LegacyState::TagOpen { tag } => parser.emitted.push(LegacyToken::StartTag(tag)),
        LegacyState::AttrName { tag, name } => parser.emitted.push(LegacyToken::StartTag(tag)),
        LegacyState::AttrContent { tag, name, value } => parser.emitted.push(
            LegacyToken::StartTag(tag),
        ),
    }
}

/// The tokens of `input`.
pub open spec fn legacy_tokenize(input: Seq<char>) -> Seq<LegacyToken> {
    legacy_finish(legacy_feed(legacy_initial(), input))
}

enum ParserState {
    Initial { text: Option<String> },
    StartName { name: String },
    EndName { name: String },
    TagOpen { tag: HTMLStartTag },
    AttrName { tag: HTMLStartTag, name: String },
    AttrContent { tag: HTMLStartTag, name: String, value: String },
}

impl View for ParserState {
    type V = LegacyState;

    closed spec fn view(&self) -> LegacyState {
        match self {
            ParserState::Initial { text } => LegacyState::Initial {
                text: match text {
                    Some(content) => Some(content@),
                    None => None,
                },
            },
            ParserState::StartName { name } => LegacyState::StartName { name: name@ },
            ParserState::EndName { name } => LegacyState::EndName { name: name@ },
            ParserState::TagOpen { tag } => LegacyState::TagOpen { tag: tag@ },
            ParserState::AttrName { tag, name } => LegacyState::AttrName { tag: tag@, name: name@ },
            ParserState::AttrContent { tag, name, value } => LegacyState::AttrContent {
                tag: tag@,
                name: name@,
                value: value@,
            },
        }
    }
}

/// The tag with one more attribute bound.
fn bind(tag: HTMLStartTag, name: String, value: String) -> (bound: HTMLStartTag)
    ensures
        bound@ == bind_spec(tag@, name@, value@),
{
    let mut bound = tag;
    bound.attrs.insert(name, value);
    bound
}

/// The tokens of `html`, read byte by byte, each byte taken as the
/// character with that code point.
pub fn parse_tags(html: &str) -> (children: Vec<HTMLChild>)
    ensures
        legacy_tokens_view(children@) == legacy_tokenize(chars_of_bytes(html.spec_bytes())),
{
    let mut state = ParserState::Initial { text: None };
    let mut children: Vec<HTMLChild> = Vec::new();
    let mut attribute_has_quotation = false;
    let bytes = html.as_bytes();
    let ghost input = chars_of_bytes(bytes@);
    proof {
        assert(legacy_tokens_view(children@) =~= Seq::<LegacyToken>::empty());
        assert(input.take(0) =~= Seq::<char>::empty());
    }
    let mut i: usize = 0;
    while i < bytes.len()
        invariant
            i <= bytes@.len(),
            input == chars_of_bytes(bytes@),
            (LegacyParser {
                state: state@,
                quoted: attribute_has_quotation,
                emitted: legacy_tokens_view(children@),
            }) == legacy_feed(legacy_initial(), input.take(i as int)),
        decreases bytes@.len() - i,
    {
        let html_char = bytes[i] as char;
        let ghost before = legacy_tokens_view(children@);
        proof {
            assert(input.take(i + 1).drop_last() =~= input.take(i as int));
            assert(input.take(i + 1).last() == html_char);
        }
        state = match state {
            ParserState::Initial { text } => {
                if html_char == '<' {
                    match text {
                        Some(content) => {
                            let child = HTMLChild::Text(content);
                            proof {
                                assert(legacy_tokens_view(children@.push(child)) =~= before.push(
                                    child@,
                                ));
                            }
                            children.push(child);
                        },
                        None => {},
                    }
                    ParserState::StartName { name: String::new() }
                } else {
                    match text {
                        Some(content) => {
                            let mut content = content;
                            content.push(html_char);
                            ParserState::Initial { text: Some(content) }
                        },
                        None => ParserState::Initial { text: Some(string_of_char(html_char)) },
                    }
                }
            },
            ParserState::StartName { name } => {
                if html_char == ' ' {
                    ParserState::TagOpen { tag: HTMLStartTag::new(name) }
                } else if html_char == '>' {
                    let child = HTMLChild::StartTag(HTMLStartTag::new(name));
                    proof {
                        assert(legacy_tokens_view(children@.push(child)) =~= before.push(child@));
                    }
                    children.push(child);
                    ParserState::Initial { text: None }
                } else if html_char == '/' {
                    ParserState::EndName { name: String::new() }
                } else {
                    let mut name = name;
                    name.push(html_char);
                    ParserState::StartName { name }
                }
            },
            ParserState::EndName { name } => {
                if html_char == ' ' {
                    ParserState::EndName { name }
                } else if html_char == '>' {
                    let child = HTMLChild::EndTag(HTMLEndTag::new(name));
                    proof {
                        assert(legacy_tokens_view(children@.push(child)) =~= before.push(child@));
                    }
                    children.push(child);
                    ParserState::Initial { text: None }
                } else if html_char == '/' {
                    ParserState::EndName { name: String::new() }
                } else {
                    let mut name = name;
                    name.push(html_char);
                    ParserState::EndName { name }
                }
            },
            ParserState::TagOpen { tag } => {
                if html_char == '>' {
                    let child = HTMLChild::StartTag(tag);
                    proof {
                        assert(legacy_tokens_view(children@.push(child)) =~= before.push(child@));
                    }
                    children.push(child);
                    ParserState::Initial { text: None }
                } else if html_char == '/' {
                    let mut tag = tag;
                    tag.self_closes = true;
                    ParserState::TagOpen { tag }
                } else if html_char == ' ' {
                    ParserState::TagOpen { tag }
                } else {
                    ParserState::AttrName { tag, name: string_of_char(html_char) }
                }
            },
            ParserState::AttrName { tag, name } => {
                if html_char == '=' {
                    ParserState::AttrContent { tag, name, value: String::new() }
                } else {
                    let mut name = name;
                    name.push(html_char);
                    ParserState::AttrName { tag, name }
                }
            },
            ParserState::AttrContent { tag, name, value } => {
                if html_char == '>' {
                    let child = HTMLChild::StartTag(bind(tag, name, value));
                    proof {
                        assert(legacy_tokens_view(children@.push(child)) =~= before.push(child@));
                    }
                    children.push(child);
                    ParserState::Initial { text: None }
                } else if html_char == '"' {
                    if attribute_has_quotation {
                        attribute_has_quotation = false;
                        ParserState::TagOpen { tag: bind(tag, name, value) }
                    } else {
                        attribute_has_quotation = true;
                        ParserState::AttrContent { tag, name, value }
                    }
                } else {
                    let mut value = value;
                    value.push(html_char);
                    ParserState::AttrContent { tag, name, value }
                }
            },
        };
        i += 1;
    }
    proof {
        assert(input.take(i as int) =~= input);
    }
    let ghost emitted = legacy_tokens_view(children@);
    let last = match state {
        ParserState::Initial { text } => match text {
            Some(content) => Some(HTMLChild::Text(content)),
            None => None,
        },
        ParserState::StartName { name } => Some(HTMLChild::StartTag(HTMLStartTag::new(name))),
        ParserState::EndName { name } => Some(HTMLChild::EndTag(HTMLEndTag::new(name))),
        ParserState::TagOpen { tag } => Some(HTMLChild::StartTag(tag)),
        ParserState::AttrName { tag, name } => Some(HTMLChild::StartTag(tag)),
        ParserState::AttrContent { tag, name, value } => Some(HTMLChild::StartTag(tag)),
    };
    match last {
        Some(child) => {
            proof {
                assert(legacy_tokens_view(children@.push(child)) =~= emitted.push(child@));
            }
            children.push(child);
        },
        None => {},
    }
    children
}

} // verus!
