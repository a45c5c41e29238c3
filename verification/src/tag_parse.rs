//! The markup tokenizer: a character-driven state machine that turns
//! markup text into start-tag, end-tag and text tokens.
//!
//! The machine never fails. Malformed markup yields whatever tokens the
//! transitions produce; text after the last tag, and a tag that is never
//! closed by `>`, yield nothing.

use vstd::prelude::*;
use vstd::string::*;
use crate::attrs::Attributes;
use crate::strings::{chars_of_bytes, string_of_char};

verus! {

/// What a start tag holds: its name, whether it closes itself, and its
/// attributes.
pub struct StartTagView {
    pub name: Seq<char>,
    pub self_close: bool,
    pub attrs: Map<Seq<char>, Seq<char>>,
}

/// What a token holds.
pub enum Token {
    StartTag(StartTagView),
    EndTag,
    Text(Seq<char>),
}

/// A start tag, `<name attr="value" ...>` or `<name ... />`.
#[derive(Debug)]
pub struct HTMLStartTag {
    pub name: String,
    pub self_close: bool,
    pub attrs: Attributes,
}

impl View for HTMLStartTag {
    type V = StartTagView;

    open spec fn view(&self) -> StartTagView {
        StartTagView { name: self.name@, self_close: self.self_close, attrs: self.attrs@ }
    }
}

impl HTMLStartTag {
    /// A start tag without attributes.
    pub fn new(tagname: String, self_close: bool) -> (tag: HTMLStartTag)
        ensures
            tag@ == (StartTagView { name: tagname@, self_close, attrs: Map::empty() }),
    {
        HTMLStartTag { name: tagname, self_close, attrs: Attributes::new() }
    }

    /// A start tag with the given attributes.
    pub fn new_with_attrs(tagname: String, self_close: bool, attrs: Attributes) -> (tag:
        HTMLStartTag)
        ensures
            tag@ == (StartTagView { name: tagname@, self_close, attrs: attrs@ }),
    {
        HTMLStartTag { name: tagname, self_close, attrs }
    }

    /// A copy of the tag's name.
    pub fn clone_name(&self) -> (name: String)
        ensures
            name@ == self@.name,
    {
        self.name.clone()
    }

    /// A copy of the tag's attributes.
    pub fn clone_attrs(&self) -> (attrs: Attributes)
        ensures
            attrs@ == self@.attrs,
    {
        self.attrs.clone()
    }

    /// Whether the tag closes itself.
    pub fn is_self_close(&self) -> (closes: bool)
        ensures
            closes == self@.self_close,
    {
        self.self_close
    }
}

/// An end tag. It carries no name: whatever stood between `</` and `>` is
/// dropped.
#[derive(Debug)]
pub struct HTMLEndTag {}

impl HTMLEndTag {
    pub fn new() -> (tag: HTMLEndTag) {
        HTMLEndTag {  }
    }
}

/// One token of markup.
#[derive(Debug)]
pub enum HTMLChild {
    StartTag(HTMLStartTag),
    EndTag(HTMLEndTag),
    Text(String),
}

impl View for HTMLChild {
    type V = Token;

    open spec fn view(&self) -> Token {
        match self {
            HTMLChild::StartTag(tag) => Token::StartTag(tag@),
            HTMLChild::EndTag(_) => Token::EndTag,
            HTMLChild::Text(content) => Token::Text(content@),
        }
    }
}

/// What a list of tokens holds.
pub open spec fn tokens_view(tokens: Seq<HTMLChild>) -> Seq<Token> {
    Seq::new(tokens.len(), |i: int| tokens[i]@)
}

/// The states of the tokenizer, over plain character sequences.
pub enum LexState {
    /// Between tokens.
    Initial,
    /// Inside text.
    Text { content: Seq<char> },
    /// After `<`, reading the tag's name.
    TagName { name: Seq<char>, self_closing: bool, is_end: bool },
    /// Inside a start tag, between attributes.
    TagBody { tag: StartTagView },
    /// Reading an attribute's name, up to `=`.
    AttributeName { tag: StartTagView, name: Seq<char> },
    /// Reading an attribute's value.
    AttributeValue { tag: StartTagView, name: Seq<char>, value: Seq<char>, has_quotation: bool },
}

/// The state right after `<`.
pub open spec fn fresh_tag_name() -> LexState {
    LexState::TagName { name: Seq::empty(), self_closing: false, is_end: false }
}

/// The tag with one more attribute bound.
pub open spec fn bind_spec(tag: StartTagView, name: Seq<char>, value: Seq<char>) -> StartTagView {
    StartTagView { attrs: tag.attrs.insert(name, value), ..tag }
}

/// One transition: the state after reading `ch`, and the token that
/// reading it emits, if any.
pub open spec fn step_spec(state: LexState, ch: char) -> (LexState, Option<Token>) {
    match state {
        LexState::Initial => if ch == '<' {
            (fresh_tag_name(), None)
        } else {
            (LexState::Text { content: seq![ch] }, None)
        },
        LexState::Text { content } => if ch == '<' {
            (fresh_tag_name(), Some(Token::Text(content)))
        } else {
            (LexState::Text { content: content.push(ch) }, None)
        },
        LexState::TagName { name, self_closing, is_end } => if ch == ' ' {
            if name.len() == 0 || is_end {
                (state, None)
            } else {
                (
                    LexState::TagBody {
                        tag: StartTagView { name, self_close: self_closing, attrs: Map::empty() },
                    },
                    None,
                )
            }
        } else if ch == '/' {
            if name.len() == 0 {
                (LexState::TagName { name, self_closing, is_end: true }, None)
            } else {
                (LexState::TagName { name, self_closing: true, is_end }, None)
            }
        } else if ch == '>' {
            if is_end {
                (LexState::Initial, Some(Token::EndTag))
            } else {
                (
                    LexState::Initial,
                    Some(
                        Token::StartTag(
                            StartTagView { name, self_close: self_closing, attrs: Map::empty() },
                        ),
                    ),
                )
            }
        } else {
            (LexState::TagName { name: name.push(ch), self_closing, is_end }, None)
        },
        LexState::TagBody { tag } => if ch == '>' {
            (LexState::Initial, Some(Token::StartTag(tag)))
        } else if ch == '/' {
            (LexState::TagBody { tag: StartTagView { self_close: true, ..tag } }, None)
        } else if ch == ' ' {
            (state, None)
        } else {
            (LexState::AttributeName { tag, name: seq![ch] }, None)
        },
        LexState::AttributeName { tag, name } => if ch == '=' {
            (
                LexState::AttributeValue { tag, name, value: Seq::empty(), has_quotation: false },
                None,
            )
        } else {
            (LexState::AttributeName { tag, name: name.push(ch) }, None)
        },
        LexState::AttributeValue { tag, name, value, has_quotation } => if has_quotation {
            if ch == '"' {
                (LexState::TagBody { tag: bind_spec(tag, name, value) }, None)
            } else {
                (
                    LexState::AttributeValue { tag, name, value: value.push(ch), has_quotation },
                    None,
                )
            }
        } else if ch == '>' {
            (LexState::Initial, Some(Token::StartTag(bind_spec(tag, name, value))))
        } else if ch == '"' && value.len() == 0 {
            (LexState::AttributeValue { tag, name, value, has_quotation: true }, None)
        } else {
            (LexState::AttributeValue { tag, name, value: value.push(ch), has_quotation }, None)
        },
    }
}

/// A tokenizer at some point of its input: its state and the tokens it has
/// emitted so far.
pub struct ParserView {
    pub state: LexState,
    pub emitted: Seq<Token>,
}

/// The tokenizer before any input.
pub open spec fn initial_parser() -> ParserView {
    ParserView { state: LexState::Initial, emitted: Seq::empty() }
}

/// The tokenizer after reading one more character.
pub open spec fn advance(parser: ParserView, ch: char) -> ParserView {
    let (state, token) = step_spec(parser.state, ch);
    ParserView {
        state,
        emitted: match token {
            Some(t) => parser.emitted.push(t),
            None => parser.emitted,
        },
    }
}

/// The tokenizer after reading `input`, one character after the other.
pub open spec fn feed(parser: ParserView, input: Seq<char>) -> ParserView
    decreases input.len(),
{
    if input.len() == 0 {
        parser
    } else {
        advance(feed(parser, input.drop_last()), input.last())
    }
}

/// The tokens of `input`.
pub open spec fn tokenize(input: Seq<char>) -> Seq<Token> {
    feed(initial_parser(), input).emitted
}

/// Reading `a` and then `b` is reading `a + b`.
pub proof fn lemma_feed_concat(parser: ParserView, a: Seq<char>, b: Seq<char>)
    ensures
        feed(parser, a + b) == feed(feed(parser, a), b),
    decreases b.len(),
{
    if b.len() == 0 {
        assert(a + b =~= a);
    } else {
        lemma_feed_concat(parser, a, b.drop_last());
        assert((a + b).drop_last() =~= a + b.drop_last());
        assert((a + b).last() == b.last());
    }
}

enum ParseState {
    Initial,
    Text { content: String },
    TagName { name: String, self_closing: bool, is_end: bool },
    TagBody { tag: HTMLStartTag },
    AttributeName { tag: HTMLStartTag, name: String },
    AttributeValue { tag: HTMLStartTag, name: String, value: String, has_quotation: bool },
}

impl View for ParseState {
    type V = LexState;

    closed spec fn view(&self) -> LexState {
        match self {
            ParseState::Initial => LexState::Initial,
            ParseState::Text { content } => LexState::Text { content: content@ },
            ParseState::TagName { name, self_closing, is_end } => LexState::TagName {
                name: name@,
                self_closing: *self_closing,
                is_end: *is_end,
            },
            ParseState::TagBody { tag } => LexState::TagBody { tag: tag@ },
            ParseState::AttributeName { tag, name } => LexState::AttributeName {
                tag: tag@,
                name: name@,
            },
            ParseState::AttributeValue { tag, name, value, has_quotation } => LexState::AttributeValue {
                tag: tag@,
                name: name@,
                value: value@,
                has_quotation: *has_quotation,
            },
        }
    }
}

/// What an optional token holds.
pub open spec fn emitted_view(token: Option<HTMLChild>) -> Option<Token> {
    match token {
        Some(t) => Some(t@),
        None => None,
    }
}

/// The state right after `<`.
fn new_tag_name() -> (state: ParseState)
    ensures
        state@ == fresh_tag_name(),
{
    ParseState::TagName { name: String::new(), self_closing: false, is_end: false }
}

/// Binds the pending attribute into the tag.
fn bind(tag: HTMLStartTag, name: String, value: String) -> (bound: HTMLStartTag)
    ensures
        bound@ == bind_spec(tag@, name@, value@),
{
    let mut bound = tag;
    bound.attrs.insert(name, value);
    bound
}

fn step_initial(ch: char) -> (r: (ParseState, Option<HTMLChild>))
    ensures
        (r.0@, emitted_view(r.1)) == step_spec(LexState::Initial, ch),
{
    if ch == '<' {
        (new_tag_name(), None)
    } else {
        (ParseState::Text { content: string_of_char(ch) }, None)
    }
}

fn step_text(content: String, ch: char) -> (r: (ParseState, Option<HTMLChild>))
    ensures
        (r.0@, emitted_view(r.1)) == step_spec(LexState::Text { content: content@ }, ch),
{
    if ch == '<' {
        (new_tag_name(), Some(HTMLChild::Text(content)))
    } else {
        let mut content = content;
        content.push(ch);
        (ParseState::Text { content }, None)
    }
}

fn step_tag_name(name: String, self_closing: bool, is_end: bool, ch: char) -> (r: (
    ParseState,
    Option<HTMLChild>,
))
    ensures
        (r.0@, emitted_view(r.1)) == step_spec(
            LexState::TagName { name: name@, self_closing, is_end },
            ch,
        ),
{
    if ch == ' ' {
        if name.as_str().unicode_len() == 0 || is_end {
            (ParseState::TagName { name, self_closing, is_end }, None)
        } else {
            (ParseState::TagBody { tag: HTMLStartTag::new(name, self_closing) }, None)
        }
    } else if ch == '/' {
        if name.as_str().unicode_len() == 0 {
            (ParseState::TagName { name, self_closing, is_end: true }, None)
        } else {
            (ParseState::TagName { name, self_closing: true, is_end }, None)
        }
    } else if ch == '>' {
        if is_end {
            (ParseState::Initial, Some(HTMLChild::EndTag(HTMLEndTag::new())))
        } else {
            (
                ParseState::Initial,
                Some(HTMLChild::StartTag(HTMLStartTag::new(name, self_closing))),
            )
        }
    } else {
        let mut name = name;
        name.push(ch);
        (ParseState::TagName { name, self_closing, is_end }, None)
    }
}

fn step_tag_body(tag: HTMLStartTag, ch: char) -> (r: (ParseState, Option<HTMLChild>))
    ensures
        (r.0@, emitted_view(r.1)) == step_spec(LexState::TagBody { tag: tag@ }, ch),
{
    if ch == '>' {
        (ParseState::Initial, Some(HTMLChild::StartTag(tag)))
    } else if ch == '/' {
        let mut tag = tag;
        tag.self_close = true;
        (ParseState::TagBody { tag }, None)
    } else if ch == ' ' {
        (ParseState::TagBody { tag }, None)
    } else {
        (ParseState::AttributeName { tag, name: string_of_char(ch) }, None)
    }
}

fn step_attribute_name(tag: HTMLStartTag, name: String, ch: char) -> (r: (
    ParseState,
    Option<HTMLChild>,
))
    ensures
        (r.0@, emitted_view(r.1)) == step_spec(
            LexState::AttributeName { tag: tag@, name: name@ },
            ch,
        ),
{
    if ch == '=' {
        (
            ParseState::AttributeValue { tag, name, value: String::new(), has_quotation: false },
            None,
        )
    } else {
        let mut name = name;
        name.push(ch);
        (ParseState::AttributeName { tag, name }, None)
    }
}

fn step_attribute_value(
    tag: HTMLStartTag,
    name: String,
    value: String,
    has_quotation: bool,
    ch: char,
) -> (r: (ParseState, Option<HTMLChild>))
    ensures
        (r.0@, emitted_view(r.1)) == step_spec(
            LexState::AttributeValue { tag: tag@, name: name@, value: value@, has_quotation },
            ch,
        ),
{
    if has_quotation {
        if ch == '"' {
            (ParseState::TagBody { tag: bind(tag, name, value) }, None)
        } else {
            let mut value = value;
            value.push(ch);
            (ParseState::AttributeValue { tag, name, value, has_quotation }, None)
        }
    } else if ch == '>' {
        (ParseState::Initial, Some(HTMLChild::StartTag(bind(tag, name, value))))
    } else if ch == '"' && value.as_str().unicode_len() == 0 {
        (ParseState::AttributeValue { tag, name, value, has_quotation: true }, None)
    } else {
        let mut value = value;
        value.push(ch);
        (ParseState::AttributeValue { tag, name, value, has_quotation }, None)
    }
}

/// One transition of the machine.
fn step(state: ParseState, ch: char) -> (r: (ParseState, Option<HTMLChild>))
    ensures
        (r.0@, emitted_view(r.1)) == step_spec(state@, ch),
{
    match state {
        ParseState::Initial => step_initial(ch),
        ParseState::Text { content } => step_text(content, ch),
        ParseState::TagName { name, self_closing, is_end } => step_tag_name(
            name,
            self_closing,
            is_end,
            ch,
        ),
        ParseState::TagBody { tag } => step_tag_body(tag, ch),
        ParseState::AttributeName { tag, name } => step_attribute_name(tag, name, ch),
        ParseState::AttributeValue { tag, name, value, has_quotation } => step_attribute_value(
            tag,
            name,
            value,
            has_quotation,
            ch,
        ),
    }
}

/// The tokenizer: feed it markup with `parse`, then take the tokens with
/// `get_nodes`.
pub struct TagParser {
    state: ParseState,
    nodes: Vec<HTMLChild>,
}

impl View for TagParser {
    type V = ParserView;

    closed spec fn view(&self) -> ParserView {
        ParserView { state: self.state@, emitted: tokens_view(self.nodes@) }
    }
}

impl TagParser {
    /// A tokenizer that has read nothing.
    pub fn new() -> (parser: TagParser)
        ensures
            parser@ == initial_parser(),
    {
        let parser = TagParser { state: ParseState::Initial, nodes: Vec::new() };
        proof {
            assert(parser@.emitted =~= Seq::empty());
        }
        parser
    }

    /// The tokens emitted so far, in the order of the input.
    pub fn get_nodes(self) -> (nodes: Vec<HTMLChild>)
        ensures
            tokens_view(nodes@) == self@.emitted,
    {
        self.nodes
    }

    fn emit(&mut self, node: HTMLChild)
        ensures
            final(self)@.emitted == old(self)@.emitted.push(node@),
            final(self)@.state == old(self)@.state,
    {
        self.nodes.push(node);
        proof {
            assert(tokens_view(self.nodes@) =~= tokens_view(old(self).nodes@).push(node@));
        }
    }

    fn consume(&mut self, ch: char)
        ensures
            final(self)@ == advance(old(self)@, ch),
    {
        let mut state = ParseState::Initial;
        core::mem::swap(&mut self.state, &mut state);
        let (next, token) = step(state, ch);
        self.state = next;
        match token {
            Some(node) => {
                self.emit(node);
            },
            None => {},
        }
    }

    /// Reads `html` byte by byte, each byte taken as the character with
    /// that code point. For text of ASCII characters these are the
    /// characters of the text.
    pub fn parse(&mut self, html: &str)
        ensures
            final(self)@ == feed(old(self)@, chars_of_bytes(html.spec_bytes())),
    {
        let bytes = html.as_bytes();
        let ghost input = chars_of_bytes(bytes@);
        let mut i: usize = 0;
        while i < bytes.len()
            invariant
                i <= bytes@.len(),
                input == chars_of_bytes(bytes@),
                self@ == feed(old(self)@, input.take(i as int)),
            decreases bytes@.len() - i,
        {
            proof {
                assert(input.take(i + 1).drop_last() =~= input.take(i as int));
            }
            self.consume(bytes[i] as char);
            i += 1;
        }
        proof {
            assert(input.take(i as int) =~= input);
        }
    }
}

} // verus!
