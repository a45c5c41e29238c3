//! Writing tokens back as markup, and the round trip: the tokenizer reads
//! what is written here as the tokens that were written.

use vstd::prelude::*;
use crate::attrs::map_of;
use crate::tag_parse::{
    advance,
    bind_spec,
    feed,
    fresh_tag_name,
    initial_parser,
    lemma_feed_concat,
    tokenize,
    LexState,
    ParserView,
    StartTagView,
    Token,
};

verus! {

/// A start tag to be written: its attributes come in the order in which
/// they are to appear.
pub struct WrittenTag {
    pub name: Seq<char>,
    pub attrs: Seq<(Seq<char>, Seq<char>)>,
    pub self_close: bool,
}

/// A token to be written.
pub enum Written {
    StartTag(WrittenTag),
    EndTag,
    Text(Seq<char>),
}

/// An attribute as markup: a space, the name, and the value in quotes.
pub open spec fn render_attr(name: Seq<char>, value: Seq<char>) -> Seq<char> {
    seq![' '] + name + seq!['=', '"'] + value + seq!['"']
}

/// The attributes as markup, in order.
pub open spec fn render_attrs(attrs: Seq<(Seq<char>, Seq<char>)>) -> Seq<char>
    decreases attrs.len(),
{
    if attrs.len() == 0 {
        Seq::empty()
    } else {
        render_attrs(attrs.drop_last()) + render_attr(attrs.last().0, attrs.last().1)
    }
}

/// What closes a start tag: `/>` where it closes itself, else `>`.
pub open spec fn render_close(self_close: bool) -> Seq<char> {
    if self_close {
        seq!['/', '>']
    } else {
        seq!['>']
    }
}

/// A token as markup. An end tag is written without a name.
pub open spec fn render_token(token: Written) -> Seq<char> {
    match token {
        Written::StartTag(tag) => seq!['<'] + tag.name + render_attrs(tag.attrs) + render_close(
            tag.self_close,
        ),
        Written::EndTag => seq!['<', '/', '>'],
        Written::Text(content) => content,
    }
}

/// The tokens as markup, one after the other.
pub open spec fn render(tokens: Seq<Written>) -> Seq<char>
    decreases tokens.len(),
{
    if tokens.len() == 0 {
        Seq::empty()
    } else {
        render(tokens.drop_last()) + render_token(tokens.last())
    }
}

/// The token that the tokenizer is to give for a written one.
pub open spec fn token_of(token: Written) -> Token {
    match token {
        Written::StartTag(tag) => Token::StartTag(
            StartTagView { name: tag.name, self_close: tag.self_close, attrs: map_of(tag.attrs) },
        ),
        Written::EndTag => Token::EndTag,
        Written::Text(content) => Token::Text(content),
    }
}

/// The tokens that the tokenizer is to give for written ones.
pub open spec fn tokens_of(tokens: Seq<Written>) -> Seq<Token> {
    Seq::new(tokens.len(), |i: int| token_of(tokens[i]))
}

/// A tag name that can be read back: not empty, and free of the characters
/// that end a name.
pub open spec fn name_ok(name: Seq<char>) -> bool {
    &&& name.len() > 0
    &&& forall|i: int|
        0 <= i < name.len() ==> (#[trigger] name[i]) != ' ' && name[i] != '/' && name[i] != '>'
}

/// An attribute that can be read back: its name is not empty, does not
/// begin like the end of a tag and holds no `=`, and its value holds no
/// quote.
pub open spec fn attr_ok(attr: (Seq<char>, Seq<char>)) -> bool {
    &&& attr.0.len() > 0
    &&& attr.0[0] != ' ' && attr.0[0] != '/' && attr.0[0] != '>'
    &&& forall|i: int| 0 <= i < attr.0.len() ==> (#[trigger] attr.0[i]) != '='
    &&& forall|i: int| 0 <= i < attr.1.len() ==> (#[trigger] attr.1[i]) != '"'
}

/// A token that can be read back.
pub open spec fn well_formed_token(token: Written) -> bool {
    match token {
        Written::StartTag(tag) => name_ok(tag.name) && forall|i: int|
            0 <= i < tag.attrs.len() ==> attr_ok(#[trigger] tag.attrs[i]),
        Written::EndTag => true,
        Written::Text(content) => content.len() > 0 && forall|i: int|
            0 <= i < content.len() ==> (#[trigger] content[i]) != '<',
    }
}

/// Tokens that can be read back up to a text at their end: each can be
/// read back by itself, and no text follows a text.
pub open spec fn well_formed_run(tokens: Seq<Written>) -> bool {
    &&& forall|i: int| 0 <= i < tokens.len() ==> well_formed_token(#[trigger] tokens[i])
    &&& forall|i: int|
        0 <= i < tokens.len() - 1 && (#[trigger] tokens[i]) is Text ==> !(tokens[i + 1] is Text)
}

/// Tokens that can be read back: a well-formed run in which a tag follows
/// every text, so that no text stands at the end.
pub open spec fn well_formed(tokens: Seq<Written>) -> bool {
    well_formed_run(tokens) && (tokens.len() > 0 ==> !(tokens.last() is Text))
}

/// The tokenizer after a well-formed run: a text at the end is still being
/// read, everything before it has been emitted.
pub open spec fn after_run(tokens: Seq<Written>) -> ParserView {
    if tokens.len() > 0 && tokens.last() is Text {
        ParserView {
            state: LexState::Text { content: tokens.last()->Text_0 },
            emitted: tokens_of(tokens.drop_last()),
        }
    } else {
        ParserView { state: LexState::Initial, emitted: tokens_of(tokens) }
    }
}

proof fn lemma_feed_one(parser: ParserView, ch: char)
    ensures
        feed(parser, seq![ch]) == advance(parser, ch),
{
    assert(seq![ch].drop_last() =~= Seq::<char>::empty());
    assert(feed(parser, seq![ch].drop_last()) == parser);
}

proof fn lemma_feed_first(parser: ParserView, ch: char, rest: Seq<char>)
    ensures
        feed(parser, seq![ch] + rest) == feed(advance(parser, ch), rest),
{
    lemma_feed_concat(parser, seq![ch], rest);
    lemma_feed_one(parser, ch);
}

proof fn lemma_feed_last(parser: ParserView, front: Seq<char>, ch: char)
    ensures
        feed(parser, front + seq![ch]) == advance(feed(parser, front), ch),
{
    lemma_feed_concat(parser, front, seq![ch]);
    lemma_feed_one(feed(parser, front), ch);
}

/// Inside text, characters other than `<` are gathered.
proof fn lemma_feed_text(emitted: Seq<Token>, content: Seq<char>, more: Seq<char>)
    requires
        forall|i: int| 0 <= i < more.len() ==> (#[trigger] more[i]) != '<',
    ensures
        feed(ParserView { state: LexState::Text { content }, emitted }, more) == (ParserView {
            state: LexState::Text { content: content + more },
            emitted,
        }),
    decreases more.len(),
{
    if more.len() == 0 {
        assert(content + more =~= content);
    } else {
        lemma_feed_text(emitted, content, more.drop_last());
        assert(more.last() == more[more.len() - 1]);
        assert((content + more.drop_last()).push(more.last()) =~= content + more);
    }
}

/// Inside a tag name, characters that do not end the name are gathered.
proof fn lemma_feed_name(
    emitted: Seq<Token>,
    name: Seq<char>,
    self_closing: bool,
    is_end: bool,
    more: Seq<char>,
)
    requires
        forall|i: int|
            0 <= i < more.len() ==> (#[trigger] more[i]) != ' ' && more[i] != '/' && more[i] != '>',
    ensures
        feed(ParserView { state: LexState::TagName { name, self_closing, is_end }, emitted }, more)
            == (ParserView {
            state: LexState::TagName { name: name + more, self_closing, is_end },
            emitted,
        }),
    decreases more.len(),
{
    if more.len() == 0 {
        assert(name + more =~= name);
    } else {
        lemma_feed_name(emitted, name, self_closing, is_end, more.drop_last());
        assert(more.last() == more[more.len() - 1]);
        assert((name + more.drop_last()).push(more.last()) =~= name + more);
    }
}

/// Inside an attribute name, characters other than `=` are gathered.
proof fn lemma_feed_attr_name(
    emitted: Seq<Token>,
    tag: StartTagView,
    name: Seq<char>,
    more: Seq<char>,
)
    requires
        forall|i: int| 0 <= i < more.len() ==> (#[trigger] more[i]) != '=',
    ensures
        feed(ParserView { state: LexState::AttributeName { tag, name }, emitted }, more) == (
        ParserView { state: LexState::AttributeName { tag, name: name + more }, emitted }),
    decreases more.len(),
{
    if more.len() == 0 {
        assert(name + more =~= name);
    } else {
        lemma_feed_attr_name(emitted, tag, name, more.drop_last());
        assert(more.last() == more[more.len() - 1]);
        assert((name + more.drop_last()).push(more.last()) =~= name + more);
    }
}

/// Inside a quoted attribute value, characters other than the quote are
/// gathered.
proof fn lemma_feed_attr_value(
    emitted: Seq<Token>,
    tag: StartTagView,
    name: Seq<char>,
    value: Seq<char>,
    more: Seq<char>,
)
    requires
        forall|i: int| 0 <= i < more.len() ==> (#[trigger] more[i]) != '"',
    ensures
        feed(
            ParserView {
                state: LexState::AttributeValue { tag, name, value, has_quotation: true },
                emitted,
            },
            more,
        ) == (ParserView {
            state: LexState::AttributeValue { tag, name, value: value + more, has_quotation: true },
            emitted,
        }),
    decreases more.len(),
{
    if more.len() == 0 {
        assert(value + more =~= value);
    } else {
        lemma_feed_attr_value(emitted, tag, name, value, more.drop_last());
        assert(more.last() == more[more.len() - 1]);
        assert((value + more.drop_last()).push(more.last()) =~= value + more);
    }
}

/// Between attributes, a written attribute without its leading space is
/// read as that attribute.
proof fn lemma_feed_attr(emitted: Seq<Token>, tag: StartTagView, attr: (Seq<char>, Seq<char>))
    requires
        attr_ok(attr),
    ensures
        feed(
            ParserView { state: LexState::TagBody { tag }, emitted },
            attr.0 + seq!['=', '"'] + attr.1 + seq!['"'],
        ) == (ParserView { state: LexState::TagBody { tag: bind_spec(tag, attr.0, attr.1) }, emitted }),
{
    let name = attr.0;
    let value = attr.1;
    let start = ParserView { state: LexState::TagBody { tag }, emitted };
    let text = name + seq!['=', '"'] + value + seq!['"'];
    let name_rest = name.drop_first();
    assert(text =~= seq![name[0]] + (name_rest + seq!['='] + seq!['"'] + value + seq!['"']));
    lemma_feed_first(start, name[0], name_rest + seq!['='] + seq!['"'] + value + seq!['"']);
    let named = ParserView { state: LexState::AttributeName { tag, name: seq![name[0]] }, emitted };
    assert(advance(start, name[0]) == named);
    lemma_feed_concat(named, name_rest, seq!['='] + seq!['"'] + value + seq!['"']);
    assert(name_rest + seq!['='] + seq!['"'] + value + seq!['"'] =~= name_rest + (seq!['=']
        + seq!['"'] + value + seq!['"']));
    assert forall|i: int| 0 <= i < name_rest.len() implies (#[trigger] name_rest[i]) != '=' by {
        assert(name_rest[i] == name[i + 1]);
    }
    lemma_feed_attr_name(emitted, tag, seq![name[0]], name_rest);
    assert(seq![name[0]] + name_rest =~= name);
    let full_name = ParserView { state: LexState::AttributeName { tag, name }, emitted };
    assert(feed(named, name_rest) == full_name);
    assert(seq!['='] + seq!['"'] + value + seq!['"'] =~= seq!['='] + (seq!['"'] + (value
        + seq!['"'])));
    lemma_feed_first(full_name, '=', seq!['"'] + (value + seq!['"']));
    let unquoted = ParserView {
        state: LexState::AttributeValue { tag, name, value: Seq::empty(), has_quotation: false },
        emitted,
    };
    assert(advance(full_name, '=') == unquoted);
    lemma_feed_first(unquoted, '"', value + seq!['"']);
    let quoted = ParserView {
        state: LexState::AttributeValue { tag, name, value: Seq::empty(), has_quotation: true },
        emitted,
    };
    assert(advance(unquoted, '"') == quoted);
    lemma_feed_last(quoted, value, '"');
    lemma_feed_attr_value(emitted, tag, name, Seq::empty(), value);
    assert(Seq::<char>::empty() + value =~= value);
}

/// The tag with the given attributes bound in order.
pub open spec fn bind_all(tag: StartTagView, attrs: Seq<(Seq<char>, Seq<char>)>) -> StartTagView
    decreases attrs.len(),
{
    if attrs.len() == 0 {
        tag
    } else {
        bind_spec(bind_all(tag, attrs.drop_last()), attrs.last().0, attrs.last().1)
    }
}

/// Binding attributes into a tag without attributes gives the mapping that
/// the attributes denote.
proof fn lemma_bind_all(name: Seq<char>, self_close: bool, attrs: Seq<(Seq<char>, Seq<char>)>)
    ensures
        bind_all(StartTagView { name, self_close, attrs: Map::empty() }, attrs) == (StartTagView {
            name,
            self_close,
            attrs: map_of(attrs),
        }),
    decreases attrs.len(),
{
    if attrs.len() > 0 {
        lemma_bind_all(name, self_close, attrs.drop_last());
    }
}

/// After a tag's name, written attributes are read as those attributes.
proof fn lemma_feed_attrs(
    emitted: Seq<Token>,
    name: Seq<char>,
    self_closing: bool,
    attrs: Seq<(Seq<char>, Seq<char>)>,
)
    requires
        name.len() > 0,
        attrs.len() > 0,
        forall|i: int| 0 <= i < attrs.len() ==> attr_ok(#[trigger] attrs[i]),
    ensures
        feed(
            ParserView {
                state: LexState::TagName { name, self_closing, is_end: false },
                emitted,
            },
            render_attrs(attrs),
        ) == (ParserView {
            state: LexState::TagBody {
                tag: bind_all(
                    StartTagView { name, self_close: self_closing, attrs: Map::empty() },
                    attrs,
                ),
            },
            emitted,
        }),
    decreases attrs.len(),
{
    let start = ParserView {
        state: LexState::TagName { name, self_closing, is_end: false },
        emitted,
    };
    let bare = StartTagView { name, self_close: self_closing, attrs: Map::empty() };
    let front = attrs.drop_last();
    let last = attrs.last();
    assert(attr_ok(attrs[attrs.len() - 1]));
    let body = last.0 + seq!['=', '"'] + last.1 + seq!['"'];
    assert(render_attr(last.0, last.1) =~= seq![' '] + body);
    let before = ParserView { state: LexState::TagBody { tag: bind_all(bare, front) }, emitted };
    if front.len() == 0 {
        assert(render_attrs(front) =~= Seq::<char>::empty());
        assert(render_attrs(attrs) =~= seq![' '] + body);
        lemma_feed_first(start, ' ', body);
        assert(advance(start, ' ') == before);
    } else {
        assert forall|i: int| 0 <= i < front.len() implies attr_ok(#[trigger] front[i]) by {
            assert(front[i] == attrs[i]);
        }
        lemma_feed_attrs(emitted, name, self_closing, front);
        lemma_feed_concat(start, render_attrs(front), seq![' '] + body);
        lemma_feed_first(before, ' ', body);
        assert(advance(before, ' ') == before);
    }
    lemma_feed_attr(emitted, bind_all(bare, front), last);
}

/// From between tokens, or from inside a text, a written tag is read as
/// that tag; the text, if there was one, is emitted before it.
proof fn lemma_feed_tag(parser: ParserView, emitted: Seq<Token>, token: Written)
    requires
        well_formed_token(token),
        !(token is Text),
        advance(parser, '<') == (ParserView { state: fresh_tag_name(), emitted }),
    ensures
        feed(parser, render_token(token)) == (ParserView {
            state: LexState::Initial,
            emitted: emitted.push(token_of(token)),
        }),
{
    let opened = ParserView { state: fresh_tag_name(), emitted };
    match token {
        Written::EndTag => {
            assert(render_token(token) =~= seq!['<'] + (seq!['/'] + seq!['>']));
            lemma_feed_first(parser, '<', seq!['/'] + seq!['>']);
            lemma_feed_first(opened, '/', seq!['>']);
            lemma_feed_one(advance(opened, '/'), '>');
        },
        Written::StartTag(tag) => {
            let rest = tag.name + render_attrs(tag.attrs) + render_close(tag.self_close);
            assert(render_token(token) =~= seq!['<'] + rest);
            lemma_feed_first(parser, '<', rest);
            assert(rest =~= tag.name + (render_attrs(tag.attrs) + render_close(tag.self_close)));
            lemma_feed_concat(
                opened,
                tag.name,
                render_attrs(tag.attrs) + render_close(tag.self_close),
            );
            lemma_feed_name(emitted, Seq::empty(), false, false, tag.name);
            assert(Seq::<char>::empty() + tag.name =~= tag.name);
            let named = ParserView {
                state: LexState::TagName { name: tag.name, self_closing: false, is_end: false },
                emitted,
            };
            assert(feed(opened, tag.name) == named);
            lemma_feed_concat(named, render_attrs(tag.attrs), render_close(tag.self_close));
            lemma_bind_all(tag.name, false, tag.attrs);
            if tag.attrs.len() == 0 {
                assert(render_attrs(tag.attrs) =~= Seq::<char>::empty());
                assert(map_of(tag.attrs) =~= Map::empty());
                if tag.self_close {
                    assert(render_close(true) =~= seq!['/'] + seq!['>']);
                    lemma_feed_first(named, '/', seq!['>']);
                    lemma_feed_one(advance(named, '/'), '>');
                } else {
                    lemma_feed_one(named, '>');
                }
            } else {
                lemma_feed_attrs(emitted, tag.name, false, tag.attrs);
                let body = feed(named, render_attrs(tag.attrs));
                if tag.self_close {
                    assert(render_close(true) =~= seq!['/'] + seq!['>']);
                    lemma_feed_first(body, '/', seq!['>']);
                    lemma_feed_one(advance(body, '/'), '>');
                } else {
                    lemma_feed_one(body, '>');
                }
            }
        },
        Written::Text(_) => {},
    }
}

/// The tokenizer reads the markup of a well-formed run as the run.
pub proof fn lemma_feed_run(tokens: Seq<Written>)
    requires
        well_formed_run(tokens),
    ensures
        feed(initial_parser(), render(tokens)) == after_run(tokens),
    decreases tokens.len(),
{
    if tokens.len() == 0 {
        assert(tokens_of(tokens) =~= Seq::<Token>::empty());
    } else {
        let front = tokens.drop_last();
        let last = tokens.last();
        assert(well_formed_token(tokens[tokens.len() - 1]));
        assert forall|i: int| 0 <= i < front.len() implies well_formed_token(#[trigger] front[i]) by {
            assert(front[i] == tokens[i]);
        }
        assert forall|i: int| 0 <= i < front.len() - 1 && (#[trigger] front[i]) is Text implies !(front[
            i + 1] is Text) by {
            assert(front[i] == tokens[i]);
            assert(front[i + 1] == tokens[i + 1]);
        }
        lemma_feed_run(front);
        lemma_feed_concat(initial_parser(), render(front), render_token(last));
        let reached = after_run(front);
        assert(tokens_of(tokens).drop_last() =~= tokens_of(front));
        match last {
            Written::Text(content) => {
                if front.len() > 0 {
                    assert(tokens[front.len() - 1] == front.last());
                    assert(!(tokens[front.len() - 1] is Text));
                }
                let rest = content.drop_first();
                assert(content =~= seq![content[0]] + rest);
                lemma_feed_first(reached, content[0], rest);
                assert forall|i: int| 0 <= i < rest.len() implies (#[trigger] rest[i]) != '<' by {
                    assert(rest[i] == content[i + 1]);
                }
                lemma_feed_text(reached.emitted, seq![content[0]], rest);
            },
            _ => {
                let emitted = tokens_of(front);
                if front.len() > 0 && front.last() is Text {
                    assert(tokens_of(front.drop_last()).push(token_of(front.last())) =~= emitted);
                }
                lemma_feed_tag(reached, emitted, last);
                assert(emitted.push(token_of(last)) =~= tokens_of(tokens));
            },
        }
    }
}

/// Round trip: well-formed tokens, written as markup and tokenized again,
/// are the tokens that were written, with the attributes of each start tag
/// as the mapping that its attribute list denotes.
pub proof fn lemma_round_trip(tokens: Seq<Written>)
    requires
        well_formed(tokens),
    ensures
        tokenize(render(tokens)) == tokens_of(tokens),
{
    lemma_feed_run(tokens);
}

} // verus!
