//! The stylesheet parser: extracts rule blocks, `selector { declarations }`,
//! and declarations, `property: value;`, from stylesheet text.
//!
//! The text is searched with regular expressions. What does not match a
//! pattern is skipped, so no input is rejected.

use vstd::prelude::*;
use vstd::string::*;
use crate::attrs::pairs_view;
use crate::strings::{trim, trim_spec};

verus! {

/// The first and second capture group of each match of the regular
/// expression `pattern` in `haystack`, the matches taken from left to right
/// without overlap. A group that takes no part in a match gives the empty
/// text, and a pattern that does not compile gives no match.
pub uninterp spec fn regex_captures(pattern: Seq<char>, haystack: Seq<char>) -> Seq<
    (Seq<char>, Seq<char>),
>;

/// Compiles `pattern` with `regex::Regex::new`, walks `haystack` with
/// `Regex::captures_iter` and copies the text of groups 1 and 2 out of each
/// match; where `Regex::new` returns an error, nothing is returned. The
/// search is deterministic, so the result is a function of the two texts;
/// nothing more is claimed of it.
#[verifier::external_body]
pub(crate) fn capture_pairs(pattern: &str, haystack: &str) -> (pairs: Vec<(String, String)>)
    ensures
        pairs_view(pairs@) == regex_captures(pattern@, haystack@),
{
    match regex::Regex::new(pattern) {
        Ok(re) => re.captures_iter(haystack).map(
            |found| (
                found.get(1).map_or(String::new(), |group| group.as_str().to_string()),
                found.get(2).map_or(String::new(), |group| group.as_str().to_string()),
            ),
        ).collect(),
        Err(_) => Vec::new(),
    }
}

/// The pattern of a declaration: a property name of lower-case letters and
/// hyphens, a colon, and a value that runs up to the next semicolon.
pub open spec fn rule_pattern() -> Seq<char> {
    "([a-z\\-]+)\\s*:\\s*([^;]+);"@
}

/// The pattern of a rule block: selector text, then declarations in braces.
pub open spec fn block_pattern() -> Seq<char> {
    "([a-zA-Z_0-9.\\->\\s_#]+)\\s*\\{([^}]+)\\}"@
}

/// What a declaration holds.
pub struct RuleView {
    pub name: Seq<char>,
    pub value: Seq<char>,
}

/// One declaration: a property name and its value as written.
#[derive(Debug)]
pub struct CSSRule {
    pub name: String,
    pub value: String,
}

impl View for CSSRule {
    type V = RuleView;

    open spec fn view(&self) -> RuleView {
        RuleView { name: self.name@, value: self.value@ }
    }
}

impl CSSRule {
    pub fn new(name: String, value: String) -> (rule: CSSRule)
        ensures
            rule@ == (RuleView { name: name@, value: value@ }),
    {
        CSSRule { name, value }
    }
}

/// What a list of declarations holds.
pub open spec fn rules_view(rules: Seq<CSSRule>) -> Seq<RuleView> {
    Seq::new(rules.len(), |i: int| rules[i]@)
}

/// What a rule block holds.
pub struct BlockView {
    pub selector: Seq<char>,
    pub rules: Seq<RuleView>,
}

/// A rule block: a selector and its declarations in source order.
#[derive(Debug)]
pub struct CSSBlock {
    pub rules: Vec<CSSRule>,
    pub selector: String,
}

impl View for CSSBlock {
    type V = BlockView;

    open spec fn view(&self) -> BlockView {
        BlockView { selector: self.selector@, rules: rules_view(self.rules@) }
    }
}

impl CSSBlock {
    /// A block with an empty selector and no declarations.
    pub fn new() -> (block: CSSBlock)
        ensures
            block@ == (BlockView { selector: Seq::empty(), rules: Seq::empty() }),
    {
        let block = CSSBlock { rules: Vec::new(), selector: String::new() };
        proof {
            assert(block@.rules =~= Seq::empty());
        }
        block
    }
}

/// What a list of rule blocks holds.
pub open spec fn blocks_view(blocks: Seq<CSSBlock>) -> Seq<BlockView> {
    Seq::new(blocks.len(), |i: int| blocks[i]@)
}

/// The declarations that a list of matches stands for: group 1 is the
/// property name, group 2 without surrounding white space is the value.
pub open spec fn rules_of(captures: Seq<(Seq<char>, Seq<char>)>) -> Seq<RuleView> {
    Seq::new(
        captures.len(),
        |i: int| RuleView { name: captures[i].0, value: trim_spec(captures[i].1) },
    )
}

/// The declarations in `css`, in source order.
pub open spec fn declarations(css: Seq<char>) -> Seq<RuleView> {
    rules_of(regex_captures(rule_pattern(), css))
}

/// The rule blocks that a list of matches stands for: group 1 without
/// surrounding white space is the selector, group 2 holds the declarations.
pub open spec fn blocks_of(captures: Seq<(Seq<char>, Seq<char>)>) -> Seq<BlockView> {
    Seq::new(
        captures.len(),
        |i: int|
            BlockView { selector: trim_spec(captures[i].0), rules: declarations(captures[i].1) },
    )
}

/// The rule blocks in `css`, in source order.
pub open spec fn stylesheet(css: Seq<char>) -> Seq<BlockView> {
    blocks_of(regex_captures(block_pattern(), css))
}

/// Turns the matches of the declaration pattern into declarations.
pub fn rules_from_captures(captures: &Vec<(String, String)>) -> (rules: Vec<CSSRule>)
    ensures
        rules_view(rules@) == rules_of(pairs_view(captures@)),
{
    let mut rules: Vec<CSSRule> = Vec::new();
    let mut i: usize = 0;
    while i < captures.len()
        invariant
            i <= captures@.len(),
            rules@.len() == i,
            forall|j: int|
                0 <= j < i ==> (#[trigger] rules@[j])@ == rules_of(pairs_view(captures@))[j],
        decreases captures@.len() - i,
    {
        let name = captures[i].0.clone();
        let value = trim(captures[i].1.as_str());
        rules.push(CSSRule::new(name, value));
        i += 1;
    }
    proof {
        assert(rules_view(rules@) =~= rules_of(pairs_view(captures@)));
    }
    rules
}

/// The declarations of an inline style, as a block with an empty selector.
pub fn create_block(css: &str) -> (block: CSSBlock)
    ensures
        block@ == (BlockView { selector: Seq::empty(), rules: declarations(css@) }),
{
    let captures = capture_pairs("([a-z\\-]+)\\s*:\\s*([^;]+);", css);
    let mut block = CSSBlock::new();
    block.rules = rules_from_captures(&captures);
    block
}

/// Turns the matches of the block pattern into rule blocks.
pub fn blocks_from_captures(captures: &Vec<(String, String)>) -> (blocks: Vec<CSSBlock>)
    ensures
        blocks_view(blocks@) == blocks_of(pairs_view(captures@)),
{
    let mut blocks: Vec<CSSBlock> = Vec::new();
    let mut i: usize = 0;
    while i < captures.len()
        invariant
            i <= captures@.len(),
            blocks@.len() == i,
            forall|j: int|
                0 <= j < i ==> (#[trigger] blocks@[j])@ == blocks_of(pairs_view(captures@))[j],
        decreases captures@.len() - i,
    {
        let mut block = create_block(captures[i].1.as_str());
        block.selector = trim(captures[i].0.as_str());
        blocks.push(block);
        i += 1;
    }
    proof {
        assert(blocks_view(blocks@) =~= blocks_of(pairs_view(captures@)));
    }
    blocks
}

/// The rule blocks of a stylesheet, in source order.
pub fn create_blocks(css: &str) -> (blocks: Vec<CSSBlock>)
    ensures
        blocks_view(blocks@) == stylesheet(css@),
{
    let captures = capture_pairs("([a-zA-Z_0-9.\\->\\s_#]+)\\s*\\{([^}]+)\\}", css);
    blocks_from_captures(&captures)
}

} // verus!
