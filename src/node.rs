use vstd::prelude::*;

verus! {

/// The kind of a node, with the data that the kind carries.
#[derive(Debug, Clone)]
pub enum NodeValue {
    Document,
    BlockQuote,
    List(NodeList),
    Item(NodeList),
    CodeBlock(NodeCodeBlock),
    HtmlBlock(NodeHtmlBlock),
    CustomBlock,
    Paragraph,
    Heading(NodeHeading),
    ThematicBreak,
    Text(Vec<char>),
    SoftBreak,
    LineBreak,
    Code(Vec<char>),
    HtmlInline(Vec<char>),
    CustomInline,
    Emph,
    Strong,
    Strikethrough,
    Link(NodeLink),
    Image(NodeLink),
}

/// Destination and title of a link or an image.
#[derive(Debug, Clone)]
pub struct NodeLink {
    pub url: Vec<char>,
    pub title: Vec<char>,
}

/// What a list, or one of its items, looks like.
#[derive(Debug, Clone, Copy)]
pub struct NodeList {
    pub list_type: ListType,
    pub marker_offset: usize,
    pub padding: usize,
    pub start: usize,
    pub delimiter: ListDelimType,
    pub bullet_char: char,
    pub tight: bool,
}

/// The style of a list; `Unset` means not yet determined.
#[derive(Debug, Clone, Copy, PartialEq, Eq, Structural)]
pub enum ListType {
    Unset,
    Bullet,
    Ordered,
}

/// The delimiter after an ordered list's number; `Unset` means not yet determined.
#[derive(Debug, Clone, Copy, PartialEq, Eq, Structural)]
pub enum ListDelimType {
    Unset,
    Period,
    Paren,
}

impl Default for ListType {
    fn default() -> (r: ListType)
        ensures
            r == ListType::Unset,
    {
        ListType::Unset
    }
}

impl Default for ListDelimType {
    fn default() -> (r: ListDelimType)
        ensures
            r == ListDelimType::Unset,
    {
        ListDelimType::Unset
    }
}

impl Default for NodeList {
    fn default() -> (r: NodeList)
        ensures
            r.list_type == ListType::Unset,
            r.marker_offset == 0,
            r.padding == 0,
            r.start == 0,
            r.delimiter == ListDelimType::Unset,
            r.bullet_char == '\0',
            !r.tight,
    {
        NodeList {
            list_type: ListType::Unset,
            marker_offset: 0,
            padding: 0,
            start: 0,
            delimiter: ListDelimType::Unset,
            bullet_char: '\0',
            tight: false,
        }
    }
}

/// Fencing or indentation of a code block, with its text.
#[derive(Debug, Clone)]
pub struct NodeCodeBlock {
    pub fenced: bool,
    pub fence_char: char,
    pub fence_length: usize,
    pub fence_offset: usize,
    pub info: Vec<char>,
    pub literal: Vec<char>,
}

impl Default for NodeCodeBlock {
    fn default() -> (r: NodeCodeBlock)
        ensures
            !r.fenced,
            r.fence_char == '\0',
            r.fence_length == 0,
            r.fence_offset == 0,
            r.info@.len() == 0,
            r.literal@.len() == 0,
    {
        NodeCodeBlock {
            fenced: false,
            fence_char: '\0',
            fence_length: 0,
            fence_offset: 0,
            info: Vec::new(),
            literal: Vec::new(),
        }
    }
}

/// Level of a heading, and whether it was written with an underline.
#[derive(Debug, Clone)]
pub struct NodeHeading {
    pub level: u32,
    pub setext: bool,
}

impl Default for NodeHeading {
    fn default() -> (r: NodeHeading)
        ensures
            r.level == 0,
            !r.setext,
    {
        NodeHeading { level: 0, setext: false }
    }
}

/// The sub-kind of a raw HTML block, with its text.
#[derive(Debug, Clone)]
pub struct NodeHtmlBlock {
    pub block_type: u8,
    pub literal: Vec<char>,
}

/// The ten kinds that stand for structural elements of a document.
pub open spec fn is_block(v: NodeValue) -> bool {
    ||| v is Document
    ||| v is BlockQuote
    ||| v is List
    ||| v is Item
    ||| v is CodeBlock
    ||| v is HtmlBlock
    ||| v is CustomBlock
    ||| v is Paragraph
    ||| v is Heading
    ||| v is ThematicBreak
}

/// The eleven kinds that stand for content within a block.
pub open spec fn is_inline(v: NodeValue) -> bool {
    ||| v is Text
    ||| v is SoftBreak
    ||| v is LineBreak
    ||| v is Code
    ||| v is HtmlInline
    ||| v is CustomInline
    ||| v is Emph
    ||| v is Strong
    ||| v is Strikethrough
    ||| v is Link
    ||| v is Image
}

/// The variant of a value, as a number, regardless of its data.
pub open spec fn kind(v: NodeValue) -> nat {
    match v {
        NodeValue::Document => 0,
        NodeValue::BlockQuote => 1,
        NodeValue::List(_) => 2,
        NodeValue::Item(_) => 3,
        NodeValue::CodeBlock(_) => 4,
        NodeValue::HtmlBlock(_) => 5,
        NodeValue::CustomBlock => 6,
        NodeValue::Paragraph => 7,
        NodeValue::Heading(_) => 8,
        NodeValue::ThematicBreak => 9,
        NodeValue::Text(_) => 10,
        NodeValue::SoftBreak => 11,
        NodeValue::LineBreak => 12,
        NodeValue::Code(_) => 13,
        NodeValue::HtmlInline(_) => 14,
        NodeValue::CustomInline => 15,
        NodeValue::Emph => 16,
        NodeValue::Strong => 17,
        NodeValue::Strikethrough => 18,
        NodeValue::Link(_) => 19,
        NodeValue::Image(_) => 20,
    }
}

/// Whether a node of kind `parent` may hold a direct child of kind `child`.
pub open spec fn can_contain(parent: NodeValue, child: NodeValue) -> bool {
    if child is Document {
        false
    } else {
        match parent {
            NodeValue::Document | NodeValue::BlockQuote | NodeValue::Item(_) => is_block(child)
                && !(child is Item),
            NodeValue::List(_) => child is Item,
            NodeValue::CustomBlock => true,
            NodeValue::Paragraph | NodeValue::Heading(_) | NodeValue::Emph | NodeValue::Strong
            | NodeValue::Link(_) | NodeValue::Image(_) | NodeValue::CustomInline => !is_block(child),
            _ => false,
        }
    }
}

impl NodeValue {
    /// Whether this is one of the block kinds.
    pub fn block(&self) -> (r: bool)
        ensures
            r == is_block(*self),
    {
        match self {
            NodeValue::Document
            | NodeValue::BlockQuote
            | NodeValue::List(..)
            | NodeValue::Item(..)
            | NodeValue::CodeBlock(..)
            | NodeValue::HtmlBlock(..)
            | NodeValue::CustomBlock
            | NodeValue::Paragraph
            | NodeValue::Heading(..)
            | NodeValue::ThematicBreak => true,
            _ => false,
        }
    }

    /// Whether a node of this kind gathers raw source lines into its content.
    pub fn accepts_lines(&self) -> (r: bool)
        ensures
            r == (*self is Paragraph || *self is Heading || *self is CodeBlock),
    {
        match self {
            NodeValue::Paragraph | NodeValue::Heading(..) | NodeValue::CodeBlock(..) => true,
            _ => false,
        }
    }

    /// Whether a node of this kind has its content parsed into inline children.
    pub fn contains_inlines(&self) -> (r: bool)
        ensures
            r == (*self is Paragraph || *self is Heading),
    {
        match self {
            NodeValue::Paragraph | NodeValue::Heading(..) => true,
            _ => false,
        }
    }

    /// The characters of a `Text` value, to read or change; `None` for any other kind.
    pub fn text(&mut self) -> (r: Option<&mut Vec<char>>)
        ensures
            r is Some <==> *old(self) is Text,
            r matches Some(t) ==> *t == (*old(self))->Text_0 && *final(self) == NodeValue::Text(
                *final(t),
            ),
            r is None ==> *final(self) == *old(self),
    {
        match self {
            NodeValue::Text(t) => Some(t),
            _ => None,
        }
    }
}

/// Every kind is a block kind or an inline kind, and never both.
pub proof fn lemma_block_inline_partition(v: NodeValue)
    ensures
        is_block(v) <==> !is_inline(v),
        is_block(v) <==> kind(v) < 10,
{
}

/// Whether one value may hold another depends on their kinds alone, never on
/// their data; and no value may hold a `Document`.
pub proof fn lemma_can_contain_by_kind(pa: NodeValue, ca: NodeValue, pb: NodeValue, cb: NodeValue)
    ensures
        kind(pa) == kind(pb) && kind(ca) == kind(cb) ==> can_contain(pa, ca) == can_contain(pb, cb),
        !can_contain(pa, NodeValue::Document),
{
}

/// A list holds items and nothing else, and an item never directly holds an item.
pub proof fn lemma_list_holds_only_items(l: NodeList, i: NodeList, child: NodeValue)
    ensures
        can_contain(NodeValue::List(l), child) <==> child is Item,
        can_contain(NodeValue::List(l), NodeValue::Item(i)),
        !can_contain(NodeValue::Item(l), NodeValue::Item(i)),
{
}

/// A node's data: its value, accumulated content, source span and status flags.
#[derive(Debug)]
pub struct Ast {
    pub value: NodeValue,
    pub content: Vec<char>,
    pub start_line: u32,
    pub start_column: usize,
    pub end_line: u32,
    pub end_column: usize,
    pub open: bool,
    pub last_line_blank: bool,
}

/// The data of a node just opened at the given source position.
pub fn make_block(value: NodeValue, start_line: u32, start_column: usize) -> (r: Ast)
    ensures
        r.value == value,
        r.content@.len() == 0,
        r.start_line == start_line,
        r.start_column == start_column,
        r.end_line == start_line,
        r.end_column == 0,
        r.open,
        !r.last_line_blank,
{
    Ast {
        value: value,
        content: Vec::new(),
        start_line: start_line,
        start_column: start_column,
        end_line: start_line,
        end_column: 0,
        open: true,
        last_line_blank: false,
    }
}

} // verus!
