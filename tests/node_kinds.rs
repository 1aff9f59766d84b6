use comrak_node::node::{
    make_block, ListDelimType, ListType, NodeCodeBlock, NodeHeading, NodeHtmlBlock, NodeLink,
    NodeList, NodeValue,
};

fn all_values() -> Vec<(NodeValue, bool)> {
    let link = NodeLink { url: vec!['u'], title: vec![] };
    vec![
        (NodeValue::Document, true),
        (NodeValue::BlockQuote, true),
        (NodeValue::List(NodeList::default()), true),
        (NodeValue::Item(NodeList::default()), true),
        (NodeValue::CodeBlock(NodeCodeBlock::default()), true),
        (NodeValue::HtmlBlock(NodeHtmlBlock { block_type: 1, literal: vec!['<'] }), true),
        (NodeValue::CustomBlock, true),
        (NodeValue::Paragraph, true),
        (NodeValue::Heading(NodeHeading { level: 2, setext: true }), true),
        (NodeValue::ThematicBreak, true),
        (NodeValue::Text(vec!['h', 'i']), false),
        (NodeValue::SoftBreak, false),
        (NodeValue::LineBreak, false),
        (NodeValue::Code(vec!['x']), false),
        (NodeValue::HtmlInline(vec!['<', 'b', '>']), false),
        (NodeValue::CustomInline, false),
        (NodeValue::Emph, false),
        (NodeValue::Strong, false),
        (NodeValue::Strikethrough, false),
        (NodeValue::Link(link.clone()), false),
        (NodeValue::Image(link), false),
    ]
}

#[test]
fn block_holds_for_exactly_the_ten_block_kinds() {
    let values = all_values();
    assert_eq!(values.len(), 21);
    let mut blocks = 0;
    for (v, expected) in &values {
        assert_eq!(v.block(), *expected, "{:?}", v);
        if v.block() {
            blocks += 1;
        }
    }
    assert_eq!(blocks, 10);
}

#[test]
fn accepts_lines_only_paragraph_heading_code_block() {
    for (v, _) in &all_values() {
        let expected = matches!(
            v,
            NodeValue::Paragraph | NodeValue::Heading(..) | NodeValue::CodeBlock(..)
        );
        assert_eq!(v.accepts_lines(), expected, "{:?}", v);
    }
}

#[test]
fn contains_inlines_only_paragraph_heading() {
    for (v, _) in &all_values() {
        let expected = matches!(v, NodeValue::Paragraph | NodeValue::Heading(..));
        assert_eq!(v.contains_inlines(), expected, "{:?}", v);
    }
}

#[test]
fn text_accessor_gives_buffer_of_text_only() {
    let mut t = NodeValue::Text(vec!['h', 'i']);
    {
        let buf = t.text().expect("a text value has a buffer");
        assert_eq!(buf, &vec!['h', 'i']);
        buf.push('!');
    }
    match &t {
        NodeValue::Text(b) => assert_eq!(b, &vec!['h', 'i', '!']),
        _ => panic!("kind changed"),
    }
    let mut c = NodeValue::Code(vec!['x']);
    assert!(c.text().is_none());
    let mut p = NodeValue::Paragraph;
    assert!(p.text().is_none());
}

#[test]
fn fresh_node_data_is_open_and_empty() {
    let a = make_block(NodeValue::Paragraph, 7, 3);
    assert!(a.open);
    assert!(!a.last_line_blank);
    assert!(a.content.is_empty());
    assert_eq!(a.start_line, 7);
    assert_eq!(a.start_column, 3);
    assert_eq!(a.end_line, 7);
    assert_eq!(a.end_column, 0);
    assert!(matches!(a.value, NodeValue::Paragraph));
}

#[test]
fn default_list_metadata_is_unset() {
    let l = NodeList::default();
    assert_eq!(l.list_type, ListType::Unset);
    assert_eq!(l.delimiter, ListDelimType::Unset);
    assert_ne!(l.list_type, ListType::Bullet);
    assert_ne!(l.list_type, ListType::Ordered);
    assert_ne!(l.delimiter, ListDelimType::Period);
    assert_eq!(l.marker_offset, 0);
    assert_eq!(l.padding, 0);
    assert_eq!(l.start, 0);
    assert!(!l.tight);
    assert_eq!(ListType::default(), ListType::Unset);
    assert_eq!(ListDelimType::default(), ListDelimType::Unset);
}

#[test]
fn finalized_bullet_list_is_told_apart_from_default() {
    let mut l = NodeList::default();
    l.list_type = ListType::Bullet;
    l.bullet_char = '-';
    assert_ne!(l.list_type, NodeList::default().list_type);
    assert_eq!(l.list_type, ListType::Bullet);
}

#[test]
fn other_defaults() {
    let c = NodeCodeBlock::default();
    assert!(!c.fenced);
    assert_eq!(c.fence_length, 0);
    assert!(c.info.is_empty() && c.literal.is_empty());
    let h = NodeHeading::default();
    assert_eq!(h.level, 0);
    assert!(!h.setext);
}
