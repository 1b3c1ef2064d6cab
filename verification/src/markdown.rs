//! Parsing Markdown with comrak into the document tree that the Typst
//! renderer reads.

use vstd::prelude::*;
use comrak::arena_tree::Node;
use comrak::nodes::{Ast, AstNode, ListType, NodeList, NodeTaskItem, NodeValue};
use std::cell::RefCell;
use crate::typst::{MdKind, MdNode};

verus! {

#[verifier::external_type_specification]
#[verifier::external_body]
#[verifier::reject_recursive_types(T)]
pub struct ExArenaNode<'a, T: 'a>(Node<'a, T>);

#[verifier::external_type_specification]
#[verifier::external_body]
#[verifier::reject_recursive_types(T)]
pub struct ExRefCell<T: ?Sized>(RefCell<T>);

#[verifier::external_type_specification]
#[verifier::external_body]
pub struct ExAst(Ast);

#[verifier::external_type_specification]
#[verifier::external_body]
pub struct ExNodeValue(NodeValue);

/// The Markdown extensions that the parser is asked to recognise.
pub struct MdExtensions {
    pub table: bool,
    pub strikethrough: bool,
    pub tasklist: bool,
    pub footnotes: bool,
    pub math_dollars: bool,
}

/// The document tree that comrak's `parse_document` builds from `markdown`
/// with the given extensions switched on (and every other option at its
/// default), read node by node into [`MdNode`].
pub uninterp spec fn comrak_document(markdown: Seq<char>, ext: MdExtensions) -> MdNode;

/// Parses `markdown` with `comrak::parse_document`. Claimed: the result is
/// [`comrak_document`] of the text and the extensions, that is, it depends
/// on nothing else; nothing is claimed of its shape.
#[verifier::external_body]
pub fn parse_markdown(markdown: &str, ext: &MdExtensions) -> (doc: MdNode)
    ensures
        doc == comrak_document(markdown@, *ext),
{
    let arena = comrak::Arena::new();
    let mut o = comrak::Options::default();
    o.extension.table = ext.table;
    o.extension.strikethrough = ext.strikethrough;
    o.extension.tasklist = ext.tasklist;
    o.extension.footnotes = ext.footnotes;
    o.extension.math_dollars = ext.math_dollars;
    tree_of(comrak::parse_document(&arena, markdown, &o))
}

/// Reads a comrak node and its descendants into an [`MdNode`] (part of
/// [`parse_markdown`]; it converts, one node for one node, and claims
/// nothing).
#[verifier::external_body]
fn tree_of<'a>(node: &'a AstNode<'a>) -> MdNode {
    MdNode { kind: kind_of(&node.data.borrow().value), children: node.children().map(tree_of).collect() }
}

/// The [`MdKind`] of a block-level comrak node value (part of
/// [`parse_markdown`]); other values go to [`inline_kind_of`].
#[verifier::external_body]
fn kind_of(v: &NodeValue) -> MdKind {
    match v {
        NodeValue::Document => MdKind::Document,
        NodeValue::Heading(h) => MdKind::Heading(h.level),
        NodeValue::Paragraph => MdKind::Paragraph,
        NodeValue::CodeBlock(b) => MdKind::CodeBlock { info: b.info.clone(), literal: b.literal.clone() },
        NodeValue::BlockQuote => MdKind::BlockQuote,
        NodeValue::ThematicBreak => MdKind::ThematicBreak,
        NodeValue::List(NodeList { list_type: ListType::Ordered, .. }) => MdKind::List { ordered: true },
        NodeValue::List(_) => MdKind::List { ordered: false },
        NodeValue::Item(_) => MdKind::Item,
        NodeValue::Table(t) => MdKind::Table { columns: t.num_columns },
        NodeValue::TableRow(_) => MdKind::TableRow,
        NodeValue::TableCell => MdKind::TableCell,
        _ => inline_kind_of(v),
    }
}

/// The [`MdKind`] of the remaining comrak node values (part of
/// [`parse_markdown`]).
#[verifier::external_body]
fn inline_kind_of(v: &NodeValue) -> MdKind {
    match v {
        NodeValue::Text(t) => MdKind::Text(t.to_string()),
        NodeValue::Strong => MdKind::Strong,
        NodeValue::Emph => MdKind::Emph,
        NodeValue::Strikethrough => MdKind::Strikethrough,
        NodeValue::Code(c) => MdKind::Code(c.literal.clone()),
        NodeValue::Math(m) => MdKind::Math { display: m.display_math, literal: m.literal.clone() },
        NodeValue::Link(l) => MdKind::Link(l.url.clone()),
        NodeValue::Image(l) => MdKind::Image(l.url.clone()),
        NodeValue::TaskItem(NodeTaskItem { symbol: Some(_), .. }) => MdKind::TaskItem { checked: true },
        NodeValue::TaskItem(_) => MdKind::TaskItem { checked: false },
        _ => note_kind_of(v),
    }
}

/// The [`MdKind`] of breaks, raw HTML and footnotes (part of
/// [`parse_markdown`]); any other value is [`MdKind::Other`].
#[verifier::external_body]
fn note_kind_of(v: &NodeValue) -> MdKind {
    match v {
        NodeValue::SoftBreak => MdKind::SoftBreak,
        NodeValue::LineBreak => MdKind::LineBreak,
        NodeValue::HtmlInline(_) => MdKind::Html,
        NodeValue::HtmlBlock(_) => MdKind::Html,
        NodeValue::FootnoteDefinition(d) => MdKind::FootnoteDefinition(d.name.clone()),
        NodeValue::FootnoteReference(r) => MdKind::FootnoteReference(r.name.clone()),
        _ => MdKind::Other,
    }
}

} // verus!
