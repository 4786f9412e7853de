//! The data exchanged between the editor front end and this library: block
//! sync requests, inline decoration trees, block types and the responses.

use vstd::prelude::*;

verus! {

/// A block's content as edited in the front end, sent to the library.
#[derive(Debug, Clone)]
pub struct BlockSyncRequest {
    pub seq: u64,
    pub node_id: String,
    pub plain_text: String,
    pub decorations: Vec<InlineDecorationNode>,
    /// UTF-16 code unit offset.
    pub caret_offset: usize,
}

/// Hierarchical inline decoration tree; nesting mirrors the front end's DOM.
#[derive(Debug)]
pub enum InlineDecorationNode {
    Text { key: String, text: String },
    Bold { key: String, children: Vec<InlineDecorationNode> },
    Italic { key: String, children: Vec<InlineDecorationNode> },
    Code { key: String, children: Vec<InlineDecorationNode> },
    Link { key: String, href: String, children: Vec<InlineDecorationNode> },
}

/// Mathematical model of an [`InlineDecorationNode`]: strings become
/// character sequences.
pub enum DecoNode {
    Text { key: Seq<char>, text: Seq<char> },
    Bold { key: Seq<char>, children: Seq<DecoNode> },
    Italic { key: Seq<char>, children: Seq<DecoNode> },
    Code { key: Seq<char>, children: Seq<DecoNode> },
    Link { key: Seq<char>, href: Seq<char>, children: Seq<DecoNode> },
}

/// The model of one node.
pub open spec fn node_view(n: InlineDecorationNode) -> DecoNode
    decreases n,
{
    match n {
        InlineDecorationNode::Text { key, text } => DecoNode::Text { key: key@, text: text@ },
        InlineDecorationNode::Bold { key, children } => DecoNode::Bold {
            key: key@,
            children: nodes_view(children@),
        },
        InlineDecorationNode::Italic { key, children } => DecoNode::Italic {
            key: key@,
            children: nodes_view(children@),
        },
        InlineDecorationNode::Code { key, children } => DecoNode::Code {
            key: key@,
            children: nodes_view(children@),
        },
        InlineDecorationNode::Link { key, href, children } => DecoNode::Link {
            key: key@,
            href: href@,
            children: nodes_view(children@),
        },
    }
}

/// The model of a sequence of nodes.
pub open spec fn nodes_view(s: Seq<InlineDecorationNode>) -> Seq<DecoNode>
    decreases s,
{
    if s.len() == 0 {
        Seq::empty()
    } else {
        nodes_view(s.subrange(0, s.len() - 1)).push(node_view(s[s.len() - 1]))
    }
}

pub proof fn lemma_nodes_view_concat(a: Seq<InlineDecorationNode>, b: Seq<InlineDecorationNode>)
    ensures
        nodes_view(a + b) == nodes_view(a) + nodes_view(b),
    decreases b.len(),
{
    if b.len() == 0 {
        assert(a + b =~= a);
        assert(nodes_view(a) + nodes_view(b) =~= nodes_view(a));
    } else {
        let b1 = b.subrange(0, b.len() - 1);
        lemma_nodes_view_concat(a, b1);
        assert((a + b).subrange(0, (a + b).len() - 1) =~= a + b1);
        assert(nodes_view(a + b) =~= nodes_view(a) + nodes_view(b));
    }
}

pub proof fn lemma_nodes_view_single(n: InlineDecorationNode)
    ensures
        nodes_view(seq![n]) == seq![node_view(n)],
{
    reveal_with_fuel(nodes_view, 2);
    assert(seq![n].subrange(0, 0) =~= Seq::<InlineDecorationNode>::empty());
    assert(nodes_view(seq![n]) =~= seq![node_view(n)]);
}

/// A copy of a node and everything under it, with the same model.
pub fn clone_node(n: &InlineDecorationNode) -> (r: InlineDecorationNode)
    ensures
        node_view(r) == node_view(*n),
    decreases n,
{
    match n {
        InlineDecorationNode::Text { key, text } => InlineDecorationNode::Text {
            key: key.clone(),
            text: text.clone(),
        },
        InlineDecorationNode::Bold { key, children } => InlineDecorationNode::Bold {
            key: key.clone(),
            children: clone_nodes(children.as_slice()),
        },
        InlineDecorationNode::Italic { key, children } => InlineDecorationNode::Italic {
            key: key.clone(),
            children: clone_nodes(children.as_slice()),
        },
        InlineDecorationNode::Code { key, children } => InlineDecorationNode::Code {
            key: key.clone(),
            children: clone_nodes(children.as_slice()),
        },
        InlineDecorationNode::Link { key, href, children } => InlineDecorationNode::Link {
            key: key.clone(),
            href: href.clone(),
            children: clone_nodes(children.as_slice()),
        },
    }
}

/// A copy of a sequence of nodes, with the same model.
pub fn clone_nodes(nodes: &[InlineDecorationNode]) -> (r: Vec<InlineDecorationNode>)
    ensures
        nodes_view(r@) == nodes_view(nodes@),
    decreases nodes@,
{
    let mut r: Vec<InlineDecorationNode> = Vec::new();
    let mut i: usize = 0;
    while i < nodes.len()
        invariant
            i <= nodes@.len(),
            r@.len() == i,
            nodes_view(r@) == nodes_view(nodes@.take(i as int)),
        decreases nodes.len() - i,
    {
        let c = clone_node(&nodes[i]);
        let ghost before = r@;
        r.push(c);
        proof {
            lemma_nodes_view_concat(before, seq![c]);
            lemma_nodes_view_single(c);
            lemma_nodes_view_concat(nodes@.take(i as int), seq![nodes@[i as int]]);
            lemma_nodes_view_single(nodes@[i as int]);
            assert(before + seq![c] =~= r@);
            assert(nodes@.take(i as int) + seq![nodes@[i as int]] =~= nodes@.take(i + 1));
        }
        i = i + 1;
    }
    assert(nodes@.take(nodes@.len() as int) =~= nodes@);
    r
}

impl Clone for InlineDecorationNode {
    /// A deep copy, with the same model.
    fn clone(&self) -> (r: Self)
        ensures
            node_view(r) == node_view(*self),
    {
        clone_node(self)
    }
}

/// The kind of a block, which decides the Markdown prefix of its content.
#[derive(Debug, Clone)]
pub enum BlockType {
    Paragraph,
    Heading { level: u8 },
    CodeBlock { language: String },
    List { list_type: String, indent_level: u32, parent_list_id: Option<String> },
    BlockQuote,
    MathBlock,
    Mermaid,
    Typst,
}

/// Mathematical model of a [`BlockType`].
pub enum BlockKind {
    Paragraph,
    Heading { level: u8 },
    CodeBlock { language: Seq<char> },
    List { list_type: Seq<char>, indent_level: u32, parent_list_id: Option<Seq<char>> },
    BlockQuote,
    MathBlock,
    Mermaid,
    Typst,
}

pub open spec fn opt_str_view(o: Option<String>) -> Option<Seq<char>> {
    match o {
        Some(s) => Some(s@),
        None => None,
    }
}

impl View for BlockType {
    type V = BlockKind;

    open spec fn view(&self) -> BlockKind {
        match *self {
            BlockType::Paragraph => BlockKind::Paragraph,
            BlockType::Heading { level } => BlockKind::Heading { level },
            BlockType::CodeBlock { language } => BlockKind::CodeBlock { language: language@ },
            BlockType::List { list_type, indent_level, parent_list_id } => BlockKind::List {
                list_type: list_type@,
                indent_level,
                parent_list_id: opt_str_view(parent_list_id),
            },
            BlockType::BlockQuote => BlockKind::BlockQuote,
            BlockType::MathBlock => BlockKind::MathBlock,
            BlockType::Mermaid => BlockKind::Mermaid,
            BlockType::Typst => BlockKind::Typst,
        }
    }
}

/// Outcome of compiling a Typst block.
#[derive(Debug, Clone)]
pub enum TypstCompileResult {
    Success { svg: String },
    Error { message: String },
}

/// One saved version of the document.
#[derive(Debug, Clone)]
pub struct VersionEntry {
    pub version_id: String,
    /// "auto" or "manual".
    pub source: String,
    pub label: String,
}

#[derive(Debug, Clone)]
pub struct VersionHistoryResponse {
    pub entries: Vec<VersionEntry>,
}

#[derive(Debug, Clone)]
pub struct RestoreVersionRequest {
    pub seq: u64,
    pub version_id: String,
    /// "auto" or "manual".
    pub source: String,
}

#[derive(Debug, Clone)]
pub struct SplitBlockRequest {
    pub seq: u64,
    pub node_id: String,
    /// UTF-16 offset within the displayed content (no block prefix).
    pub caret_offset: usize,
    /// Front-end-allocated id for the new (tail) block.
    pub new_block_id: String,
}

#[derive(Debug, Clone)]
pub struct SplitBlockResponse {
    pub seq: u64,
    pub original_node_id: String,
    pub new_node_id: String,
    pub original_ast_content: Vec<InlineDecorationNode>,
    pub original_block_type: BlockType,
    pub new_ast_content: Vec<InlineDecorationNode>,
    pub new_block_type: BlockType,
    pub new_node_order: Vec<String>,
}

/// A block of a loaded document.
#[derive(Debug, Clone)]
pub struct BlockData {
    pub id: String,
    pub block_type: BlockType,
    pub ast_content: Vec<InlineDecorationNode>,
    pub plain_text: String,
}

#[derive(Debug, Clone)]
pub struct InitialDocumentResponse {
    pub blocks: Vec<BlockData>,
    pub node_order: Vec<String>,
    pub file_path: Option<String>,
}

#[derive(Debug, Clone)]
pub struct BlockMoveRequest {
    pub seq: u64,
    pub node_id: String,
    pub target_parent_id: Option<String>,
    pub target_previous_sibling_id: Option<String>,
}

#[derive(Debug, Clone)]
pub struct BlockMoveResponse {
    pub seq: u64,
    pub success: bool,
    pub new_node_order: Vec<String>,
}

#[derive(Debug, Clone)]
pub struct FormatRequest {
    pub seq: u64,
    pub node_id: String,
    /// "bold" | "italic" | "code" | "link" | "heading" | "list"
    pub action_type: String,
    /// UTF-16 code unit.
    pub selection_start: usize,
    /// UTF-16 code unit.
    pub selection_end: usize,
    /// Link URL or heading level.
    pub meta_value: Option<String>,
}

#[derive(Debug, Clone)]
pub struct HistoryRequest {
    pub seq: u64,
    /// "undo" | "redo"
    pub history_type: String,
}

#[derive(Debug, Clone)]
pub struct FormatResponse {
    pub seq: u64,
    pub node_id: String,
    pub ast_content: Vec<InlineDecorationNode>,
    pub block_type: BlockType,
    pub caret: CaretPosition,
}

#[derive(Debug, Clone)]
pub struct HistoryResponse {
    pub seq: u64,
    pub restored_blocks: Vec<RestoredBlockData>,
    pub node_order: Vec<String>,
    pub caret: CaretPosition,
}

#[derive(Debug, Clone)]
pub struct RestoredBlockData {
    pub id: String,
    pub block_type: BlockType,
    pub ast_content: Vec<InlineDecorationNode>,
    pub markdown: String,
}

/// Reply to a [`BlockSyncRequest`].
#[derive(Debug, Clone)]
pub struct BlockSyncResponse {
    /// The request's seq, echoed back.
    pub seq: u64,
    pub node_id: String,
    pub action: ResponseAction,
    pub caret: CaretPosition,
}

#[derive(Debug, Clone)]
pub struct CaretPosition {
    pub target_node_id: String,
    /// UTF-16 code unit offset within `target_node_id`.
    pub offset: usize,
}

#[derive(Debug, Clone)]
pub enum ResponseAction {
    UpdateProperties { patches: Vec<OpCommand> },
    SplitBlock { new_nodes: Vec<NewBlockData> },
    MergeBlocks { target_node_id: String, remove_node_ids: Vec<String>, patches: Vec<OpCommand> },
}

#[derive(Debug, Clone)]
pub enum OpCommand {
    InsertText { target_key: String, index: usize, value: String },
    DeleteText { target_key: String, index: usize, length: usize },
    AddDecoration {
        target_key: String,
        index: usize,
        length: usize,
        decoration: DecorationVariant,
    },
    RemoveDecoration { target_key: String, index: usize, length: usize, variant_type: String },
}

#[derive(Debug, Clone)]
pub enum DecorationVariant {
    Bold,
    Italic,
    Code,
    Link { href: String },
}

#[derive(Debug, Clone)]
pub struct NewBlockData {
    /// Front-end-allocated id.
    pub id: String,
    pub parent_id: Option<String>,
    pub previous_sibling_id: Option<String>,
    pub ast_content: Vec<InlineDecorationNode>,
}

} // verus!

pub use crate::block_type::derive_block_type;
pub use crate::document::parse_document_to_blocks;
pub use crate::inline_format::apply_inline_decoration;
pub use crate::markdown::parse_markdown_to_decorations;
pub use crate::text::{byte_index_to_utf16_offset, utf16_offset_to_byte_index};
