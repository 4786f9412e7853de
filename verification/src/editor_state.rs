//! The editor's document state: blocks keyed by id, their display order, the
//! request sequence number, and bounded undo/redo history.

use vstd::prelude::*;
use crate::ast::{
    lemma_nodes_view_concat, node_view, nodes_view, opt_str_view, BlockKind, BlockMoveRequest, BlockMoveResponse,
    BlockSyncRequest, BlockSyncResponse, BlockType, CaretPosition, DecoNode, FormatRequest,
    FormatResponse, HistoryRequest, HistoryResponse, InlineDecorationNode, ResponseAction,
    RestoredBlockData, BlockData,
};
use crate::block_type::{derive_block_type, law_dash_is_list, law_heading_classified, spec_derive_block_type, trim};
use crate::document::{
    add_front, block_content_matches, document_pieces, law_parsed_ids_distinct, lemma_split_pieces_nonempty,
    nonblank, parsed_document, split_pieces,
};
use crate::inline_format::{apply_inline_decoration, inline_decoration_defined, spec_apply_inline};
use crate::markdown::{markdown_events, parse_markdown_to_decorations, spec_decorations};
use crate::inline_format::{hash_run, push_char_n};
use crate::text::{push_all, push_str, str_chars, str_is, string_from_chars};
use vstd::utf8::encode_utf8;
use crate::version_files::VersionDir;

verus! {

/// One block of the document held by the editor.
#[derive(Debug, Clone)]
pub struct BlockState {
    pub id: String,
    pub parent_id: Option<String>,
    pub previous_sibling_id: Option<String>,
    pub markdown: String,
    pub block_type: BlockType,
}

/// Model of a [`BlockState`].
pub struct BlockModel {
    pub id: Seq<char>,
    pub parent_id: Option<Seq<char>>,
    pub previous_sibling_id: Option<Seq<char>>,
    pub markdown: Seq<char>,
    pub block_type: BlockKind,
}

impl View for BlockState {
    type V = BlockModel;

    open spec fn view(&self) -> BlockModel {
        BlockModel {
            id: self.id@,
            parent_id: opt_str_view(self.parent_id),
            previous_sibling_id: opt_str_view(self.previous_sibling_id),
            markdown: self.markdown@,
            block_type: self.block_type@,
        }
    }
}

/// No two blocks share an id.
pub open spec fn unique_ids(v: Seq<BlockState>) -> bool {
    forall|i: int, j: int| 0 <= i < v.len() && 0 <= j < v.len() && i != j ==> v[i].id@ != v[j].id@
}

/// The blocks as a map from id to block.
pub open spec fn blocks_map(v: Seq<BlockState>) -> Map<Seq<char>, BlockModel> {
    Map::new(
        |k: Seq<char>| exists|i: int| 0 <= i < v.len() && v[i].id@ == k,
        |k: Seq<char>| v[choose|i: int| 0 <= i < v.len() && v[i].id@ == k]@,
    )
}

/// The character sequences of a vector of strings.
pub open spec fn strings_view(v: Seq<String>) -> Seq<Seq<char>> {
    Seq::new(v.len(), |i: int| v[i]@)
}

/// A saved point of the document for undo and redo.
#[derive(Debug, Clone)]
pub struct Snapshot {
    pub blocks: Vec<BlockState>,
    pub node_order: Vec<String>,
    pub caret_node_id: String,
    pub caret_offset: usize,
}

/// Model of a [`Snapshot`].
pub struct SnapshotModel {
    pub blocks: Map<Seq<char>, BlockModel>,
    pub node_order: Seq<Seq<char>>,
    pub caret_node_id: Seq<char>,
    pub caret_offset: usize,
}

impl View for Snapshot {
    type V = SnapshotModel;

    open spec fn view(&self) -> SnapshotModel {
        SnapshotModel {
            blocks: blocks_map(self.blocks@),
            node_order: strings_view(self.node_order@),
            caret_node_id: self.caret_node_id@,
            caret_offset: self.caret_offset,
        }
    }
}

pub open spec fn snapshots_view(v: Seq<Snapshot>) -> Seq<SnapshotModel> {
    Seq::new(v.len(), |i: int| v[i]@)
}

/// The editor's state.
#[derive(Debug)]
pub struct EditorState {
    pub blocks: Vec<BlockState>,
    pub node_order: Vec<String>,
    pub last_seq: u64,
    pub is_dirty: bool,
    pub current_file_path: Option<String>,
    /// Hex FNV-1a hash of `current_file_path`, naming the auto-save directory.
    pub file_path_hash: Option<String>,
    pub undo_stack: Vec<Snapshot>,
    pub redo_stack: Vec<Snapshot>,
}

/// Model of an [`EditorState`].
pub struct EditorModel {
    pub blocks: Map<Seq<char>, BlockModel>,
    pub node_order: Seq<Seq<char>>,
    pub last_seq: u64,
    pub is_dirty: bool,
    pub current_file_path: Option<Seq<char>>,
    pub file_path_hash: Option<Seq<char>>,
    pub undo: Seq<SnapshotModel>,
    pub redo: Seq<SnapshotModel>,
}

impl View for EditorState {
    type V = EditorModel;

    open spec fn view(&self) -> EditorModel {
        EditorModel {
            blocks: blocks_map(self.blocks@),
            node_order: strings_view(self.node_order@),
            last_seq: self.last_seq,
            is_dirty: self.is_dirty,
            current_file_path: opt_str_view(self.current_file_path),
            file_path_hash: opt_str_view(self.file_path_hash),
            undo: snapshots_view(self.undo_stack@),
            redo: snapshots_view(self.redo_stack@),
        }
    }
}

impl EditorState {
    /// Block ids are unique, in the state and in every saved snapshot, as the
    /// keys of a map are.
    pub open spec fn wf(&self) -> bool {
        &&& unique_ids(self.blocks@)
        &&& forall|i: int| 0 <= i < self.undo_stack.len() ==> unique_ids(#[trigger] self.undo_stack@[i].blocks@)
        &&& forall|i: int| 0 <= i < self.redo_stack.len() ==> unique_ids(#[trigger] self.redo_stack@[i].blocks@)
    }
}

// ─── Lemmas on the block map ────────────────────────────────────────────────

pub proof fn lemma_blocks_map_index(v: Seq<BlockState>, i: int)
    requires
        unique_ids(v),
        0 <= i < v.len(),
    ensures
        blocks_map(v).contains_key(v[i].id@),
        blocks_map(v)[v[i].id@] == v[i]@,
{
    let k = v[i].id@;
    assert(exists|j: int| 0 <= j < v.len() && v[j].id@ == k);
    let c = choose|j: int| 0 <= j < v.len() && v[j].id@ == k;
    assert(c == i);
}

pub proof fn lemma_blocks_map_update(v: Seq<BlockState>, i: int, b: BlockState)
    requires
        unique_ids(v),
        0 <= i < v.len(),
        b.id@ == v[i].id@,
    ensures
        unique_ids(v.update(i, b)),
        blocks_map(v.update(i, b)) == blocks_map(v).insert(b.id@, b@),
{
    let w = v.update(i, b);
    assert forall|k: Seq<char>| #[trigger] blocks_map(w).contains_key(k) == blocks_map(v).insert(b.id@, b@).contains_key(k) by {
        if exists|j: int| 0 <= j < v.len() && v[j].id@ == k {
            let j = choose|j: int| 0 <= j < v.len() && v[j].id@ == k;
            assert(w[j].id@ == k || j == i);
        }
        if exists|j: int| 0 <= j < w.len() && w[j].id@ == k {
            let j = choose|j: int| 0 <= j < w.len() && w[j].id@ == k;
            assert(v[j].id@ == k || j == i);
        }
    }
    assert forall|k: Seq<char>| blocks_map(w).contains_key(k) implies #[trigger] blocks_map(w)[k] == blocks_map(v).insert(b.id@, b@)[k] by {
        let j = choose|j: int| 0 <= j < w.len() && w[j].id@ == k;
        if j != i {
            lemma_blocks_map_index(v, j);
        }
    }
    assert(blocks_map(w) =~= blocks_map(v).insert(b.id@, b@));
}

pub proof fn lemma_blocks_map_push(v: Seq<BlockState>, b: BlockState)
    requires
        unique_ids(v),
        !blocks_map(v).contains_key(b.id@),
    ensures
        unique_ids(v.push(b)),
        blocks_map(v.push(b)) == blocks_map(v).insert(b.id@, b@),
{
    let w = v.push(b);
    assert forall|i: int| 0 <= i < v.len() implies v[i].id@ != b.id@ by {
        lemma_blocks_map_index(v, i);
    }
    assert forall|k: Seq<char>| #[trigger] blocks_map(w).contains_key(k) == blocks_map(v).insert(b.id@, b@).contains_key(k) by {
        if exists|j: int| 0 <= j < w.len() && w[j].id@ == k {
            let j = choose|j: int| 0 <= j < w.len() && w[j].id@ == k;
            if j < v.len() {
                assert(v[j].id@ == k);
            }
        }
        if exists|j: int| 0 <= j < v.len() && v[j].id@ == k {
            let j = choose|j: int| 0 <= j < v.len() && v[j].id@ == k;
            assert(w[j].id@ == k);
        }
        if k == b.id@ {
            assert(w[v.len() as int].id@ == k);
        }
    }
    assert forall|k: Seq<char>| blocks_map(w).contains_key(k) implies #[trigger] blocks_map(w)[k] == blocks_map(v).insert(b.id@, b@)[k] by {
        let j = choose|j: int| 0 <= j < w.len() && w[j].id@ == k;
        if j < v.len() {
            lemma_blocks_map_index(v, j);
            assert(w[j] == v[j]);
        } else {
            assert(j == v.len());
        }
    }
    assert(blocks_map(w) =~= blocks_map(v).insert(b.id@, b@));
}

// ─── Copies with known contents ─────────────────────────────────────────────

pub fn copy_opt_string(o: &Option<String>) -> (r: Option<String>)
    ensures
        r == *o,
{
    match o {
        Some(s) => Some(s.clone()),
        None => None,
    }
}

impl BlockType {
    /// A copy equal to `self`.
    pub fn duplicate(&self) -> (r: BlockType)
        ensures
            r == *self,
    {
        match self {
            BlockType::Paragraph => BlockType::Paragraph,
            BlockType::Heading { level } => BlockType::Heading { level: *level },
            BlockType::CodeBlock { language } => BlockType::CodeBlock { language: language.clone() },
            BlockType::List { list_type, indent_level, parent_list_id } => BlockType::List {
                list_type: list_type.clone(),
                indent_level: *indent_level,
                parent_list_id: copy_opt_string(parent_list_id),
            },
            BlockType::BlockQuote => BlockType::BlockQuote,
            BlockType::MathBlock => BlockType::MathBlock,
            BlockType::Mermaid => BlockType::Mermaid,
            BlockType::Typst => BlockType::Typst,
        }
    }
}

impl BlockState {
    /// A copy equal to `self`.
    pub fn duplicate(&self) -> (r: BlockState)
        ensures
            r == *self,
    {
        BlockState {
            id: self.id.clone(),
            parent_id: copy_opt_string(&self.parent_id),
            previous_sibling_id: copy_opt_string(&self.previous_sibling_id),
            markdown: self.markdown.clone(),
            block_type: self.block_type.duplicate(),
        }
    }
}

pub fn copy_blocks(v: &Vec<BlockState>) -> (r: Vec<BlockState>)
    ensures
        r@ == v@,
{
    let mut r: Vec<BlockState> = Vec::new();
    let mut i: usize = 0;
    while i < v.len()
        invariant
            i <= v.len(),
            r@ == v@.take(i as int),
        decreases v.len() - i,
    {
        r.push(v[i].duplicate());
        i = i + 1;
        assert(r@ =~= v@.take(i as int));
    }
    assert(v@.take(v.len() as int) =~= v@);
    r
}

pub fn copy_strings(v: &Vec<String>) -> (r: Vec<String>)
    ensures
        r@ == v@,
{
    let mut r: Vec<String> = Vec::new();
    let mut i: usize = 0;
    while i < v.len()
        invariant
            i <= v.len(),
            r@ == v@.take(i as int),
        decreases v.len() - i,
    {
        r.push(v[i].clone());
        i = i + 1;
        assert(r@ =~= v@.take(i as int));
    }
    assert(v@.take(v.len() as int) =~= v@);
    r
}

/// Index of the block with the given id.
pub fn find_block(blocks: &Vec<BlockState>, id: &str) -> (r: Option<usize>)
    requires
        unique_ids(blocks@),
    ensures
        match r {
            Some(i) => i < blocks.len() && blocks@[i as int].id@ == id@ && blocks_map(blocks@).contains_key(id@),
            None => !blocks_map(blocks@).contains_key(id@),
        },
{
    let mut i: usize = 0;
    while i < blocks.len()
        invariant
            i <= blocks.len(),
            unique_ids(blocks@),
            forall|j: int| 0 <= j < i ==> blocks@[j].id@ != id@,
        decreases blocks.len() - i,
    {
        if str_is(blocks[i].id.as_str(), id) {
            proof {
                lemma_blocks_map_index(blocks@, i as int);
            }
            return Some(i);
        }
        i = i + 1;
    }
    None
}


// ─── Specifications of the editor operations ─────────────────────────────────

/// The snapshot of the current document with a caret position.
pub open spec fn snapshot_of(m: EditorModel, caret: Seq<char>, offset: usize) -> SnapshotModel {
    SnapshotModel {
        blocks: m.blocks,
        node_order: m.node_order,
        caret_node_id: caret,
        caret_offset: offset,
    }
}

/// History holds at most this many undo snapshots.
pub open spec fn undo_limit() -> nat {
    100
}

/// Pushes a snapshot, dropping the oldest when over the limit.
pub open spec fn capped_push(undo: Seq<SnapshotModel>, snap: SnapshotModel) -> Seq<SnapshotModel> {
    let u = undo.push(snap);
    if u.len() > undo_limit() {
        u.drop_first()
    } else {
        u
    }
}

/// The state after recording an undo point: the current document is saved
/// with the caret, the oldest snapshot is dropped beyond the limit, and the
/// redo history is discarded.
pub open spec fn with_undo_point(m: EditorModel, caret: Seq<char>, offset: usize) -> EditorModel {
    EditorModel {
        undo: capped_push(m.undo, snapshot_of(m, caret, offset)),
        redo: Seq::empty(),
        ..m
    }
}

/// Markdown of one inline node.
pub open spec fn node_markdown(n: DecoNode) -> Seq<char>
    decreases n,
{
    match n {
        DecoNode::Text { text, .. } => text,
        DecoNode::Bold { children, .. } => seq!['*', '*'] + nodes_markdown(children) + seq!['*', '*'],
        DecoNode::Italic { children, .. } => seq!['*'] + nodes_markdown(children) + seq!['*'],
        DecoNode::Code { children, .. } => seq!['`'] + nodes_markdown(children) + seq!['`'],
        DecoNode::Link { href, children, .. } => seq!['['] + nodes_markdown(children) + seq![']', '(']
            + href + seq![')'],
    }
}

/// Markdown of a sequence of inline nodes: their Markdown concatenated.
pub open spec fn nodes_markdown(s: Seq<DecoNode>) -> Seq<char>
    decreases s,
{
    if s.len() == 0 {
        Seq::empty()
    } else {
        nodes_markdown(s.subrange(0, s.len() - 1)) + node_markdown(s[s.len() - 1])
    }
}

/// A node with every key in it, at every depth, made empty.
pub open spec fn keyless_node(n: DecoNode) -> DecoNode
    decreases n,
{
    match n {
        DecoNode::Text { text, .. } => DecoNode::Text { key: Seq::empty(), text },
        DecoNode::Bold { children, .. } => DecoNode::Bold {
            key: Seq::empty(),
            children: keyless_nodes(children),
        },
        DecoNode::Italic { children, .. } => DecoNode::Italic {
            key: Seq::empty(),
            children: keyless_nodes(children),
        },
        DecoNode::Code { children, .. } => DecoNode::Code {
            key: Seq::empty(),
            children: keyless_nodes(children),
        },
        DecoNode::Link { href, children, .. } => DecoNode::Link {
            key: Seq::empty(),
            href,
            children: keyless_nodes(children),
        },
    }
}

/// A sequence of nodes with every key made empty.
pub open spec fn keyless_nodes(s: Seq<DecoNode>) -> Seq<DecoNode>
    decreases s,
{
    if s.len() == 0 {
        Seq::empty()
    } else {
        keyless_nodes(s.subrange(0, s.len() - 1)).push(keyless_node(s[s.len() - 1]))
    }
}

proof fn lemma_keyless_node_markdown(n: DecoNode)
    ensures
        node_markdown(keyless_node(n)) == node_markdown(n),
    decreases n,
{
    match n {
        DecoNode::Text { .. } => {},
        DecoNode::Bold { children, .. } => lemma_keyless_nodes_markdown(children),
        DecoNode::Italic { children, .. } => lemma_keyless_nodes_markdown(children),
        DecoNode::Code { children, .. } => lemma_keyless_nodes_markdown(children),
        DecoNode::Link { children, .. } => lemma_keyless_nodes_markdown(children),
    }
}

proof fn lemma_keyless_nodes_markdown(s: Seq<DecoNode>)
    ensures
        nodes_markdown(keyless_nodes(s)) == nodes_markdown(s),
    decreases s,
{
    if s.len() > 0 {
        let k = keyless_nodes(s);
        lemma_keyless_nodes_markdown(s.subrange(0, s.len() - 1));
        lemma_keyless_node_markdown(s[s.len() - 1]);
        assert(k.subrange(0, k.len() - 1) =~= keyless_nodes(s.subrange(0, s.len() - 1)));
    }
}

proof fn lemma_nodes_markdown_concat(a: Seq<DecoNode>, b: Seq<DecoNode>)
    ensures
        nodes_markdown(a + b) == nodes_markdown(a) + nodes_markdown(b),
    decreases b.len(),
{
    if b.len() == 0 {
        assert(a + b =~= a);
        assert(nodes_markdown(a) + nodes_markdown(b) =~= nodes_markdown(a));
    } else {
        let b1 = b.subrange(0, b.len() - 1);
        lemma_nodes_markdown_concat(a, b1);
        assert((a + b).subrange(0, (a + b).len() - 1) =~= a + b1);
        assert(nodes_markdown(a + b) =~= nodes_markdown(a) + nodes_markdown(b));
    }
}

/// Rendering inline nodes as Markdown: no nodes render as the empty text, a
/// concatenation renders as the concatenated renderings, and keys play no
/// part (sequences that differ only in their keys render alike).
pub proof fn law_ast_to_markdown(a: Seq<InlineDecorationNode>, b: Seq<InlineDecorationNode>)
    ensures
        nodes_markdown(nodes_view(Seq::<InlineDecorationNode>::empty())) == Seq::<char>::empty(),
        nodes_markdown(nodes_view(a + b)) == nodes_markdown(nodes_view(a)) + nodes_markdown(
            nodes_view(b),
        ),
        keyless_nodes(nodes_view(a)) == keyless_nodes(nodes_view(b)) ==> nodes_markdown(
            nodes_view(a),
        ) == nodes_markdown(nodes_view(b)),
{
    lemma_nodes_view_concat(a, b);
    lemma_nodes_markdown_concat(nodes_view(a), nodes_view(b));
    lemma_keyless_nodes_markdown(nodes_view(a));
    lemma_keyless_nodes_markdown(nodes_view(b));
}

/// The Markdown prefix that a block type puts before its inline content.
pub open spec fn type_prefix(k: BlockKind) -> Seq<char> {
    match k {
        BlockKind::Heading { level } => hash_run(level as int) + seq![' '],
        BlockKind::List { list_type, .. } => if list_type == "ordered"@ {
            seq!['1', '.', ' ']
        } else {
            seq!['-', ' ']
        },
        BlockKind::BlockQuote => seq!['>', ' '],
        _ => Seq::empty(),
    }
}

/// 64-bit FNV-1a hash of a byte sequence.
pub open spec fn fnv1a(bytes: Seq<u8>) -> u64
    decreases bytes.len(),
{
    if bytes.len() == 0 {
        0xcbf29ce484222325u64
    } else {
        (((fnv1a(bytes.drop_last()) ^ (bytes.last() as u64)) as nat * 0x100000001b3nat)
            % 0x1_0000_0000_0000_0000nat) as u64
    }
}

/// Lower-case hexadecimal digit.
pub open spec fn hex_char(d: int) -> char {
    if d < 10 {
        crate::text::digit_char(d)
    } else if d == 10 {
        'a'
    } else if d == 11 {
        'b'
    } else if d == 12 {
        'c'
    } else if d == 13 {
        'd'
    } else if d == 14 {
        'e'
    } else {
        'f'
    }
}

/// The last `n` hexadecimal digits of `h`, zero-padded.
pub open spec fn hex_fixed(h: nat, n: nat) -> Seq<char>
    decreases n,
{
    if n == 0 {
        Seq::empty()
    } else {
        hex_fixed(h / 16, (n - 1) as nat).push(hex_char((h % 16) as int))
    }
}

fn hex_digit(d: u64) -> (c: char)
    requires
        d < 16,
    ensures
        c == hex_char(d as int),
{
    if d < 10 {
        crate::text::digit_to_char(d as u128)
    } else if d == 10 {
        'a'
    } else if d == 11 {
        'b'
    } else if d == 12 {
        'c'
    } else if d == 13 {
        'd'
    } else if d == 14 {
        'e'
    } else {
        'f'
    }
}

fn push_hex_fixed(out: &mut Vec<char>, h: u64, n: u64)
    ensures
        final(out)@ == old(out)@ + hex_fixed(h as nat, n as nat),
    decreases n,
{
    if n > 0 {
        push_hex_fixed(out, h / 16, n - 1);
        out.push(hex_digit(h % 16));
        assert(out@ =~= old(out)@ + hex_fixed(h as nat, n as nat));
    } else {
        assert(out@ =~= old(out)@ + hex_fixed(h as nat, n as nat));
    }
}

fn write_node_markdown(out: &mut Vec<char>, n: &InlineDecorationNode)
    ensures
        final(out)@ == old(out)@ + node_markdown(node_view(*n)),
    decreases n,
{
    proof {
        reveal_strlit("**");
        reveal_strlit("*");
        reveal_strlit("`");
        reveal_strlit("[");
        reveal_strlit("](");
        reveal_strlit(")");
    }
    match n {
        InlineDecorationNode::Text { text, .. } => {
            push_str(out, text.as_str());
        },
        InlineDecorationNode::Bold { children, .. } => {
            push_str(out, "**");
            write_nodes_markdown(out, children.as_slice());
            push_str(out, "**");
        },
        InlineDecorationNode::Italic { children, .. } => {
            push_str(out, "*");
            write_nodes_markdown(out, children.as_slice());
            push_str(out, "*");
        },
        InlineDecorationNode::Code { children, .. } => {
            push_str(out, "`");
            write_nodes_markdown(out, children.as_slice());
            push_str(out, "`");
        },
        InlineDecorationNode::Link { href, children, .. } => {
            push_str(out, "[");
            write_nodes_markdown(out, children.as_slice());
            push_str(out, "](");
            push_str(out, href.as_str());
            push_str(out, ")");
        },
    }
    assert(out@ =~= old(out)@ + node_markdown(node_view(*n)));
}

fn write_nodes_markdown(out: &mut Vec<char>, nodes: &[InlineDecorationNode])
    ensures
        final(out)@ == old(out)@ + nodes_markdown(nodes_view(nodes@)),
    decreases nodes@,
{
    let mut i: usize = 0;
    assert(nodes@.take(0) =~= Seq::<InlineDecorationNode>::empty());
    while i < nodes.len()
        invariant
            i <= nodes@.len(),
            out@ == old(out)@ + nodes_markdown(nodes_view(nodes@.take(i as int))),
        decreases nodes.len() - i,
    {
        write_node_markdown(out, &nodes[i]);
        proof {
            let t = nodes@.take(i + 1);
            assert(t.subrange(0, t.len() - 1) =~= nodes@.take(i as int));
            assert(nodes_view(t) == nodes_view(nodes@.take(i as int)).push(node_view(nodes@[i as int])));
            assert(nodes_view(t).subrange(0, nodes_view(t).len() - 1) =~= nodes_view(nodes@.take(i as int)));
        }
        i = i + 1;
    }
    assert(nodes@.take(nodes@.len() as int) =~= nodes@);
}

/// The state with the request's sequence number recorded.
pub open spec fn with_seq(m: EditorModel, seq: u64) -> EditorModel {
    EditorModel { last_seq: seq, ..m }
}

/// The state after syncing a block's inline content: an existing block keeps
/// its type and gets the type's prefix before the content; an unknown id
/// records an undo point and becomes a new paragraph block with the content.
pub open spec fn synced(m: EditorModel, id: Seq<char>, inline: Seq<char>, caret: usize) -> EditorModel {
    if m.blocks.contains_key(id) {
        let b = m.blocks[id];
        EditorModel {
            blocks: m.blocks.insert(
                id,
                BlockModel { markdown: type_prefix(b.block_type) + inline, ..b },
            ),
            is_dirty: true,
            ..m
        }
    } else {
        let m2 = with_undo_point(m, id, caret);
        EditorModel {
            blocks: m2.blocks.insert(
                id,
                BlockModel {
                    id,
                    parent_id: None,
                    previous_sibling_id: None,
                    markdown: inline,
                    block_type: BlockKind::Paragraph,
                },
            ),
            is_dirty: true,
            ..m2
        }
    }
}

/// Index of the first occurrence of `x` in `s`.
pub open spec fn first_index(s: Seq<Seq<char>>, x: Seq<char>) -> Option<int> {
    if exists|i: int| 0 <= i < s.len() && s[i] == x {
        Some(
            choose|i: int|
                0 <= i < s.len() && s[i] == x && forall|j: int| 0 <= j < i ==> s[j] != x,
        )
    } else {
        None
    }
}

/// The order with `id` moved: its first occurrence is removed, then it is put
/// right after the first occurrence of `prev`, or first when `prev` is absent
/// or not in the order.
pub open spec fn moved_order(order: Seq<Seq<char>>, id: Seq<char>, prev: Option<Seq<char>>) -> Seq<
    Seq<char>,
> {
    let removed = match first_index(order, id) {
        Some(i) => order.remove(i),
        None => order,
    };
    match prev {
        Some(p) => match first_index(removed, p) {
            Some(j) => removed.insert(j + 1, id),
            None => removed.insert(0, id),
        },
        None => removed.insert(0, id),
    }
}

/// A block after formatting: the new Markdown and the type derived from it.
pub open spec fn formatted_block(b: BlockModel, md: Seq<char>) -> BlockModel {
    BlockModel { markdown: md, block_type: spec_derive_block_type(md), ..b }
}

/// Model of a restored block.
pub struct RestoredModel {
    pub id: Seq<char>,
    pub block_type: BlockKind,
    pub ast_content: Seq<DecoNode>,
    pub markdown: Seq<char>,
}

pub open spec fn restored_view(r: RestoredBlockData) -> RestoredModel {
    RestoredModel {
        id: r.id@,
        block_type: r.block_type@,
        ast_content: nodes_view(r.ast_content@),
        markdown: r.markdown@,
    }
}

/// The blocks named in `order` that exist, in that order, each with its type
/// and inline tree derived from its Markdown.
pub open spec fn restored_of(blocks: Map<Seq<char>, BlockModel>, order: Seq<Seq<char>>) -> Seq<
    RestoredModel,
>
    decreases order.len(),
{
    if order.len() == 0 {
        Seq::empty()
    } else {
        let r = restored_of(blocks, order.drop_last());
        let id = order.last();
        if blocks.contains_key(id) {
            let md = blocks[id].markdown;
            r.push(
                RestoredModel {
                    id,
                    block_type: spec_derive_block_type(md),
                    ast_content: spec_decorations(markdown_events(md)),
                    markdown: md,
                },
            )
        } else {
            r
        }
    }
}

/// Undo: the latest undo point replaces the document, and the current
/// document is saved for redo with that point's caret.
pub open spec fn undone(m: EditorModel) -> EditorModel {
    let s = m.undo.last();
    EditorModel {
        blocks: s.blocks,
        node_order: s.node_order,
        is_dirty: true,
        undo: m.undo.drop_last(),
        redo: m.redo.push(
            SnapshotModel {
                blocks: m.blocks,
                node_order: m.node_order,
                caret_node_id: s.caret_node_id,
                caret_offset: s.caret_offset,
            },
        ),
        ..m
    }
}

/// Redo: the latest redo point replaces the document, and the current
/// document is saved for undo with that point's caret.
pub open spec fn redone(m: EditorModel) -> EditorModel {
    let s = m.redo.last();
    EditorModel {
        blocks: s.blocks,
        node_order: s.node_order,
        is_dirty: true,
        redo: m.redo.drop_last(),
        undo: m.undo.push(
            SnapshotModel {
                blocks: m.blocks,
                node_order: m.node_order,
                caret_node_id: s.caret_node_id,
                caret_offset: s.caret_offset,
            },
        ),
        ..m
    }
}

/// The block map after inserting the loaded blocks in order: each block's
/// Markdown is its raw text, with no parent or sibling; a later block replaces
/// an earlier one with the same id.
pub open spec fn loaded_map(bs: Seq<BlockData>) -> Map<Seq<char>, BlockModel>
    decreases bs.len(),
{
    if bs.len() == 0 {
        Map::empty()
    } else {
        loaded_map(bs.drop_last()).insert(bs.last().id@, loaded_block(bs.last()))
    }
}

pub open spec fn loaded_block(b: BlockData) -> BlockModel {
    BlockModel {
        id: b.id@,
        parent_id: None,
        previous_sibling_id: None,
        markdown: b.plain_text@,
        block_type: b.block_type@,
    }
}

/// The document as Markdown: the Markdown of each block named in the order
/// that exists, each followed by a blank line.
pub open spec fn document_text(blocks: Map<Seq<char>, BlockModel>, order: Seq<Seq<char>>) -> Seq<char>
    decreases order.len(),
{
    if order.len() == 0 {
        Seq::empty()
    } else {
        let rest = document_text(blocks, order.drop_last());
        if blocks.contains_key(order.last()) {
            rest + blocks[order.last()].markdown + seq!['\n', '\n']
        } else {
            rest
        }
    }
}

/// The block that a restore reports for a loaded block.
pub open spec fn restored_from(b: BlockData) -> RestoredModel {
    RestoredModel {
        id: b.id@,
        block_type: b.block_type@,
        ast_content: nodes_view(b.ast_content@),
        markdown: b.plain_text@,
    }
}

pub open spec fn restored_list(v: Seq<RestoredBlockData>) -> Seq<RestoredModel> {
    Seq::new(v.len(), |i: int| restored_view(v[i]))
}

pub open spec fn loaded_list(v: Seq<BlockData>) -> Seq<RestoredModel> {
    Seq::new(v.len(), |i: int| restored_from(v[i]))
}

pub proof fn lemma_restored_list_push(v: Seq<RestoredBlockData>, r: RestoredBlockData)
    ensures
        restored_list(v.push(r)) == restored_list(v).push(restored_view(r)),
{
    assert(restored_list(v.push(r)) =~= restored_list(v).push(restored_view(r)));
}

pub proof fn lemma_loaded_list_push(v: Seq<BlockData>, b: BlockData)
    ensures
        loaded_list(v.push(b)) == loaded_list(v).push(restored_from(b)),
{
    assert(loaded_list(v.push(b)) =~= loaded_list(v).push(restored_from(b)));
}

/// Index of the first element equal to `x`.
pub fn position(v: &Vec<String>, x: &str) -> (r: Option<usize>)
    ensures
        match r {
            Some(i) => first_index(strings_view(v@), x@) == Some(i as int) && i < v.len(),
            None => first_index(strings_view(v@), x@) is None,
        },
{
    let ghost sv = strings_view(v@);
    let mut i: usize = 0;
    while i < v.len()
        invariant
            sv == strings_view(v@),
            i <= v.len(),
            forall|j: int| 0 <= j < i ==> sv[j] != x@,
        decreases v.len() - i,
    {
        if str_is(v[i].as_str(), x) {
            proof {
                assert(sv[i as int] == x@);
                let c = choose|k: int|
                    0 <= k < sv.len() && sv[k] == x@ && forall|j: int| 0 <= j < k ==> sv[j] != x@;
                if c < i {
                    assert(sv[c] != x@);
                } else if c > i {
                    assert(sv[i as int] != x@);
                }
            }
            return Some(i);
        }
        i = i + 1;
    }
    None
}

impl Default for EditorState {
    /// The empty editor, as [`EditorState::new`] makes it.
    fn default() -> (s: Self)
        ensures
            s.wf(),
            s@.blocks == Map::<Seq<char>, BlockModel>::empty(),
            s@.node_order == Seq::<Seq<char>>::empty(),
            s@.last_seq == 0,
            !s@.is_dirty,
            s@.current_file_path is None,
            s@.file_path_hash is None,
            s@.undo == Seq::<SnapshotModel>::empty(),
            s@.redo == Seq::<SnapshotModel>::empty(),
    {
        Self::new()
    }
}

impl EditorState {
    /// An empty editor: no blocks, no file, no history.
    pub fn new() -> (s: Self)
        ensures
            s.wf(),
            s@.blocks == Map::<Seq<char>, BlockModel>::empty(),
            s@.node_order == Seq::<Seq<char>>::empty(),
            s@.last_seq == 0,
            !s@.is_dirty,
            s@.current_file_path is None,
            s@.file_path_hash is None,
            s@.undo == Seq::<SnapshotModel>::empty(),
            s@.redo == Seq::<SnapshotModel>::empty(),
    {
        let s = EditorState {
            blocks: Vec::new(),
            node_order: Vec::new(),
            last_seq: 0,
            is_dirty: false,
            current_file_path: None,
            file_path_hash: None,
            undo_stack: Vec::new(),
            redo_stack: Vec::new(),
        };
        assert(s@.blocks =~= Map::<Seq<char>, BlockModel>::empty());
        assert(s@.node_order =~= Seq::<Seq<char>>::empty());
        assert(s@.undo =~= Seq::<SnapshotModel>::empty());
        assert(s@.redo =~= Seq::<SnapshotModel>::empty());
        s
    }

    /// A short stable name for a file path: its 64-bit FNV-1a hash over the
    /// UTF-8 bytes, as 16 lower-case hexadecimal digits.
    pub fn hash_path(path: &str) -> (h: String)
        ensures
            h@ == hex_fixed(fnv1a(encode_utf8(path@)) as nat, 16),
    {
        let bytes = path.as_bytes();
        let mut hash: u64 = 0xcbf29ce484222325;
        let mut i: usize = 0;
        while i < bytes.len()
            invariant
                bytes@ == encode_utf8(path@),
                i <= bytes.len(),
                hash == fnv1a(bytes@.take(i as int)),
            decreases bytes.len() - i,
        {
            let ghost prev = hash;
            hash = hash ^ (bytes[i] as u64);
            hash = hash.wrapping_mul(0x100000001b3);
            proof {
                assert(bytes@.take(i + 1).drop_last() =~= bytes@.take(i as int));
            }
            i = i + 1;
        }
        assert(bytes@.take(bytes.len() as int) =~= bytes@);
        let mut out: Vec<char> = Vec::new();
        push_hex_fixed(&mut out, hash, 16);
        assert(out@ =~= hex_fixed(hash as nat, 16));
        string_from_chars(&out)
    }

    /// Saves the current document with the caret as an undo point, dropping
    /// the oldest point beyond 100, and discards the redo history.
    pub fn push_undo_snapshot(&mut self, caret_node_id: &str, caret_offset: usize)
        requires
            old(self).wf(),
        ensures
            final(self).wf(),
            final(self)@ == with_undo_point(old(self)@, caret_node_id@, caret_offset),
    {
        let ghost m = self@;
        let snap = Snapshot {
            blocks: copy_blocks(&self.blocks),
            node_order: copy_strings(&self.node_order),
            caret_node_id: String::from_str(caret_node_id),
            caret_offset,
        };
        let ghost sm = snap@;
        assert(sm == snapshot_of(m, caret_node_id@, caret_offset));
        let ghost old_undo = self.undo_stack@;
        self.undo_stack.push(snap);
        assert(snapshots_view(self.undo_stack@) =~= snapshots_view(old_undo).push(sm));
        if self.undo_stack.len() > 100 {
            let ghost pushed = self.undo_stack@;
            self.undo_stack.remove(0);
            assert(snapshots_view(self.undo_stack@) =~= snapshots_view(pushed).drop_first());
        }
        self.redo_stack.clear();
        assert(snapshots_view(self.redo_stack@) =~= Seq::<SnapshotModel>::empty());
        assert(self@ =~= with_undo_point(m, caret_node_id@, caret_offset));
    }

    /// Converts a tree of inline nodes back into Markdown: text as is, bold in
    /// `**`, italic in `*`, code in backticks, links as `[children](href)`.
    pub fn ast_to_markdown(nodes: &[InlineDecorationNode]) -> (md: String)
        ensures
            md@ == nodes_markdown(nodes_view(nodes@)),
    {
        let mut out: Vec<char> = Vec::new();
        write_nodes_markdown(&mut out, nodes);
        assert(out@ =~= nodes_markdown(nodes_view(nodes@)));
        string_from_chars(&out)
    }

    /// The Markdown prefix for a block type: `#`s and a space for a heading,
    /// `1. ` or `- ` for an ordered or other list, `> ` for a quote, else none.
    pub fn block_type_prefix(block_type: &BlockType) -> (p: String)
        ensures
            p@ == type_prefix(block_type@),
    {
        let mut out: Vec<char> = Vec::new();
        proof {
            reveal_strlit("1. ");
            reveal_strlit("- ");
            reveal_strlit("> ");
            reveal_strlit(" ");
        }
        match block_type {
            BlockType::Heading { level } => {
                push_char_n(&mut out, '#', *level as usize);
                push_str(&mut out, " ");
                assert(out@ =~= hash_run(*level as int) + seq![' ']);
            },
            BlockType::List { list_type, .. } => {
                if str_is(list_type.as_str(), "ordered") {
                    push_str(&mut out, "1. ");
                } else {
                    push_str(&mut out, "- ");
                }
            },
            BlockType::BlockQuote => {
                push_str(&mut out, "> ");
            },
            _ => {},
        }
        assert(out@ =~= type_prefix(block_type@));
        string_from_chars(&out)
    }

    /// Applies a block sync from the front end. A request whose `seq` is not
    /// newer than the last one is rejected (`None`, nothing changes);
    /// otherwise the block's Markdown is rebuilt from the decorations.
    pub fn process_sync_request(&mut self, req: BlockSyncRequest) -> (res: Option<BlockSyncResponse>)
        requires
            old(self).wf(),
        ensures
            final(self).wf(),
            req.seq <= old(self)@.last_seq ==> res is None && final(self)@ == old(self)@,
            req.seq > old(self)@.last_seq ==> {
                &&& final(self)@ == synced(
                    with_seq(old(self)@, req.seq),
                    req.node_id@,
                    nodes_markdown(nodes_view(req.decorations@)),
                    req.caret_offset,
                )
                &&& res matches Some(r) && {
                    &&& r.seq == req.seq
                    &&& r.node_id@ == req.node_id@
                    &&& r.action matches ResponseAction::UpdateProperties { patches } && patches@.len() == 0
                    &&& r.caret.target_node_id@ == req.node_id@
                    &&& r.caret.offset == req.caret_offset
                }
            },
    {
        if req.seq <= self.last_seq {
            return None;
        }
        self.last_seq = req.seq;
        let ghost m1 = self@;
        assert(m1 == with_seq(old(self)@, req.seq));
        let inline_md = Self::ast_to_markdown(req.decorations.as_slice());
        match find_block(&self.blocks, req.node_id.as_str()) {
            Some(i) => {
                let prefix = Self::block_type_prefix(&self.blocks[i].block_type);
                let mut md: Vec<char> = str_chars(prefix.as_str());
                push_str(&mut md, inline_md.as_str());
                let mut b = self.blocks[i].duplicate();
                b.markdown = string_from_chars(&md);
                proof {
                    lemma_blocks_map_index(self.blocks@, i as int);
                    lemma_blocks_map_update(self.blocks@, i as int, b);
                }
                self.blocks[i] = b;
                self.is_dirty = true;
                assert(self@ =~= synced(m1, req.node_id@, inline_md@, req.caret_offset));
            },
            None => {
                self.push_undo_snapshot(req.node_id.as_str(), req.caret_offset);
                let b = BlockState {
                    id: req.node_id.clone(),
                    parent_id: None,
                    previous_sibling_id: None,
                    markdown: inline_md,
                    block_type: BlockType::Paragraph,
                };
                proof {
                    lemma_blocks_map_push(self.blocks@, b);
                }
                self.blocks.push(b);
                self.is_dirty = true;
                assert(self@ =~= synced(m1, req.node_id@, nodes_markdown(nodes_view(req.decorations@)), req.caret_offset));
            },
        }
        let patches: Vec<crate::ast::OpCommand> = Vec::new();
        Some(BlockSyncResponse {
            seq: req.seq,
            node_id: req.node_id.clone(),
            action: ResponseAction::UpdateProperties { patches },
            caret: CaretPosition { target_node_id: req.node_id, offset: req.caret_offset },
        })
    }

    /// Moves a block in the document order. A stale request is rejected
    /// (`None`, nothing changes); otherwise an undo point is recorded, the id
    /// is removed from the order and put after the target sibling, or first.
    #[verifier::rlimit(80)]
    pub fn move_block(&mut self, req: BlockMoveRequest) -> (res: Option<BlockMoveResponse>)
        requires
            old(self).wf(),
        ensures
            final(self).wf(),
            req.seq <= old(self)@.last_seq ==> res is None && final(self)@ == old(self)@,
            req.seq > old(self)@.last_seq ==> {
                let m = with_undo_point(with_seq(old(self)@, req.seq), req.node_id@, 0);
                let order = moved_order(
                    m.node_order,
                    req.node_id@,
                    opt_str_view(req.target_previous_sibling_id),
                );
                &&& final(self)@ == EditorModel { node_order: order, is_dirty: true, ..m }
                &&& res matches Some(r) && {
                    &&& r.seq == req.seq
                    &&& r.success
                    &&& strings_view(r.new_node_order@) == order
                }
            },
    {
        if req.seq <= self.last_seq {
            return None;
        }
        self.last_seq = req.seq;
        self.push_undo_snapshot(req.node_id.as_str(), 0);
        let ghost m = self@;
        let ghost prev = opt_str_view(req.target_previous_sibling_id);
        match position(&self.node_order, req.node_id.as_str()) {
            Some(i) => {
                self.node_order.remove(i);
                assert(strings_view(self.node_order@) =~= m.node_order.remove(i as int));
            },
            None => {},
        }
        let ghost removed = strings_view(self.node_order@);
        let mut inserted = false;
        match &req.target_previous_sibling_id {
            Some(p) => match position(&self.node_order, p.as_str()) {
                Some(j) => {
                    self.node_order.insert(j + 1, req.node_id.clone());
                    assert(strings_view(self.node_order@) =~= removed.insert(j + 1, req.node_id@));
                    inserted = true;
                },
                None => {},
            },
            None => {},
        }
        if !inserted {
            self.node_order.insert(0, req.node_id.clone());
            assert(strings_view(self.node_order@) =~= removed.insert(0, req.node_id@));
        }
        self.is_dirty = true;
        let ghost order = moved_order(m.node_order, req.node_id@, prev);
        assert(strings_view(self.node_order@) == order);
        assert(self@ =~= EditorModel { node_order: order, is_dirty: true, ..m });
        Some(BlockMoveResponse {
            seq: req.seq,
            success: true,
            new_node_order: copy_strings(&self.node_order),
        })
    }

    /// Whether [`Self::apply_format`] is defined for the request: a stale
    /// request always is; for a newer one the new caret of the named block,
    /// if there is one, fits in `usize` (see `inline_decoration_defined`).
    pub fn format_request_defined(&self, req: &FormatRequest) -> (r: bool)
        requires
            self.wf(),
        ensures
            r == (req.seq > self@.last_seq && self@.blocks.contains_key(req.node_id@) ==> {
                let md = self@.blocks[req.node_id@].markdown;
                spec_apply_inline(
                    md,
                    req.action_type@,
                    req.selection_start,
                    req.selection_end,
                    opt_str_view(req.meta_value),
                ).1 <= usize::MAX
            }),
    {
        if req.seq <= self.last_seq {
            return true;
        }
        match find_block(&self.blocks, req.node_id.as_str()) {
            Some(i) => {
                proof {
                    lemma_blocks_map_index(self.blocks@, i as int);
                }
                let meta: Option<&str> = match &req.meta_value {
                    Some(v) => Some(v.as_str()),
                    None => None,
                };
                inline_decoration_defined(
                    self.blocks[i].markdown.as_str(),
                    req.action_type.as_str(),
                    req.selection_start,
                    req.selection_end,
                    meta,
                )
            },
            None => true,
        }
    }

    /// Applies an inline format to a block. A stale request is rejected
    /// (`None`, nothing changes). Otherwise an undo point is recorded; an
    /// unknown block gives `None`, and a known one gets the formatted Markdown
    /// and the type derived from it, answered with its new tree and caret.
    pub fn apply_format(&mut self, req: FormatRequest) -> (res: Option<FormatResponse>)
        requires
            old(self).wf(),
            req.seq > old(self)@.last_seq && old(self)@.blocks.contains_key(req.node_id@) ==> {
                let md = old(self)@.blocks[req.node_id@].markdown;
                spec_apply_inline(
                    md,
                    req.action_type@,
                    req.selection_start,
                    req.selection_end,
                    opt_str_view(req.meta_value),
                ).1 <= usize::MAX
            },
        ensures
            final(self).wf(),
            req.seq <= old(self)@.last_seq ==> res is None && final(self)@ == old(self)@,
            req.seq > old(self)@.last_seq ==> {
                let m = with_undo_point(
                    with_seq(old(self)@, req.seq),
                    req.node_id@,
                    req.selection_start,
                );
                if m.blocks.contains_key(req.node_id@) {
                    let b = m.blocks[req.node_id@];
                    let edit = spec_apply_inline(
                        b.markdown,
                        req.action_type@,
                        req.selection_start,
                        req.selection_end,
                        opt_str_view(req.meta_value),
                    );
                    &&& final(self)@ == EditorModel {
                        blocks: m.blocks.insert(req.node_id@, formatted_block(b, edit.0)),
                        is_dirty: true,
                        ..m
                    }
                    &&& res matches Some(r) && {
                        &&& r.seq == req.seq
                        &&& r.node_id@ == req.node_id@
                        &&& nodes_view(r.ast_content@) == spec_decorations(markdown_events(edit.0))
                        &&& r.block_type@ == spec_derive_block_type(edit.0)
                        &&& r.caret.target_node_id@ == req.node_id@
                        &&& r.caret.offset == edit.1
                    }
                } else {
                    res is None && final(self)@ == m
                }
            },
    {
        if req.seq <= self.last_seq {
            return None;
        }
        self.last_seq = req.seq;
        self.push_undo_snapshot(req.node_id.as_str(), req.selection_start);
        let ghost m = self@;
        let i = match find_block(&self.blocks, req.node_id.as_str()) {
            Some(i) => i,
            None => {
                return None;
            },
        };
        proof {
            lemma_blocks_map_index(self.blocks@, i as int);
        }
        let meta: Option<&str> = match &req.meta_value {
            Some(v) => Some(v.as_str()),
            None => None,
        };
        let (new_markdown, new_caret) = apply_inline_decoration(
            self.blocks[i].markdown.as_str(),
            req.action_type.as_str(),
            req.selection_start,
            req.selection_end,
            meta,
        );
        let ast_content = parse_markdown_to_decorations(new_markdown.as_str());
        let block_type = derive_block_type(new_markdown.as_str());
        let mut b = self.blocks[i].duplicate();
        b.markdown = new_markdown;
        b.block_type = block_type.duplicate();
        proof {
            lemma_blocks_map_update(self.blocks@, i as int, b);
        }
        self.blocks[i] = b;
        self.is_dirty = true;
        assert(self@ =~= EditorModel {
            blocks: m.blocks.insert(req.node_id@, formatted_block(m.blocks[req.node_id@], b.markdown@)),
            is_dirty: true,
            ..m
        });
        Some(FormatResponse {
            seq: req.seq,
            node_id: req.node_id.clone(),
            ast_content,
            block_type,
            caret: CaretPosition { target_node_id: req.node_id, offset: new_caret },
        })
    }

    /// The restored view of the blocks named in the current order.
    fn restored_blocks(&self) -> (r: Vec<RestoredBlockData>)
        requires
            self.wf(),
        ensures
            Seq::new(r@.len(), |i: int| restored_view(r@[i])) == restored_of(
                self@.blocks,
                self@.node_order,
            ),
    {
        let ghost order = self@.node_order;
        let mut out: Vec<RestoredBlockData> = Vec::new();
        let mut i: usize = 0;
        while i < self.node_order.len()
            invariant
                self.wf(),
                order == self@.node_order,
                i <= self.node_order.len(),
                Seq::new(out@.len(), |k: int| restored_view(out@[k])) == restored_of(
                    self@.blocks,
                    order.take(i as int),
                ),
            decreases self.node_order.len() - i,
        {
            let id = &self.node_order[i];
            proof {
                assert(order.take(i + 1).drop_last() =~= order.take(i as int));
                assert(order.take(i + 1).last() == id@);
            }
            match find_block(&self.blocks, id.as_str()) {
                Some(j) => {
                    proof {
                        lemma_blocks_map_index(self.blocks@, j as int);
                    }
                    let md = &self.blocks[j].markdown;
                    let ast_content = parse_markdown_to_decorations(md.as_str());
                    let block_type = derive_block_type(md.as_str());
                    let r = RestoredBlockData {
                        id: id.clone(),
                        block_type,
                        ast_content,
                        markdown: md.clone(),
                    };
                    let ghost before = out@;
                    out.push(r);
                    assert(Seq::new(out@.len(), |k: int| restored_view(out@[k])) =~= Seq::new(
                        before.len(),
                        |k: int| restored_view(before[k]),
                    ).push(restored_view(r)));
                },
                None => {},
            }
            i = i + 1;
        }
        assert(order.take(order.len() as int) =~= order);
        out
    }

    /// Undo or redo. A stale request is rejected (`None`, nothing changes).
    /// Otherwise `"undo"` restores the latest undo point and saves the current
    /// document for redo (`"redo"` the other way round); with no point to
    /// restore, or another history type, the answer is `None`. The answer
    /// lists the restored blocks in order with the point's caret.
    pub fn trigger_history(&mut self, req: HistoryRequest) -> (res: Option<HistoryResponse>)
        requires
            old(self).wf(),
        ensures
            final(self).wf(),
            req.seq <= old(self)@.last_seq ==> res is None && final(self)@ == old(self)@,
            req.seq > old(self)@.last_seq ==> {
                let m = with_seq(old(self)@, req.seq);
                if req.history_type@ == "undo"@ && m.undo.len() > 0 || req.history_type@
                    == "redo"@ && m.redo.len() > 0 {
                    let n = if req.history_type@ == "undo"@ {
                        undone(m)
                    } else {
                        redone(m)
                    };
                    let point = if req.history_type@ == "undo"@ {
                        m.undo.last()
                    } else {
                        m.redo.last()
                    };
                    &&& final(self)@ == n
                    &&& res matches Some(r) && {
                        &&& r.seq == req.seq
                        &&& Seq::new(r.restored_blocks@.len(), |i: int| restored_view(r.restored_blocks@[i]))
                            == restored_of(n.blocks, n.node_order)
                        &&& strings_view(r.node_order@) == n.node_order
                        &&& r.caret.target_node_id@ == point.caret_node_id
                        &&& r.caret.offset == point.caret_offset
                    }
                } else {
                    res is None && final(self)@ == m
                }
            },
    {
        if req.seq <= self.last_seq {
            return None;
        }
        self.last_seq = req.seq;
        let ghost m = self@;
        proof {
            reveal_strlit("undo");
            reveal_strlit("redo");
            assert("undo"@[0] != "redo"@[0]);
        }
        let is_undo = str_is(req.history_type.as_str(), "undo");
        let snapshot: Snapshot;
        if is_undo {
            match self.undo_stack.pop() {
                Some(s) => {
                    let saved = Snapshot {
                        blocks: copy_blocks(&self.blocks),
                        node_order: copy_strings(&self.node_order),
                        caret_node_id: s.caret_node_id.clone(),
                        caret_offset: s.caret_offset,
                    };
                    let ghost before = self.redo_stack@;
                    self.redo_stack.push(saved);
                    assert(snapshots_view(self.redo_stack@) =~= snapshots_view(before).push(saved@));
                    assert(snapshots_view(self.undo_stack@) =~= m.undo.drop_last());
                    snapshot = s;
                },
                None => {
                    assert(self@ =~= m);
                    return None;
                },
            }
        } else if str_is(req.history_type.as_str(), "redo") {
            match self.redo_stack.pop() {
                Some(s) => {
                    let saved = Snapshot {
                        blocks: copy_blocks(&self.blocks),
                        node_order: copy_strings(&self.node_order),
                        caret_node_id: s.caret_node_id.clone(),
                        caret_offset: s.caret_offset,
                    };
                    let ghost before = self.undo_stack@;
                    self.undo_stack.push(saved);
                    assert(snapshots_view(self.undo_stack@) =~= snapshots_view(before).push(saved@));
                    assert(snapshots_view(self.redo_stack@) =~= m.redo.drop_last());
                    snapshot = s;
                },
                None => {
                    assert(self@ =~= m);
                    return None;
                },
            }
        } else {
            assert(self@ =~= m);
            return None;
        }
        let Snapshot { blocks, node_order, caret_node_id, caret_offset } = snapshot;
        self.blocks = blocks;
        self.node_order = node_order;
        self.is_dirty = true;
        proof {
            if is_undo {
                assert(self@ =~= undone(m));
            } else {
                assert(self@ =~= redone(m));
            }
        }
        let restored_blocks = self.restored_blocks();
        Some(HistoryResponse {
            seq: req.seq,
            restored_blocks,
            node_order: copy_strings(&self.node_order),
            caret: CaretPosition { target_node_id: caret_node_id, offset: caret_offset },
        })
    }

    /// Inserts a block, replacing the block with the same id if there is one.
    fn upsert_block(&mut self, b: BlockState)
        requires
            old(self).wf(),
        ensures
            final(self).wf(),
            final(self)@ == (EditorModel { blocks: old(self)@.blocks.insert(b.id@, b@), ..old(self)@ }),
    {
        match find_block(&self.blocks, b.id.as_str()) {
            Some(i) => {
                proof {
                    lemma_blocks_map_update(self.blocks@, i as int, b);
                }
                self.blocks[i] = b;
            },
            None => {
                proof {
                    lemma_blocks_map_push(self.blocks@, b);
                }
                self.blocks.push(b);
            },
        }
        assert(self@ =~= EditorModel { blocks: old(self)@.blocks.insert(b.id@, b@), ..old(self)@ });
    }

    /// Replaces all blocks with the loaded ones (Markdown = raw text) and the
    /// order with `node_order`; history and the rest are kept.
    fn replace_blocks(&mut self, blocks: &Vec<BlockData>, node_order: &Vec<String>)
        requires
            old(self).wf(),
        ensures
            final(self).wf(),
            final(self)@ == (EditorModel {
                blocks: loaded_map(blocks@),
                node_order: strings_view(node_order@),
                ..old(self)@
            }),
    {
        self.blocks.clear();
        assert(blocks_map(self.blocks@) =~= Map::<Seq<char>, BlockModel>::empty());
        let mut i: usize = 0;
        while i < blocks.len()
            invariant
                self.wf(),
                i <= blocks.len(),
                self@ == (EditorModel { blocks: loaded_map(blocks@.take(i as int)), ..old(self)@ }),
            decreases blocks.len() - i,
        {
            let b = &blocks[i];
            let st = BlockState {
                id: b.id.clone(),
                parent_id: None,
                previous_sibling_id: None,
                markdown: b.plain_text.clone(),
                block_type: b.block_type.duplicate(),
            };
            self.upsert_block(st);
            proof {
                assert(blocks@.take(i + 1).drop_last() =~= blocks@.take(i as int));
            }
            i = i + 1;
        }
        assert(blocks@.take(blocks.len() as int) =~= blocks@);
        self.node_order = copy_strings(node_order);
    }

    /// Takes in a document read from `file_path`: its blocks (each block's
    /// Markdown is its raw text) and order, the path and the path's hash; the
    /// document starts clean.
    pub fn open_document(&mut self, blocks: &Vec<BlockData>, node_order: &Vec<String>, file_path: &str)
        requires
            old(self).wf(),
        ensures
            final(self).wf(),
            final(self)@ == (EditorModel {
                blocks: loaded_map(blocks@),
                node_order: strings_view(node_order@),
                current_file_path: Some(file_path@),
                file_path_hash: Some(hex_fixed(fnv1a(encode_utf8(file_path@)) as nat, 16)),
                is_dirty: false,
                ..old(self)@
            }),
    {
        self.replace_blocks(blocks, node_order);
        self.current_file_path = Some(String::from_str(file_path));
        self.file_path_hash = Some(Self::hash_path(file_path));
        self.is_dirty = false;
    }

    /// Records an undo point before a version is restored, with the caret at
    /// the start of the first block (an empty id when there is none).
    pub fn mark_restore_point(&mut self)
        requires
            old(self).wf(),
        ensures
            final(self).wf(),
            final(self)@ == with_undo_point(
                old(self)@,
                if old(self)@.node_order.len() > 0 {
                    old(self)@.node_order[0]
                } else {
                    Seq::empty()
                },
                0,
            ),
    {
        let first: String = if self.node_order.len() > 0 {
            self.node_order[0].clone()
        } else {
            String::new()
        };
        self.push_undo_snapshot(first.as_str(), 0);
    }

    /// Replaces the document with a restored version (each block's Markdown
    /// is its raw text), marks it dirty, and answers with the restored blocks
    /// in order and the caret at the start of the first block.
    pub fn restore_document(&mut self, seq: u64, blocks: Vec<BlockData>, node_order: Vec<String>) -> (res: HistoryResponse)
        requires
            old(self).wf(),
        ensures
            final(self).wf(),
            final(self)@ == (EditorModel {
                blocks: loaded_map(blocks@),
                node_order: strings_view(node_order@),
                is_dirty: true,
                ..old(self)@
            }),
            res.seq == seq,
            restored_list(res.restored_blocks@) == loaded_list(blocks@),
            strings_view(res.node_order@) == strings_view(node_order@),
            res.caret.target_node_id@ == (if node_order@.len() > 0 {
                node_order@[0]@
            } else {
                Seq::empty()
            }),
            res.caret.offset == 0,
    {
        self.replace_blocks(&blocks, &node_order);
        self.is_dirty = true;
        let ghost all = blocks@;
        let mut restored: Vec<RestoredBlockData> = Vec::new();
        let mut rest = blocks;
        assert(all.skip(0) =~= all);
        assert(restored_list(restored@) =~= loaded_list(all.take(0)));
        while rest.len() > 0
            invariant
                rest@.len() <= all.len(),
                rest@ == all.skip(all.len() - rest@.len()),
                restored_list(restored@) == loaded_list(all.take(all.len() - rest@.len())),
            decreases rest.len(),
        {
            let ghost k = all.len() - rest@.len();
            let b = rest.remove(0);
            assert(b == all[k]);
            let r = RestoredBlockData {
                id: b.id,
                block_type: b.block_type,
                ast_content: b.ast_content,
                markdown: b.plain_text,
            };
            let ghost before = restored@;
            restored.push(r);
            proof {
                lemma_restored_list_push(before, r);
                assert(all.take(k + 1) =~= all.take(k).push(all[k]));
                lemma_loaded_list_push(all.take(k), all[k]);
            }
            assert(rest@ =~= all.skip(all.len() - rest@.len()));
        }
        assert(all.take(all.len() as int) =~= all);
        let first: String = if node_order.len() > 0 {
            node_order[0].clone()
        } else {
            String::new()
        };
        HistoryResponse {
            seq,
            restored_blocks: restored,
            node_order,
            caret: CaretPosition { target_node_id: first, offset: 0 },
        }
    }

    /// Starts a save. A clean document needs none (`Ok(None)`, nothing
    /// changes); without an open file the save fails with `No file opened`
    /// (nothing changes); otherwise the answer is the file path and the
    /// document's Markdown, and the document is clean from then on.
    pub fn prepare_save(&mut self) -> (r: Result<Option<(String, String)>, String>)
        requires
            old(self).wf(),
        ensures
            final(self).wf(),
            !old(self)@.is_dirty ==> (r matches Ok(None) && final(self)@ == old(self)@),
            old(self)@.is_dirty && old(self)@.current_file_path is None ==> (r matches Err(e) && e@
                == "No file opened"@ && final(self)@ == old(self)@),
            old(self)@.is_dirty && old(self)@.current_file_path is Some ==> (r matches Ok(Some(job))
                && {
                &&& job.0@ == old(self)@.current_file_path->0
                &&& job.1@ == document_text(old(self)@.blocks, old(self)@.node_order)
                &&& final(self)@ == (EditorModel { is_dirty: false, ..old(self)@ })
            }),
    {
        if !self.is_dirty {
            return Ok(None);
        }
        let path = match &self.current_file_path {
            Some(p) => p.clone(),
            None => {
                return Err(String::from_str("No file opened"));
            },
        };
        let md = self.document_markdown();
        self.is_dirty = false;
        Ok(Some((path, md)))
    }

    /// What an automatic save writes: nothing for a clean document or when no
    /// file is open; otherwise the document's Markdown and the hash that names
    /// the file's auto-save directory.
    pub fn auto_save_content(&self) -> (r: Option<(String, String)>)
        requires
            self.wf(),
        ensures
            !self@.is_dirty || self@.file_path_hash is None ==> r is None,
            self@.is_dirty && self@.file_path_hash is Some ==> (r matches Some(job) && {
                &&& job.0@ == document_text(self@.blocks, self@.node_order)
                &&& job.1@ == self@.file_path_hash->0
            }),
    {
        if !self.is_dirty {
            return None;
        }
        match &self.file_path_hash {
            Some(h) => Some((self.document_markdown(), h.clone())),
            None => None,
        }
    }

    /// Where the versions from `source` are kept: `"auto"` versions in the
    /// directory named by the path hash (an error when there is none), any
    /// other source beside the open file (an error when none is open).
    pub fn version_dir(&self, source: &str) -> (r: Result<VersionDir, String>)
        ensures
            source@ == "auto"@ ==> match self@.file_path_hash {
                Some(h) => r matches Ok(VersionDir::Auto(d)) && d@ == h,
                None => r matches Err(e) && e@ == "No file hash available"@,
            },
            source@ != "auto"@ ==> match self@.current_file_path {
                Some(p) => r matches Ok(VersionDir::Manual(d)) && d@ == p,
                None => r matches Err(e) && e@ == "No file opened"@,
            },
    {
        if str_is(source, "auto") {
            match &self.file_path_hash {
                Some(h) => Ok(VersionDir::Auto(h.clone())),
                None => Err(String::from_str("No file hash available")),
            }
        } else {
            match &self.current_file_path {
                Some(p) => Ok(VersionDir::Manual(p.clone())),
                None => Err(String::from_str("No file opened")),
            }
        }
    }

    /// The document as Markdown for saving: each block in the order, followed
    /// by a blank line.
    pub fn document_markdown(&self) -> (md: String)
        requires
            self.wf(),
        ensures
            md@ == document_text(self@.blocks, self@.node_order),
    {
        let ghost order = self@.node_order;
        let mut out: Vec<char> = Vec::new();
        let mut i: usize = 0;
        while i < self.node_order.len()
            invariant
                self.wf(),
                order == self@.node_order,
                i <= self.node_order.len(),
                out@ == document_text(self@.blocks, order.take(i as int)),
            decreases self.node_order.len() - i,
        {
            proof {
                assert(order.take(i + 1).drop_last() =~= order.take(i as int));
                assert(order.take(i + 1).last() == self.node_order@[i as int]@);
            }
            match find_block(&self.blocks, self.node_order[i].as_str()) {
                Some(j) => {
                    proof {
                        lemma_blocks_map_index(self.blocks@, j as int);
                    }
                    push_str(&mut out, self.blocks[j].markdown.as_str());
                    out.push('\n');
                    out.push('\n');
                },
                None => {},
            }
            i = i + 1;
        }
        assert(order.take(order.len() as int) =~= order);
        string_from_chars(&out)
    }
}


// ─── Laws ────────────────────────────────────────────────────────────────────

/// Undo followed by redo gives back the document, the undo history and the
/// redo history as they were; only the dirty flag and the sequence number
/// change.
pub proof fn law_undo_then_redo(m: EditorModel, s1: u64, s2: u64)
    requires
        m.undo.len() > 0,
    ensures
        redone(with_seq(undone(with_seq(m, s1)), s2)) == (EditorModel {
            last_seq: s2,
            is_dirty: true,
            ..m
        }),
{
    let u = undone(with_seq(m, s1));
    let r = redone(with_seq(u, s2));
    assert(r.redo =~= m.redo);
    assert(r.undo =~= m.undo);
}

/// Undo right after a change that recorded an undo point (moving a block,
/// formatting, syncing a new block: each records one, then changes the blocks
/// or the order) gives back the document as it was before the change, with
/// the caret saved with it; redo then gives back the changed document.
pub proof fn law_undo_reverts_recorded_change(
    m: EditorModel,
    caret: Seq<char>,
    offset: usize,
    blocks: Map<Seq<char>, BlockModel>,
    order: Seq<Seq<char>>,
    s1: u64,
    s2: u64,
)
    ensures
        ({
            let changed = EditorModel {
                blocks,
                node_order: order,
                is_dirty: true,
                ..with_undo_point(m, caret, offset)
            };
            let u = undone(with_seq(changed, s1));
            let r = redone(with_seq(u, s2));
            &&& changed.undo.len() > 0
            &&& u.blocks == m.blocks
            &&& u.node_order == m.node_order
            &&& changed.undo.last().caret_node_id == caret
            &&& changed.undo.last().caret_offset == offset
            &&& u.redo.len() > 0
            &&& r.blocks == blocks
            &&& r.node_order == order
        }),
{
}

/// Redo followed by undo gives back the document and both histories.
pub proof fn law_redo_then_undo(m: EditorModel, s1: u64, s2: u64)
    requires
        m.redo.len() > 0,
    ensures
        undone(with_seq(redone(with_seq(m, s1)), s2)) == (EditorModel {
            last_seq: s2,
            is_dirty: true,
            ..m
        }),
{
    let u = redone(with_seq(m, s1));
    let r = undone(with_seq(u, s2));
    assert(r.redo =~= m.redo);
    assert(r.undo =~= m.undo);
}

/// The undo and redo histories together hold at most 100 snapshots.
pub open spec fn history_bounded(m: EditorModel) -> bool {
    m.undo.len() + m.redo.len() <= undo_limit()
}

/// Every change of the editor keeps the history within its bound: recording
/// an undo point, syncing, moving, formatting, undo and redo.
pub proof fn law_history_stays_bounded(
    m: EditorModel,
    seq: u64,
    id: Seq<char>,
    text: Seq<char>,
    offset: usize,
)
    requires
        history_bounded(m),
    ensures
        history_bounded(with_seq(m, seq)),
        history_bounded(with_undo_point(m, id, offset)),
        history_bounded(synced(m, id, text, offset)),
        m.undo.len() > 0 ==> history_bounded(undone(m)),
        m.redo.len() > 0 ==> history_bounded(redone(m)),
{
}

/// An accepted request's sequence number becomes the last one, whatever the
/// operation does besides: recording an undo point, syncing, undo or redo.
pub proof fn law_accepted_seq_recorded(m: EditorModel, seq: u64, id: Seq<char>, text: Seq<char>, offset: usize)
    ensures
        with_seq(m, seq).last_seq == seq,
        synced(with_seq(m, seq), id, text, offset).last_seq == seq,
        with_undo_point(with_seq(m, seq), id, offset).last_seq == seq,
        with_seq(m, seq).undo.len() > 0 ==> undone(with_seq(m, seq)).last_seq == seq,
        with_seq(m, seq).redo.len() > 0 ==> redone(with_seq(m, seq)).last_seq == seq,
{
}

/// The block type is the source of truth: syncing content changes no block's
/// type, an existing block's Markdown becomes its type's prefix followed by
/// the content, and a block first seen in a sync is a paragraph.
pub proof fn law_sync_keeps_block_types(m: EditorModel, id: Seq<char>, inline: Seq<char>, caret: usize)
    ensures
        forall|k: Seq<char>|
            #[trigger] m.blocks.contains_key(k) ==> synced(m, id, inline, caret).blocks.contains_key(k)
                && synced(m, id, inline, caret).blocks[k].block_type == m.blocks[k].block_type,
        m.blocks.contains_key(id) ==> synced(m, id, inline, caret).blocks[id].markdown == type_prefix(
            m.blocks[id].block_type,
        ) + inline,
        !m.blocks.contains_key(id) ==> synced(m, id, inline, caret).blocks[id].block_type
            == BlockKind::Paragraph && synced(m, id, inline, caret).blocks[id].markdown == inline,
{
}

/// Each piece followed by a blank line, in order.
pub open spec fn with_blank_lines(pieces: Seq<Seq<char>>) -> Seq<char>
    decreases pieces.len(),
{
    if pieces.len() == 0 {
        Seq::empty()
    } else {
        pieces[0] + seq!['\n', '\n'] + with_blank_lines(pieces.skip(1))
    }
}

proof fn lemma_with_blank_lines_push(p: Seq<Seq<char>>, x: Seq<char>)
    ensures
        with_blank_lines(p.push(x)) == with_blank_lines(p) + x + seq!['\n', '\n'],
    decreases p.len(),
{
    if p.len() == 0 {
        assert(p.push(x).skip(1) =~= Seq::<Seq<char>>::empty());
        assert(with_blank_lines(Seq::<Seq<char>>::empty()) == Seq::<char>::empty());
        assert(p.push(x)[0] == x);
        assert(with_blank_lines(p.push(x)) =~= with_blank_lines(p) + x + seq!['\n', '\n']);
    } else {
        assert(p.push(x).skip(1) =~= p.skip(1).push(x));
        lemma_with_blank_lines_push(p.skip(1), x);
        assert(with_blank_lines(p.push(x)) =~= with_blank_lines(p) + x + seq!['\n', '\n']);
    }
}

/// With distinct ids, each loaded block is found under its id.
proof fn lemma_loaded_map_distinct(bs: Seq<BlockData>)
    requires
        forall|i: int, j: int| 0 <= i < bs.len() && 0 <= j < bs.len() && i != j ==> bs[i].id@ != bs[j].id@,
    ensures
        forall|i: int|
            0 <= i < bs.len() ==> loaded_map(bs).contains_key(#[trigger] bs[i].id@)
                && loaded_map(bs)[bs[i].id@] == loaded_block(bs[i]),
    decreases bs.len(),
{
    if bs.len() > 0 {
        let d = bs.drop_last();
        assert forall|i: int, j: int| 0 <= i < d.len() && 0 <= j < d.len() && i != j implies d[i].id@
            != d[j].id@ by {
            assert(d[i] == bs[i] && d[j] == bs[j]);
        }
        lemma_loaded_map_distinct(d);
        assert forall|i: int| 0 <= i < bs.len() implies loaded_map(bs).contains_key(#[trigger] bs[i].id@)
            && loaded_map(bs)[bs[i].id@] == loaded_block(bs[i]) by {
            if i < bs.len() - 1 {
                assert(d[i] == bs[i]);
                assert(bs[i].id@ != bs.last().id@);
            }
        }
    }
}

/// The saved text of blocks listed in `order`, whose Markdown is `texts`.
proof fn lemma_document_text_of(m: Map<Seq<char>, BlockModel>, order: Seq<Seq<char>>, texts: Seq<Seq<char>>)
    requires
        order.len() == texts.len(),
        forall|i: int| 0 <= i < order.len() ==> m.contains_key(#[trigger] order[i]) && m[order[i]].markdown == texts[i],
    ensures
        document_text(m, order) == with_blank_lines(texts),
    decreases order.len(),
{
    if order.len() > 0 {
        let o = order.drop_last();
        let t = texts.drop_last();
        assert forall|i: int| 0 <= i < o.len() implies m.contains_key(#[trigger] o[i]) && m[o[i]].markdown == t[i] by {
            assert(o[i] == order[i]);
        }
        lemma_document_text_of(m, o, t);
        lemma_with_blank_lines_push(t, texts.last());
        assert(t.push(texts.last()) =~= texts);
        assert(m.contains_key(order[order.len() - 1]));
    }
}

/// Joining the pieces between blank lines back together, each followed by a
/// blank line, gives the text followed by a blank line.
proof fn lemma_split_pieces_rejoin(s: Seq<char>)
    ensures
        with_blank_lines(split_pieces(s)) == s + seq!['\n', '\n'],
    decreases s.len(),
{
    if s.len() >= 2 && s[0] == '\n' && s[1] == '\n' {
        let r = split_pieces(s.skip(2));
        lemma_split_pieces_rejoin(s.skip(2));
        assert((seq![Seq::<char>::empty()] + r).skip(1) =~= r);
        assert(s =~= seq!['\n', '\n'] + s.skip(2));
        assert(with_blank_lines(split_pieces(s)) =~= s + seq!['\n', '\n']);
    } else if s.len() == 0 {
        assert(seq![Seq::<char>::empty()].skip(1) =~= Seq::<Seq<char>>::empty());
        assert(with_blank_lines(Seq::<Seq<char>>::empty()) == Seq::<char>::empty());
        assert(with_blank_lines(split_pieces(s)) =~= s + seq!['\n', '\n']);
    } else {
        let r = split_pieces(s.skip(1));
        lemma_split_pieces_nonempty(s.skip(1));
        lemma_split_pieces_rejoin(s.skip(1));
        let p = add_front(seq![s[0]], r);
        assert(p.skip(1) =~= r.skip(1));
        assert(with_blank_lines(p) == (seq![s[0]] + r[0]) + seq!['\n', '\n'] + with_blank_lines(r.skip(1)));
        assert(with_blank_lines(r) == r[0] + seq!['\n', '\n'] + with_blank_lines(r.skip(1)));
        assert(s =~= seq![s[0]] + s.skip(1));
        assert((seq![s[0]] + r[0]) + seq!['\n', '\n'] + with_blank_lines(r.skip(1)) =~= seq![s[0]]
            + with_blank_lines(r));
        assert(seq![s[0]] + (s.skip(1) + seq!['\n', '\n']) =~= s + seq!['\n', '\n']);
        assert(split_pieces(s) == p);
    }
}

proof fn lemma_nonblank_all(p: Seq<Seq<char>>)
    requires
        forall|i: int| 0 <= i < p.len() ==> trim(#[trigger] p[i]).len() > 0,
    ensures
        nonblank(p) == p,
    decreases p.len(),
{
    if p.len() > 0 {
        let d = p.drop_last();
        assert forall|i: int| 0 <= i < d.len() implies trim(#[trigger] d[i]).len() > 0 by {
            assert(d[i] == p[i]);
        }
        lemma_nonblank_all(d);
        assert(trim(p[p.len() - 1]).len() > 0);
        assert(d.push(p.last()) =~= p);
    }
}

/// Opening a document and saving it writes back each non-blank piece between
/// blank lines, in order, each followed by a blank line; a document none of
/// whose pieces is blank is written back as it was, followed by a blank line.
pub proof fn law_save_after_open(markdown: Seq<char>, blocks: Seq<BlockData>, order: Seq<String>)
    requires
        parsed_document(markdown, blocks, order),
    ensures
        document_text(loaded_map(blocks), strings_view(order)) == with_blank_lines(
            document_pieces(markdown),
        ),
        (forall|i: int|
            0 <= i < split_pieces(markdown).len() ==> trim(#[trigger] split_pieces(markdown)[i]).len()
                > 0) ==> document_text(loaded_map(blocks), strings_view(order)) == markdown + seq![
            '\n',
            '\n',
        ],
{
    law_parsed_ids_distinct(markdown, blocks, order);
    lemma_loaded_map_distinct(blocks);
    let m = loaded_map(blocks);
    let ids = strings_view(order);
    let pieces = document_pieces(markdown);
    assert forall|i: int| 0 <= i < ids.len() implies m.contains_key(#[trigger] ids[i]) && m[ids[i]].markdown
        == pieces[i] by {
        assert(ids[i] == blocks[i].id@);
        assert(block_content_matches(blocks[i], pieces[i]));
    }
    lemma_document_text_of(m, ids, pieces);
    if forall|i: int|
        0 <= i < split_pieces(markdown).len() ==> trim(#[trigger] split_pieces(markdown)[i]).len() > 0 {
        lemma_nonblank_all(split_pieces(markdown));
        lemma_split_pieces_rejoin(markdown);
    }
}

pub proof fn lemma_hex_fixed_shape(h: nat, n: nat)
    ensures
        hex_fixed(h, n).len() == n,
        forall|i: int| 0 <= i < n ==> is_lower_hex(#[trigger] hex_fixed(h, n)[i]),
    decreases n,
{
    if n > 0 {
        lemma_hex_fixed_shape(h / 16, (n - 1) as nat);
    }
}

pub open spec fn is_lower_hex(c: char) -> bool {
    ('0' <= c <= '9') || ('a' <= c <= 'f')
}

/// The sequence without the first occurrence of `x`, if there is one.
pub open spec fn without_first(s: Seq<Seq<char>>, x: Seq<char>) -> Seq<Seq<char>> {
    match first_index(s, x) {
        Some(i) => s.remove(i),
        None => s,
    }
}

/// The first occurrence of an element that occurs.
pub proof fn lemma_first_index(s: Seq<Seq<char>>, x: Seq<char>)
    requires
        s.contains(x),
    ensures
        first_index(s, x) matches Some(j) && 0 <= j < s.len() && s[j] == x && forall|k: int|
            0 <= k < j ==> s[k] != x,
    decreases s.len(),
{
    let d = s.drop_last();
    if d.contains(x) {
        lemma_first_index(d, x);
        let j = first_index(d, x)->0;
        assert(s[j] == x && forall|k: int| 0 <= k < j ==> s[k] != x) by {
            assert forall|k: int| 0 <= k < j implies s[k] != x by {
                assert(s[k] == d[k]);
            }
        }
    } else {
        let j = s.len() - 1;
        assert(s[j] == x) by {
            let i = choose|i: int| 0 <= i < s.len() && s[i] == x;
            if i < j {
                assert(d[i] == x);
            }
        }
        assert forall|k: int| 0 <= k < j implies s[k] != x by {
            if s[k] == x {
                assert(d[k] == x);
            }
        }
    }
}

/// Moving a block: when the previous sibling is in the order and is not the
/// moved block itself, the moved id ends up right after that sibling;
/// without a previous sibling, or with one not in the order, it ends up
/// first. Either way, taking the moved id out again gives the old order with
/// the id's first occurrence taken out: all other ids keep their order.
pub proof fn law_move_block_places_after_sibling(
    order: Seq<Seq<char>>,
    id: Seq<char>,
    prev: Option<Seq<char>>,
)
    ensures
        (prev matches Some(p) && p != id && order.contains(p)) ==> exists|k: int|
            0 <= k && k + 1 < moved_order(order, id, prev).len() && moved_order(order, id, prev)[k]
                == prev->0 && #[trigger] moved_order(order, id, prev)[k + 1] == id && moved_order(
                order,
                id,
                prev,
            ).remove(k + 1) == without_first(order, id),
        (prev is None || !order.contains(prev->0)) ==> moved_order(order, id, prev) == seq![id]
            + without_first(order, id),
{
    let removed = without_first(order, id);
    let r = moved_order(order, id, prev);
    if order.contains(id) {
        lemma_first_index(order, id);
    }
    if prev is None || !order.contains(prev->0) {
        if let Some(p) = prev {
            if removed.contains(p) {
                let i = choose|i: int| 0 <= i < removed.len() && removed[i] == p;
                if let Some(f) = first_index(order, id) {
                    if i < f {
                        assert(order[i] == p);
                    } else {
                        assert(order[i + 1] == p);
                    }
                } else {
                    assert(order[i] == p);
                }
            }
            assert(first_index(removed, p) is None);
        }
        assert(r =~= seq![id] + removed);
    }
    if let Some(p) = prev {
        if p != id && order.contains(p) {
            let i = choose|i: int| 0 <= i < order.len() && order[i] == p;
            match first_index(order, id) {
                Some(f) => {
                    assert(f != i);
                    if i < f {
                        assert(removed[i] == p);
                    } else {
                        assert(removed[i - 1] == p);
                    }
                },
                None => {
                    assert(removed[i] == p);
                },
            }
            lemma_first_index(removed, p);
            let j = first_index(removed, p)->0;
            assert(r == removed.insert(j + 1, id));
            assert(r[j] == p);
            assert(r[j + 1] == id);
            assert(r.remove(j + 1) =~= removed);
        }
    }
}

/// A heading's prefix is exactly as many `#` as its level and one space, so
/// a heading block of level 1 to 6 whose content is synced is still read as
/// a heading of the same level.
pub proof fn law_heading_prefix(level: u8, inline: Seq<char>)
    ensures
        type_prefix(BlockKind::Heading { level }).len() == level + 1,
        forall|i: int| 0 <= i < level ==> type_prefix(BlockKind::Heading { level })[i] == '#',
        type_prefix(BlockKind::Heading { level })[level as int] == ' ',
        1 <= level <= 6 ==> spec_derive_block_type(type_prefix(BlockKind::Heading { level }) + inline)
            == (BlockKind::Heading { level }),
{
    if 1 <= level <= 6 {
        law_heading_classified(level as int, inline);
    }
}

/// A list that is not ordered gets the prefix `- `, so a synced unordered
/// list block is still read as an unordered list.
pub proof fn law_unordered_list_prefix(list_type: Seq<char>, indent: u32, parent: Option<Seq<char>>, inline: Seq<char>)
    requires
        list_type != "ordered"@,
    ensures
        type_prefix(BlockKind::List { list_type, indent_level: indent, parent_list_id: parent })
            == seq!['-', ' '],
        spec_derive_block_type(
            type_prefix(BlockKind::List { list_type, indent_level: indent, parent_list_id: parent })
                + inline,
        ) == (BlockKind::List { list_type: "unordered"@, indent_level: 0, parent_list_id: None }),
{
    law_dash_is_list(inline);
}

/// Undo and redo answer with each restored block's Markdown exactly as the
/// restored document stores it, and only with blocks that it holds.
pub proof fn law_restored_markdown(blocks: Map<Seq<char>, BlockModel>, order: Seq<Seq<char>>)
    ensures
        forall|k: int|
            0 <= k < restored_of(blocks, order).len() ==> blocks.contains_key(
                #[trigger] restored_of(blocks, order)[k].id,
            ) && restored_of(blocks, order)[k].markdown == blocks[restored_of(
                blocks,
                order,
            )[k].id].markdown,
    decreases order.len(),
{
    if order.len() > 0 {
        law_restored_markdown(blocks, order.drop_last());
    }
}

/// A path hash is always 16 lower-case hexadecimal digits.
pub proof fn law_hash_path_shape(path: Seq<char>)
    ensures
        hex_fixed(fnv1a(encode_utf8(path)) as nat, 16).len() == 16,
        forall|i: int|
            0 <= i < 16 ==> is_lower_hex(
                #[trigger] hex_fixed(fnv1a(encode_utf8(path)) as nat, 16)[i],
            ),
{
    lemma_hex_fixed_shape(fnv1a(encode_utf8(path)) as nat, 16);
}

} // verus!
