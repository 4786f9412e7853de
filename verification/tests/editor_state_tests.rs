use fastmm::ast::{
    BlockMoveRequest, BlockSyncRequest, BlockType, FormatRequest, HistoryRequest,
    InlineDecorationNode, ResponseAction,
};
use fastmm::editor_state::EditorState;
use fastmm::version_files::VersionDir;

fn text(key: &str, t: &str) -> InlineDecorationNode {
    InlineDecorationNode::Text { key: key.into(), text: t.into() }
}

fn sync(state: &mut EditorState, seq: u64, id: &str, nodes: Vec<InlineDecorationNode>) -> bool {
    state
        .process_sync_request(BlockSyncRequest {
            seq,
            node_id: id.into(),
            plain_text: String::new(),
            decorations: nodes,
            caret_offset: 0,
        })
        .is_some()
}

fn markdown_of(state: &EditorState, id: &str) -> String {
    state.blocks.iter().find(|b| b.id == id).map(|b| b.markdown.clone()).unwrap()
}

#[test]
fn test_stale_request_rejected() {
    let mut state = EditorState::new();

    let req1 = BlockSyncRequest {
        seq: 10,
        node_id: "block1".into(),
        plain_text: "test".into(),
        decorations: vec![InlineDecorationNode::Text { key: "k1".into(), text: "test".into() }],
        caret_offset: 4,
    };

    let resp1 = state.process_sync_request(req1).unwrap();
    assert_eq!(resp1.seq, 10);
    assert_eq!(state.last_seq, 10);

    let req2 = BlockSyncRequest {
        seq: 5,
        node_id: "block1".into(),
        plain_text: "stale".into(),
        decorations: vec![],
        caret_offset: 0,
    };
    assert!(state.process_sync_request(req2).is_none());
}

#[test]
fn test_ast_to_markdown() {
    let ast = vec![
        InlineDecorationNode::Text { key: "k1".into(), text: "Hello ".into() },
        InlineDecorationNode::Bold {
            key: "k2".into(),
            children: vec![InlineDecorationNode::Italic {
                key: "k3".into(),
                children: vec![InlineDecorationNode::Text { key: "k4".into(), text: "world".into() }],
            }],
        },
    ];

    let md = EditorState::ast_to_markdown(&ast);
    assert_eq!(md, "Hello ***world***");
}

#[test]
fn test_hash_path() {
    let path1 = "/user/documents/test.md";
    let path2 = "/user/documents/test.md";
    let path3 = "/user/documents/other.md";

    let hash1 = EditorState::hash_path(path1);
    let hash2 = EditorState::hash_path(path2);
    let hash3 = EditorState::hash_path(path3);

    assert_eq!(hash1, hash2);
    assert_ne!(hash1, hash3);
    assert_eq!(hash1.len(), 16);
}

#[test]
fn test_push_undo_snapshot_limit() {
    let mut state = EditorState::new();
    for i in 0..105 {
        state.push_undo_snapshot(&format!("block_{}", i), i);
    }
    assert_eq!(state.undo_stack.len(), 100);
    assert_eq!(state.undo_stack[0].caret_node_id, "block_5");
}

// ── Further cases ────────────────────────────────────────────────────────────

#[test]
fn hash_path_known_values() {
    // FNV-1a 64 of the empty input is its offset basis; of "a" a known value.
    assert_eq!(EditorState::hash_path(""), "cbf29ce484222325");
    assert_eq!(EditorState::hash_path("a"), "af63dc4c8601ec8c");
}

#[test]
fn ast_to_markdown_code_and_link() {
    let ast = vec![
        InlineDecorationNode::Code { key: "a".into(), children: vec![text("b", "x")] },
        InlineDecorationNode::Link {
            key: "c".into(),
            href: "https://e.org".into(),
            children: vec![text("d", "e")],
        },
    ];
    assert_eq!(EditorState::ast_to_markdown(&ast), "`x`[e](https://e.org)");
}

#[test]
fn sync_creates_then_updates_with_prefix() {
    let mut state = EditorState::new();
    assert!(sync(&mut state, 1, "b1", vec![text("k", "hello")]));
    assert_eq!(markdown_of(&state, "b1"), "hello");
    assert_eq!(state.undo_stack.len(), 1);
    assert!(state.is_dirty);
    // A heading block keeps its type and gets its prefix back.
    state.blocks[0].block_type = BlockType::Heading { level: 2 };
    assert!(sync(&mut state, 2, "b1", vec![text("k", "title")]));
    assert_eq!(markdown_of(&state, "b1"), "## title");
    // Updating an existing block records no undo point.
    assert_eq!(state.undo_stack.len(), 1);
    state.blocks[0].block_type = BlockType::BlockQuote;
    assert!(sync(&mut state, 3, "b1", vec![text("k", "q")]));
    assert_eq!(markdown_of(&state, "b1"), "> q");
    assert!(!sync(&mut state, 3, "b1", vec![text("k", "again")]));
    assert_eq!(markdown_of(&state, "b1"), "> q");
}

#[test]
fn sync_response_echoes_request() {
    let mut state = EditorState::new();
    let r = state
        .process_sync_request(BlockSyncRequest {
            seq: 7,
            node_id: "n".into(),
            plain_text: String::new(),
            decorations: vec![],
            caret_offset: 3,
        })
        .unwrap();
    assert_eq!(r.node_id, "n");
    assert_eq!(r.caret.target_node_id, "n");
    assert_eq!(r.caret.offset, 3);
    match r.action {
        ResponseAction::UpdateProperties { patches } => assert!(patches.is_empty()),
        _ => panic!("expected update"),
    }
}

fn mv(state: &mut EditorState, seq: u64, id: &str, prev: Option<&str>) -> Vec<String> {
    state
        .move_block(BlockMoveRequest {
            seq,
            node_id: id.into(),
            target_parent_id: None,
            target_previous_sibling_id: prev.map(|p| p.to_string()),
        })
        .unwrap()
        .new_node_order
}

#[test]
fn move_block_reorders() {
    let mut state = EditorState::new();
    state.node_order = vec!["a".into(), "b".into(), "c".into()];
    assert_eq!(mv(&mut state, 1, "a", Some("c")), vec!["b", "c", "a"]);
    assert_eq!(mv(&mut state, 2, "a", None), vec!["a", "b", "c"]);
    assert_eq!(mv(&mut state, 3, "c", Some("zzz")), vec!["c", "a", "b"]);
    // An id not yet in the order is added.
    assert_eq!(mv(&mut state, 4, "d", Some("a")), vec!["c", "a", "d", "b"]);
    assert_eq!(state.undo_stack.len(), 4);
    assert!(state
        .move_block(BlockMoveRequest {
            seq: 4,
            node_id: "a".into(),
            target_parent_id: None,
            target_previous_sibling_id: None,
        })
        .is_none());
}

fn fmt(state: &mut EditorState, seq: u64, id: &str, action: &str, s: usize, e: usize, meta: Option<&str>) -> Option<fastmm::ast::FormatResponse> {
    state.apply_format(FormatRequest {
        seq,
        node_id: id.into(),
        action_type: action.into(),
        selection_start: s,
        selection_end: e,
        meta_value: meta.map(|m| m.to_string()),
    })
}

#[test]
fn apply_format_updates_block_and_type() {
    let mut state = EditorState::new();
    assert!(sync(&mut state, 1, "b", vec![text("k", "Title")]));
    let r = fmt(&mut state, 2, "b", "heading", 0, 5, Some("2")).unwrap();
    assert_eq!(markdown_of(&state, "b"), "## Title");
    assert!(matches!(r.block_type, BlockType::Heading { level: 2 }));
    assert_eq!(r.caret.offset, 8);
    assert_eq!(r.ast_content.len(), 1);
    let r = fmt(&mut state, 3, "b", "bold", 3, 8, None).unwrap();
    assert_eq!(markdown_of(&state, "b"), "## **Title**");
    assert_eq!(r.caret.offset, 10);
    // Unknown block: no response, but the request was taken.
    assert!(fmt(&mut state, 4, "zz", "bold", 0, 0, None).is_none());
    assert_eq!(state.last_seq, 4);
    assert!(fmt(&mut state, 4, "b", "bold", 0, 0, None).is_none());
}

fn hist(state: &mut EditorState, seq: u64, kind: &str) -> Option<fastmm::ast::HistoryResponse> {
    state.trigger_history(HistoryRequest { seq, history_type: kind.into() })
}

#[test]
fn undo_then_redo_restores() {
    let mut state = EditorState::new();
    state.node_order = vec!["b".into()];
    assert!(sync(&mut state, 1, "b", vec![text("k", "one")]));
    let r = fmt(&mut state, 2, "b", "list", 0, 3, None).unwrap();
    assert_eq!(r.caret.offset, 5);
    assert_eq!(markdown_of(&state, "b"), "- one");

    let u = hist(&mut state, 3, "undo").unwrap();
    assert_eq!(markdown_of(&state, "b"), "one");
    assert_eq!(u.restored_blocks.len(), 1);
    assert_eq!(u.restored_blocks[0].markdown, "one");
    assert_eq!(u.caret.target_node_id, "b");
    assert_eq!(u.caret.offset, 0);
    assert_eq!(state.redo_stack.len(), 1);

    let r = hist(&mut state, 4, "redo").unwrap();
    assert_eq!(markdown_of(&state, "b"), "- one");
    assert!(matches!(r.restored_blocks[0].block_type, BlockType::List { .. }));
    assert_eq!(state.undo_stack.len(), 2);
    assert_eq!(state.redo_stack.len(), 0);

    assert!(hist(&mut state, 5, "redo").is_none());
    assert!(hist(&mut state, 6, "sideways").is_none());
    assert!(hist(&mut state, 6, "undo").is_none());
}

#[test]
fn open_restore_and_save_text() {
    let mut state = EditorState::new();
    let (blocks, order) = fastmm::ast::parse_document_to_blocks("# T\n\nbody");
    state.open_document(&blocks, &order, "/tmp/doc.md");
    assert!(!state.is_dirty);
    assert_eq!(state.current_file_path.as_deref(), Some("/tmp/doc.md"));
    assert_eq!(state.file_path_hash, Some(EditorState::hash_path("/tmp/doc.md")));
    assert_eq!(state.document_markdown(), "# T\n\nbody\n\n");

    state.mark_restore_point();
    assert_eq!(state.undo_stack.len(), 1);
    assert_eq!(state.undo_stack[0].caret_node_id, order[0]);
    let (blocks2, order2) = fastmm::ast::parse_document_to_blocks("x\n\ny\n\nz");
    let resp = state.restore_document(9, blocks2, order2.clone());
    assert!(state.is_dirty);
    assert_eq!(resp.seq, 9);
    assert_eq!(resp.restored_blocks.len(), 3);
    assert_eq!(resp.restored_blocks[2].markdown, "z");
    assert_eq!(resp.caret.target_node_id, order2[0]);
    assert_eq!(state.document_markdown(), "x\n\ny\n\nz\n\n");
}

#[test]
fn save_needs_changes_and_a_file() {
    let mut state = EditorState::new();
    assert_eq!(state.prepare_save(), Ok(None));
    assert_eq!(state.auto_save_content(), None);

    assert!(sync(&mut state, 1, "a", vec![text("k", "hello")]));
    assert_eq!(state.prepare_save(), Err("No file opened".to_string()));
    assert!(state.is_dirty);
    assert_eq!(state.auto_save_content(), None);

    let (blocks, order) = fastmm::ast::parse_document_to_blocks("# T\n\n\n\n- item");
    state.open_document(&blocks, &order, "/tmp/doc.md");
    assert_eq!(state.prepare_save(), Ok(None));
    assert!(sync(&mut state, 2, &order[0], vec![text("k", "Title")]));
    let hash = EditorState::hash_path("/tmp/doc.md");
    assert_eq!(
        state.auto_save_content(),
        Some(("# Title\n\n- item\n\n".to_string(), hash))
    );
    assert_eq!(
        state.prepare_save(),
        Ok(Some(("/tmp/doc.md".to_string(), "# Title\n\n- item\n\n".to_string())))
    );
    assert!(!state.is_dirty);
    assert_eq!(state.prepare_save(), Ok(None));
}

#[test]
fn open_then_save_gives_the_document_back() {
    let doc = "# Heading\n\nHello **bold** world\n\n- List item\n\n```mermaid\ngraph\n```";
    let mut state = EditorState::new();
    let (blocks, order) = fastmm::ast::parse_document_to_blocks(doc);
    state.open_document(&blocks, &order, "notes.md");
    assert_eq!(state.document_markdown(), format!("{}\n\n", doc));

    let (blocks, order) = fastmm::ast::parse_document_to_blocks("a\n\n  \n\nb");
    state.open_document(&blocks, &order, "notes.md");
    assert_eq!(state.document_markdown(), "a\n\nb\n\n");
}

#[test]
fn sync_keeps_the_block_type() {
    let mut state = EditorState::new();
    let (blocks, order) = fastmm::ast::parse_document_to_blocks("## Old\n\n* item\n\n> quote");
    state.open_document(&blocks, &order, "q.md");
    assert!(sync(&mut state, 1, &order[0], vec![text("k", "New")]));
    assert!(sync(&mut state, 2, &order[1], vec![text("k", "entry")]));
    assert!(sync(&mut state, 3, &order[2], vec![text("k", "said")]));
    assert_eq!(markdown_of(&state, &order[0]), "## New");
    assert_eq!(markdown_of(&state, &order[1]), "- entry");
    // `>` is not read as a block quote, so that block is a paragraph.
    assert_eq!(markdown_of(&state, &order[2]), "said");
    let b = state.blocks.iter().find(|b| b.id == order[0]).unwrap();
    assert!(matches!(b.block_type, BlockType::Heading { level: 2 }));
}

#[test]
fn version_directories_by_source() {
    let mut state = EditorState::new();
    assert_eq!(state.version_dir("auto"), Err("No file hash available".to_string()));
    assert_eq!(state.version_dir("manual"), Err("No file opened".to_string()));
    let (blocks, order) = fastmm::ast::parse_document_to_blocks("x");
    state.open_document(&blocks, &order, "/home/u/doc.md");
    assert_eq!(
        state.version_dir("auto"),
        Ok(VersionDir::Auto(EditorState::hash_path("/home/u/doc.md")))
    );
    assert_eq!(state.version_dir("manual"), Ok(VersionDir::Manual("/home/u/doc.md".to_string())));
}

#[test]
fn default_is_the_empty_editor() {
    let s = EditorState::default();
    assert!(s.blocks.is_empty() && s.node_order.is_empty());
    assert_eq!(s.last_seq, 0);
    assert!(!s.is_dirty);
    assert!(s.current_file_path.is_none() && s.file_path_hash.is_none());
    assert!(s.undo_stack.is_empty() && s.redo_stack.is_empty());
}

#[test]
fn undo_reverts_a_move_and_redo_repeats_it() {
    let mut state = EditorState::new();
    state.node_order = vec!["a".into(), "b".into(), "c".into()];
    assert_eq!(mv(&mut state, 1, "c", None), vec!["c", "a", "b"]);
    let r = hist(&mut state, 2, "undo").unwrap();
    assert_eq!(r.node_order, vec!["a", "b", "c"]);
    assert_eq!(r.caret.target_node_id, "c");
    assert_eq!(r.caret.offset, 0);
    let r = hist(&mut state, 3, "redo").unwrap();
    assert_eq!(r.node_order, vec!["c", "a", "b"]);
}

#[test]
fn stale_format_request_is_refused_whatever_it_asks() {
    let mut state = EditorState::new();
    assert!(sync(&mut state, 5, "j", vec![text("k", "日本語")]));
    let req = FormatRequest {
        seq: 3,
        node_id: "j".into(),
        action_type: "bold".into(),
        selection_start: 1,
        selection_end: 2,
        meta_value: None,
    };
    assert!(state.format_request_defined(&req));
    let undo_len = state.undo_stack.len();
    assert!(state.apply_format(req).is_none());
    assert_eq!(state.last_seq, 5);
    assert_eq!(state.undo_stack.len(), undo_len);
    assert_eq!(markdown_of(&state, "j"), "日本語");
    let newer = FormatRequest {
        seq: 6,
        node_id: "j".into(),
        action_type: "bold".into(),
        selection_start: 1,
        selection_end: 2,
        meta_value: None,
    };
    // Newer, the selection is taken by characters.
    assert!(state.format_request_defined(&newer));
    let r = state.apply_format(newer).unwrap();
    assert_eq!(markdown_of(&state, "j"), "日**本**語");
    assert_eq!(r.caret.offset, 4);
}

fn bold(key: &str, children: Vec<InlineDecorationNode>) -> InlineDecorationNode {
    InlineDecorationNode::Bold { key: key.into(), children }
}

#[test]
fn ast_to_markdown_concatenates_and_ignores_keys() {
    assert_eq!(EditorState::ast_to_markdown(&[]), "");
    let a = vec![text("k1", "Hi "), bold("k2", vec![text("k3", "you")])];
    let b = vec![InlineDecorationNode::Link {
        key: "k4".into(),
        href: "u".into(),
        children: vec![text("k5", "x")],
    }];
    let mut ab = a.clone();
    ab.extend(b.clone());
    assert_eq!(
        EditorState::ast_to_markdown(&ab),
        EditorState::ast_to_markdown(&a) + &EditorState::ast_to_markdown(&b)
    );
    assert_eq!(EditorState::ast_to_markdown(&ab), "Hi **you**[x](u)");
    let rekeyed = vec![text("z9", "Hi "), bold("z8", vec![text("z7", "you")])];
    assert_eq!(EditorState::ast_to_markdown(&rekeyed), EditorState::ast_to_markdown(&a));
}

#[test]
fn cloned_tree_is_the_same_tree() {
    let t = vec![bold("k1", vec![text("k2", "a"), bold("k3", vec![])]), text("k4", "b")];
    let c = t.clone();
    assert_eq!(format!("{:?}", c), format!("{:?}", t));
    let n = t[0].clone();
    assert_eq!(format!("{:?}", n), format!("{:?}", t[0]));
}
