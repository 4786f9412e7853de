use fastmm::ast::{
    apply_inline_decoration, byte_index_to_utf16_offset, derive_block_type,
    parse_document_to_blocks, parse_markdown_to_decorations, utf16_offset_to_byte_index,
    BlockType, InlineDecorationNode,
};

fn round_trip(text: &str, utf16: u32) -> u32 {
    let byte = utf16_offset_to_byte_index(text, utf16).expect("valid utf16 offset");
    byte_index_to_utf16_offset(text, byte).expect("valid byte index")
}

#[test]
fn ascii_offsets() {
    let s = "Hello, world!";
    for i in 0..=(s.len() as u32) {
        assert_eq!(round_trip(s, i), i);
    }
}

#[test]
fn two_byte_utf8_chars() {
    let s = "日本語";
    assert_eq!(utf16_offset_to_byte_index(s, 0), Some(0));
    assert_eq!(utf16_offset_to_byte_index(s, 1), Some(3));
    assert_eq!(utf16_offset_to_byte_index(s, 2), Some(6));
    assert_eq!(utf16_offset_to_byte_index(s, 3), Some(9));
    assert_eq!(utf16_offset_to_byte_index(s, 4), None);
}

#[test]
fn supplementary_plane_chars() {
    let s = "\u{1F600}A";
    assert_eq!(utf16_offset_to_byte_index(s, 0), Some(0));
    assert_eq!(utf16_offset_to_byte_index(s, 1), None);
    assert_eq!(utf16_offset_to_byte_index(s, 2), Some(4));
    assert_eq!(utf16_offset_to_byte_index(s, 3), Some(5));
}

#[test]
fn byte_index_to_utf16_basic() {
    let s = "\u{1F600}AB";
    assert_eq!(byte_index_to_utf16_offset(s, 0), Some(0));
    assert_eq!(byte_index_to_utf16_offset(s, 4), Some(2));
    assert_eq!(byte_index_to_utf16_offset(s, 5), Some(3));
    assert_eq!(byte_index_to_utf16_offset(s, 6), Some(4));
}

#[test]
fn byte_index_not_on_boundary_returns_none() {
    let s = "日";
    assert_eq!(byte_index_to_utf16_offset(s, 1), None);
    assert_eq!(byte_index_to_utf16_offset(s, 2), None);
}

#[test]
fn empty_string() {
    let s = "";
    assert_eq!(utf16_offset_to_byte_index(s, 0), Some(0));
    assert_eq!(utf16_offset_to_byte_index(s, 1), None);
    assert_eq!(byte_index_to_utf16_offset(s, 0), Some(0));
}

#[test]
fn mixed_ascii_and_multibyte() {
    let s = "A日B";
    assert_eq!(utf16_offset_to_byte_index(s, 0), Some(0));
    assert_eq!(utf16_offset_to_byte_index(s, 1), Some(1));
    assert_eq!(utf16_offset_to_byte_index(s, 2), Some(4));
    assert_eq!(utf16_offset_to_byte_index(s, 3), Some(5));

    assert_eq!(byte_index_to_utf16_offset(s, 0), Some(0));
    assert_eq!(byte_index_to_utf16_offset(s, 1), Some(1));
    assert_eq!(byte_index_to_utf16_offset(s, 4), Some(2));
    assert_eq!(byte_index_to_utf16_offset(s, 5), Some(3));
}

#[test]
fn parse_basic_text() {
    let decs = parse_markdown_to_decorations("Hello, world!");
    assert_eq!(decs.len(), 1);
    match &decs[0] {
        InlineDecorationNode::Text { text, .. } => assert_eq!(text, "Hello, world!"),
        _ => panic!("Expected text"),
    }
}

#[test]
fn parse_nested_decorations() {
    let decs = parse_markdown_to_decorations("Hello **bold *italic*** world");
    assert_eq!(decs.len(), 3);

    match &decs[1] {
        InlineDecorationNode::Bold { children, .. } => {
            assert_eq!(children.len(), 2);
            match &children[1] {
                InlineDecorationNode::Italic { children: inner, .. } => {
                    assert_eq!(inner.len(), 1);
                    match &inner[0] {
                        InlineDecorationNode::Text { text, .. } => assert_eq!(text, "italic"),
                        _ => panic!("Expected text"),
                    }
                }
                _ => panic!("Expected italic"),
            }
        }
        _ => panic!("Expected bold"),
    }
}

#[test]
fn parse_link() {
    let decs = parse_markdown_to_decorations("Click [here](https://example.com)!");
    assert_eq!(decs.len(), 3);
    match &decs[1] {
        InlineDecorationNode::Link { href, children, .. } => {
            assert_eq!(href, "https://example.com");
            assert_eq!(children.len(), 1);
        }
        _ => panic!("Expected link"),
    }
}

// ── Further cases ────────────────────────────────────────────────────────────

#[test]
fn offsets_past_u32_truncate_like_the_selection() {
    // The selection offsets are taken as 32-bit offsets.
    let (out, caret) = apply_inline_decoration("ab", "italic", 0, (1usize << 32) + 1, None);
    assert_eq!(out, "*a*b");
    assert_eq!(caret, (1usize << 32) + 2);
}

#[test]
fn keys_are_sequential_in_creation_order() {
    let decs = parse_markdown_to_decorations("a `c` **b**");
    assert_eq!(decs.len(), 4);
    match &decs[0] {
        InlineDecorationNode::Text { key, text } => {
            assert_eq!(key, "k0");
            assert_eq!(text, "a ");
        }
        _ => panic!("Expected text"),
    }
    match &decs[1] {
        InlineDecorationNode::Code { key, children } => {
            assert_eq!(key, "k1");
            match &children[0] {
                InlineDecorationNode::Text { key, text } => {
                    assert_eq!(key, "k2");
                    assert_eq!(text, "c");
                }
                _ => panic!("Expected text"),
            }
        }
        _ => panic!("Expected code"),
    }
    match &decs[3] {
        InlineDecorationNode::Bold { key, children } => {
            // The text inside is created before the bold node closes.
            assert_eq!(key, "k5");
            assert_eq!(children.len(), 1);
        }
        _ => panic!("Expected bold"),
    }
}

#[test]
fn soft_break_becomes_newline_text() {
    let decs = parse_markdown_to_decorations("a\nb");
    assert_eq!(decs.len(), 3);
    match &decs[1] {
        InlineDecorationNode::Text { text, .. } => assert_eq!(text, "\n"),
        _ => panic!("Expected newline"),
    }
}

#[test]
fn bold_wraps_and_unwraps() {
    let (out, caret) = apply_inline_decoration("hello world", "bold", 0, 5, None);
    assert_eq!(out, "**hello** world");
    assert_eq!(caret, 7);
    let (back, caret2) = apply_inline_decoration(&out, "bold", 2, 7, None);
    assert_eq!(back, "hello world");
    assert_eq!(caret2, 5);
}

#[test]
fn italic_code_link_list() {
    assert_eq!(apply_inline_decoration("abc", "italic", 1, 2, None), ("a*b*c".to_string(), 3));
    assert_eq!(apply_inline_decoration("abc", "code", 0, 3, None), ("`abc`".to_string(), 4));
    assert_eq!(
        apply_inline_decoration("see here", "link", 4, 8, Some("https://x.org")),
        ("see [here](https://x.org)".to_string(), 8)
    );
    assert_eq!(apply_inline_decoration("see", "link", 0, 3, None), ("[see]()".to_string(), 3));
    assert_eq!(apply_inline_decoration("item", "list", 0, 4, None), ("- item".to_string(), 6));
    assert_eq!(apply_inline_decoration("item", "strike", 0, 4, None), ("item".to_string(), 4));
}

#[test]
fn selection_outside_text_uses_whole_text() {
    // An end past the text selects to the end; a start past it starts at 0.
    assert_eq!(apply_inline_decoration("abc", "italic", 9, 9, None), ("*abc*".to_string(), 10));
    // An end before the start is moved to the start.
    assert_eq!(apply_inline_decoration("abc", "code", 2, 1, None), ("ab``c".to_string(), 2));
}

#[test]
fn utf16_selection_on_multibyte_text() {
    let (out, caret) = apply_inline_decoration("日本語", "bold", 1, 2, None);
    assert_eq!(out, "日**本**語");
    assert_eq!(caret, 4);
    // Bold again on the shifted selection unwraps it, by characters.
    let (back, caret2) = apply_inline_decoration(&out, "bold", 3, 4, None);
    assert_eq!(back, "日本語");
    assert_eq!(caret2, 2);
}

#[test]
fn heading_adds_replaces_and_toggles() {
    assert_eq!(
        apply_inline_decoration("Title", "heading", 0, 5, Some("2")),
        ("## Title".to_string(), 8)
    );
    assert_eq!(
        apply_inline_decoration("## Title", "heading", 3, 8, Some("2")),
        ("Title".to_string(), 5)
    );
    assert_eq!(
        apply_inline_decoration("## Title", "heading", 3, 8, Some("1")),
        ("# Title".to_string(), 7)
    );
    // Missing or non-numeric levels mean level 1.
    assert_eq!(apply_inline_decoration("T", "heading", 0, 1, None), ("# T".to_string(), 3));
    assert_eq!(apply_inline_decoration("T", "heading", 0, 1, Some("x")), ("# T".to_string(), 3));
    assert_eq!(apply_inline_decoration("T", "heading", 0, 1, Some("+3")), ("### T".to_string(), 5));
    // `#` without a following space is no heading prefix.
    assert_eq!(apply_inline_decoration("#T", "heading", 0, 2, None), ("# #T".to_string(), 4));
    // The caret does not go below zero when a prefix is removed.
    assert_eq!(apply_inline_decoration("# T", "heading", 0, 1, None), ("T".to_string(), 0));
}

#[test]
fn block_types() {
    assert!(matches!(derive_block_type("  $$x+y$$ "), BlockType::MathBlock));
    assert!(matches!(derive_block_type("$$$"), BlockType::Paragraph));
    assert!(matches!(derive_block_type("```mermaid\ngraph\n```"), BlockType::Mermaid));
    assert!(matches!(derive_block_type("```typst\n= x\n```"), BlockType::Typst));
    match derive_block_type("```rust\nfn x\n```") {
        BlockType::CodeBlock { language } => assert_eq!(language, ""),
        _ => panic!("Expected code block"),
    }
    assert!(matches!(derive_block_type("### Title"), BlockType::Heading { level: 3 }));
    assert!(matches!(derive_block_type("##"), BlockType::Heading { level: 2 }));
    assert!(matches!(derive_block_type("####### x"), BlockType::Paragraph));
    assert!(matches!(derive_block_type("#x"), BlockType::Paragraph));
    match derive_block_type("* item") {
        BlockType::List { list_type, indent_level, parent_list_id } => {
            assert_eq!(list_type, "unordered");
            assert_eq!(indent_level, 0);
            assert!(parent_list_id.is_none());
        }
        _ => panic!("Expected list"),
    }
    assert!(matches!(derive_block_type(" - item"), BlockType::Paragraph));
    assert!(matches!(derive_block_type("plain"), BlockType::Paragraph));
}

#[test]
fn document_split_into_blocks() {
    let (blocks, order) = parse_document_to_blocks("# Heading\n\nHello **bold** world\n\n \n\n- List item\n\n$$x$$");
    assert_eq!(blocks.len(), 4);
    assert_eq!(order.len(), 4);
    assert!(matches!(blocks[0].block_type, BlockType::Heading { level: 1 }));
    assert_eq!(blocks[0].plain_text, "# Heading");
    assert_eq!(blocks[1].ast_content.len(), 3);
    assert!(matches!(blocks[2].block_type, BlockType::List { .. }));
    assert!(matches!(blocks[3].block_type, BlockType::MathBlock));
    assert!(blocks[3].ast_content.is_empty());
    for (i, b) in blocks.iter().enumerate() {
        assert_eq!(order[i], b.id);
        assert!(b.id.ends_with(&format!("-{}", i + 1)));
        for c in &blocks[..i] {
            assert_ne!(c.id, b.id);
        }
    }
}

#[test]
fn document_split_edge_cases() {
    let (blocks, _) = parse_document_to_blocks("");
    assert!(blocks.is_empty());
    let (blocks, _) = parse_document_to_blocks("a\n\n\nb");
    assert_eq!(blocks.len(), 2);
    assert_eq!(blocks[1].plain_text, "\nb");
}

fn collect_keys(nodes: &[InlineDecorationNode], out: &mut Vec<String>) {
    for n in nodes {
        match n {
            InlineDecorationNode::Text { key, .. } => out.push(key.clone()),
            InlineDecorationNode::Bold { key, children }
            | InlineDecorationNode::Italic { key, children }
            | InlineDecorationNode::Code { key, children }
            | InlineDecorationNode::Link { key, children, .. } => {
                out.push(key.clone());
                collect_keys(children, out);
            }
        }
    }
}

#[test]
fn every_node_has_its_own_key() {
    let decs = parse_markdown_to_decorations(
        "Hello **bold *italic*** `code`\nnext [link **x**](https://e.com) ~~s~~",
    );
    let mut keys = Vec::new();
    collect_keys(&decs, &mut keys);
    assert!(keys.len() >= 10);
    for (i, k) in keys.iter().enumerate() {
        assert!(k.starts_with('k'));
        assert!(k[1..].parse::<u64>().is_ok());
        for other in &keys[..i] {
            assert_ne!(other, k);
        }
    }
    let mut nums: Vec<u64> = keys.iter().map(|k| k[1..].parse::<u64>().unwrap()).collect();
    nums.sort();
    assert_eq!(nums, (0..keys.len() as u64).collect::<Vec<u64>>());
}
