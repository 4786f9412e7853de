use fastmm::ast::TypstCompileResult;
use fastmm::commands::{greet, typst_compile_result};
use fastmm::history::{format_unix_secs, version_label};
use fastmm::markdown::{decorations_from_events, MdEvent};
use fastmm::ast::{InlineDecorationNode, VersionEntry};
use fastmm::version_files::{
    bytes_less, history_entry, is_md_file_name, newest_first, prune_selection, version_file_name,
    AUTO_HISTORY_LIMIT,
};

#[test]
fn unix_seconds_format() {
    assert_eq!(format_unix_secs(0), "1970-01-01 00:00:00");
    assert_eq!(format_unix_secs(86399), "1970-01-01 23:59:59");
    assert_eq!(format_unix_secs(951782400), "2000-02-29 00:00:00");
    assert_eq!(format_unix_secs(1725029869), "2024-08-30 14:57:49");
    assert_eq!(format_unix_secs(253402300799), "9999-12-31 23:59:59");
    assert_eq!(format_unix_secs(253402300800), "10000-01-01 00:00:00");
}

#[test]
fn version_labels() {
    assert_eq!(version_label("1725029869123"), "2024-08-30 14:57:49");
    assert_eq!(version_label("+0"), "1970-01-01 00:00:00");
    assert_eq!(version_label("draft"), "draft");
    assert_eq!(version_label("99999999999999999999"), "99999999999999999999");
}

#[test]
fn greeting() {
    assert_eq!(greet("Ann"), "Hello, Ann! You've been greeted from Rust!");
}

#[test]
fn typst_results() {
    match typst_compile_result(Ok("<svg/>".to_string())) {
        TypstCompileResult::Success { svg } => assert_eq!(svg, "<svg/>"),
        _ => panic!("expected success"),
    }
    match typst_compile_result(Err(vec!["a".into(), "b".into()])) {
        TypstCompileResult::Error { message } => assert_eq!(message, "a\nb"),
        _ => panic!("expected error"),
    }
    match typst_compile_result(Err(vec![])) {
        TypstCompileResult::Error { message } => assert_eq!(message, ""),
        _ => panic!("expected error"),
    }
}

#[test]
fn events_fold_into_tree() {
    let events = vec![
        MdEvent::StartOther,
        MdEvent::Text { text: "x".into() },
        MdEvent::StartLink { dest: "u".into() },
        MdEvent::StartItalic,
        MdEvent::Text { text: "y".into() },
        MdEvent::End,
        MdEvent::End,
        MdEvent::Break,
        MdEvent::Other,
        MdEvent::End,
        // An unmatched end does not close the root.
        MdEvent::End,
    ];
    let tree = decorations_from_events(&events);
    assert_eq!(tree.len(), 3);
    match &tree[1] {
        InlineDecorationNode::Link { key, href, children } => {
            assert_eq!(key, "k3");
            assert_eq!(href, "u");
            match &children[0] {
                InlineDecorationNode::Italic { key, children } => {
                    assert_eq!(key, "k2");
                    assert_eq!(children.len(), 1);
                }
                _ => panic!("expected italic"),
            }
        }
        _ => panic!("expected link"),
    }
    match &tree[2] {
        InlineDecorationNode::Text { key, text } => {
            assert_eq!(key, "k4");
            assert_eq!(text, "\n");
        }
        _ => panic!("expected newline"),
    }
}

fn names(v: &[&str]) -> Vec<Vec<u8>> {
    v.iter().map(|s| s.as_bytes().to_vec()).collect()
}

#[test]
fn version_file_names_are_recognised() {
    assert!(is_md_file_name(&b"1700000000000.md".to_vec()));
    assert!(is_md_file_name(&b"..md".to_vec()));
    assert!(!is_md_file_name(&b".md".to_vec()));
    assert!(!is_md_file_name(&b"notes.txt".to_vec()));
    assert!(!is_md_file_name(&b"md".to_vec()));
}

#[test]
fn pruning_keeps_the_newest() {
    let n = names(&["3.md", "1.md", "x.txt", "2.md", ".md", "10.md"]);
    // Sorted by name: "1.md"(1) < "10.md"(5) < "2.md"(3) < "3.md"(0).
    assert_eq!(prune_selection(&n, 1), vec![1, 5, 3]);
    assert_eq!(prune_selection(&n, 3), vec![1]);
    assert_eq!(prune_selection(&n, 4), Vec::<usize>::new());
    assert_eq!(prune_selection(&n, AUTO_HISTORY_LIMIT), Vec::<usize>::new());
    assert_eq!(prune_selection(&n, 0), vec![1, 5, 3, 0]);
}

#[test]
fn history_entries_from_names() {
    let e = history_entry("1725029869123.md", "auto").unwrap();
    assert_eq!(e.version_id, "1725029869123");
    assert_eq!(e.source, "auto");
    assert_eq!(e.label, "2024-08-30 14:57:49");
    let e = history_entry("draft.md", "manual").unwrap();
    assert_eq!(e.version_id, "draft");
    assert_eq!(e.label, "draft");
    assert!(history_entry("notes.txt", "auto").is_none());
    assert!(history_entry(".md", "auto").is_none());
}

fn entry(id: &str, source: &str) -> VersionEntry {
    VersionEntry { version_id: id.into(), source: source.into(), label: id.into() }
}

#[test]
fn versions_listed_newest_first() {
    let list = vec![entry("1", "a"), entry("3", "b"), entry("2", "c"), entry("3", "d"), entry("10", "e")];
    let sorted = newest_first(&list);
    let got: Vec<(String, String)> =
        sorted.iter().map(|e| (e.version_id.clone(), e.source.clone())).collect();
    let want: Vec<(String, String)> = [("3", "b"), ("3", "d"), ("2", "c"), ("10", "e"), ("1", "a")]
        .iter()
        .map(|(a, b)| (a.to_string(), b.to_string()))
        .collect();
    assert_eq!(got, want);
    assert!(newest_first(&Vec::new()).is_empty());
}

#[test]
fn version_file_names() {
    assert_eq!(version_file_name(Some("doc.md"), "123"), "doc.md.123.md");
    assert_eq!(version_file_name(None, "123"), "123.md");
}

#[test]
fn byte_order() {
    assert!(bytes_less(&b"a".to_vec(), &b"b".to_vec()));
    assert!(bytes_less(&b"ab".to_vec(), &b"abc".to_vec()));
    assert!(!bytes_less(&b"abc".to_vec(), &b"ab".to_vec()));
    assert!(!bytes_less(&b"ab".to_vec(), &b"ab".to_vec()));
    assert!(bytes_less(&Vec::new(), &b"a".to_vec()));
}
