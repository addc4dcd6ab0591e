use claudevil::chunker::chunk_file;
use claudevil::indexer::{is_hidden, pending_rows, should_flush, BATCH_SIZE};
use claudevil::paths::path_within;
use claudevil::report::{dir_name_for, format_results, SearchHit};

#[test]
fn pending_rows_number_chunks_in_order() {
    let chunks = chunk_file(
        "package api\n// Hello prints a greeting.\nfunc Hello() { fmt.Println(\"hi\") }\nfunc Bye() {}\n",
        "go",
    )
    .unwrap();
    let rows = pending_rows("pkg/api.go", "go", 42, &chunks);
    assert_eq!(rows.len(), 2);
    assert_eq!(rows[0].chunk_id, 0);
    assert_eq!(rows[1].chunk_id, 1);
    assert_eq!(rows[0].file_path, "pkg/api.go");
    assert_eq!(rows[0].symbol_name.as_deref(), Some("Hello"));
    assert_eq!(rows[0].symbol_kind.as_deref(), Some("function_declaration"));
    assert_eq!(rows[0].start_line, 3);
    assert_eq!(rows[0].end_line, 3);
    assert_eq!(rows[0].last_modified, 42);
    assert!(rows[0].content.contains("Hello prints a greeting"));
    assert_eq!(rows[1].symbol_name.as_deref(), Some("Bye"));
}

#[test]
fn batch_flushes_at_batch_size() {
    assert_eq!(BATCH_SIZE, 64);
    assert!(!should_flush(63));
    assert!(should_flush(64));
    assert!(should_flush(65));
}

#[test]
fn hidden_entries() {
    assert!(is_hidden(1, Some(".hidden")));
    assert!(!is_hidden(0, Some(".")));
    assert!(!is_hidden(2, Some("visible.go")));
    assert!(!is_hidden(1, None));
}

#[test]
fn dir_name_has_hash_suffix() {
    assert_eq!(dir_name_for(Some("proj"), 0x1234_5678_9abc_def0), "proj-9abcdef0");
    assert_eq!(dir_name_for(None, 0xff), "root-000000ff");
}

#[test]
fn format_results_with_and_without_distance() {
    let hits = vec![
        SearchHit {
            file_path: "a.go".to_string(),
            content: "func A() {}".to_string(),
            symbol_name: Some("A".to_string()),
            symbol_kind: Some("func".to_string()),
            start_line: 3,
            end_line: 12,
            distance: "0.125".to_string(),
        },
        SearchHit {
            file_path: "b.go".to_string(),
            content: "package b".to_string(),
            symbol_name: None,
            symbol_kind: Some("package".to_string()),
            start_line: -1,
            end_line: 1,
            distance: "0.500".to_string(),
        },
    ];
    assert_eq!(
        format_results(&hits, true),
        "## a.go:3-12 (func A) [0.125]\n```\nfunc A() {}\n```\n\n## b.go:-1-1 [0.500]\n```\npackage b\n```\n\n"
    );
    let first = vec![SearchHit {
        file_path: "a.go".to_string(),
        content: "func A() {}".to_string(),
        symbol_name: Some("A".to_string()),
        symbol_kind: Some("func".to_string()),
        start_line: 3,
        end_line: 12,
        distance: "0.125".to_string(),
    }];
    assert_eq!(
        format_results(&first, false),
        "## a.go:3-12 (func A)\n```\nfunc A() {}\n```\n\n"
    );
}

#[test]
fn paths_within_root_by_components() {
    assert!(path_within("/home/u/proj", "/home/u/proj/src/main.go"));
    assert!(path_within("/home/u/proj", "/home/u/proj"));
    assert!(path_within("/home/u/proj/", "/home/u/proj/a.go"));
    assert!(!path_within("/home/u/proj", "/home/u/project/a.go"));
    assert!(!path_within("/home/u/proj", "/etc/passwd"));
    assert!(!path_within("/home/u/proj", "home/u/proj/a.go"));
    assert!(path_within("/", "/etc/passwd"));
}
