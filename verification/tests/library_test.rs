use kode_ai_rs::document::{build_document, substitute_tags, Document, DocumentScanner};
use kode_ai_rs::github::{
    collect_documents, decode_remote_content, validate_connection, ContentError, FetchAttempt,
    FetchCache, FetchOutcome, FetchStep, RemoteEntry, TraversalScan, ValidationError,
    MAX_CONCURRENT_FETCHES,
};
use kode_ai_rs::server::limit_returned;
use kode_ai_rs::storage::DocumentStorage;

#[test]
fn keyword_extraction_is_deterministic() {
    let storage = DocumentStorage::new();
    let text = "Rust is a systems programming language focused on safety and performance";
    let first = storage.extract_keywords(text);
    let second = storage.extract_keywords(text);
    assert_eq!(first, second);
    assert_eq!(
        first,
        vec![
            "rust".to_string(),
            "systems".to_string(),
            "programming".to_string(),
            "language".to_string(),
            "focused".to_string(),
            "safety".to_string(),
            "performance".to_string(),
        ]
    );
}

#[test]
fn keywords_are_lowercased_and_deduplicated() {
    let storage = DocumentStorage::new();
    let kws = storage.extract_keywords("RUST Systems rust SYSTEMS");
    assert_eq!(kws, vec!["rust".to_string(), "systems".to_string()]);
}

#[test]
fn stopwords_and_short_tokens_are_dropped() {
    let storage = DocumentStorage::new();
    let kws = storage.extract_keywords("the and or to of it we ab x9");
    assert!(kws.is_empty());
}

#[test]
fn store_many_counts_paths() {
    let mut storage = DocumentStorage::new();
    let d1 = Document {
        path: "a.md".to_string(),
        content: "alpha content".to_string(),
        title: "Alpha".to_string(),
        summary: None,
    };
    let d2 = Document {
        path: "b.md".to_string(),
        content: "beta content".to_string(),
        title: "Beta".to_string(),
        summary: None,
    };
    storage.store_documents(vec![d1.clone(), d2]);
    assert_eq!(storage.get_all_documents().len(), 2);

    let mut same = DocumentStorage::new();
    let d1b = Document {
        path: "a.md".to_string(),
        content: "newer content".to_string(),
        title: "Alpha Two".to_string(),
        summary: None,
    };
    same.store_documents(vec![d1, d1b]);
    let all = same.get_all_documents();
    assert_eq!(all.len(), 1);
    assert_eq!(all[0].content, "newer content");
}

#[test]
fn restoring_a_path_replaces_the_entry() {
    let mut storage = DocumentStorage::new();
    let first = Document {
        path: "doc.md".to_string(),
        content: "original words".to_string(),
        title: "One".to_string(),
        summary: Some("first".to_string()),
    };
    let second = Document {
        path: "doc.md".to_string(),
        content: "replacement words".to_string(),
        title: "Two".to_string(),
        summary: None,
    };
    storage.store_document(first);
    storage.store_document(second);
    let all = storage.get_all_documents();
    assert_eq!(all.len(), 1);
    let got = storage.get_document("doc.md").unwrap();
    assert_eq!(got.content, "replacement words");
    assert_eq!(got.title, "Two");
    assert_eq!(got.summary, None);
    assert_eq!(got.keywords, vec!["replacement".to_string(), "words".to_string()]);
}

#[test]
fn title_is_first_heading() {
    let scanner = DocumentScanner::new();
    let t = scanner.extract_title("intro\n# Test Document\n# Later\nbody");
    assert_eq!(t, Some("Test Document".to_string()));
    assert_eq!(scanner.extract_title("no headings here"), None);
    assert_eq!(scanner.extract_title("## sub only"), None);
}

#[test]
fn title_falls_back_to_base_name() {
    let d = build_document("docs/guide/setup.md".to_string(), "plain text".to_string());
    assert_eq!(d.title, "setup");
    let d2 = build_document("nodot".to_string(), "".to_string());
    assert_eq!(d2.title, "nodot");
    let d3 = build_document("".to_string(), "".to_string());
    assert_eq!(d3.title, "Untitled");
}

#[test]
fn summary_takes_first_run_of_plain_lines() {
    let scanner = DocumentScanner::new();
    let s = scanner.generate_summary("# Head\n\nFirst line.\nSecond line.\n\nLater paragraph");
    assert_eq!(s, Some("First line. Second line.".to_string()));
    assert_eq!(scanner.generate_summary("# Only heading\n\n"), None);
}

#[test]
fn summary_is_capped_with_ellipsis() {
    let scanner = DocumentScanner::new();
    let long = "a".repeat(250);
    let s = scanner.generate_summary(&long).unwrap();
    assert_eq!(s.chars().count(), 200);
    let expected = format!("{}...", "a".repeat(197));
    assert_eq!(s, expected);
}

#[test]
fn supported_files_go_by_extension() {
    let mut scanner = DocumentScanner::new();
    assert!(scanner.is_supported_file("docs/guide.md"));
    assert!(scanner.is_supported_file("README.MD"));
    assert!(scanner.is_supported_file("a/b/c.markdown"));
    assert!(!scanner.is_supported_file("binary.png"));
    assert!(!scanner.is_supported_file("no_extension"));
    assert!(!scanner.is_supported_file(".hidden"));
    scanner.add_extension("wiki");
    assert!(scanner.is_supported_file("pages/home.wiki"));
}

#[test]
fn markdown_is_flattened_by_tag_substitution() {
    let scanner = DocumentScanner::new();
    let t = scanner.markdown_to_text("# Hello\n\nWorld");
    assert_eq!(t, "Hello\n\n\nWorld\n\n\n");
}

#[test]
fn tag_substitution_rewrites_each_tag() {
    assert_eq!(substitute_tags("<p>Hi <em>there</em></p>"), "Hi *there*\n\n");
    assert_eq!(substitute_tags("<ul><li>one</li></ul>"), "- one\n\n");
    assert_eq!(substitute_tags("plain"), "plain");
}

#[test]
fn connection_parameters_are_validated() {
    assert_eq!(validate_connection("owner", "repo", None), Ok(()));
    assert_eq!(validate_connection("owner", "repo", Some("tok")), Ok(()));
    assert_eq!(
        validate_connection("", "repo", None),
        Err(ValidationError::EmptyOwner)
    );
    assert_eq!(
        validate_connection("   ", "repo", None),
        Err(ValidationError::EmptyOwner)
    );
    assert_eq!(
        validate_connection("owner", " ", None),
        Err(ValidationError::EmptyRepo)
    );
    assert_eq!(
        validate_connection("owner", "repo", Some("  ")),
        Err(ValidationError::EmptyToken)
    );
}

#[test]
fn third_attempt_success_is_a_successful_fetch() {
    let mut attempt = FetchAttempt::new();
    assert!(matches!(attempt.record(FetchOutcome::Failure), FetchStep::Retry(100)));
    assert!(matches!(attempt.record(FetchOutcome::Failure), FetchStep::Retry(200)));
    let step = attempt.record(FetchOutcome::Success("content".to_string()));
    match step {
        FetchStep::Complete(c) => assert_eq!(c, "content"),
        _ => panic!("expected a completed fetch"),
    }

    // Once recorded, the content is served from the cache.
    let mut cache = FetchCache::new();
    assert!(cache.lookup("a.md").is_none());
    cache.record("a.md".to_string(), "content".to_string());
    assert_eq!(cache.lookup("a.md"), Some(&"content".to_string()));
}

#[test]
fn exhausted_retries_abandon_only_that_file() {
    let mut attempt = FetchAttempt::new();
    assert!(matches!(attempt.record(FetchOutcome::Failure), FetchStep::Retry(100)));
    assert!(matches!(attempt.record(FetchOutcome::Failure), FetchStep::Retry(200)));
    assert!(matches!(attempt.record(FetchOutcome::Failure), FetchStep::Retry(400)));
    assert!(matches!(attempt.record(FetchOutcome::Failure), FetchStep::Abandon));

    // The abandoned file is absent from the assembled documents; the others
    // are unaffected.
    let docs = collect_documents(vec![
        ("a.md".to_string(), Some("# A\n\nAlpha body".to_string())),
        ("broken.md".to_string(), None),
        ("c.md".to_string(), Some("plain".to_string())),
    ]);
    assert_eq!(docs.len(), 2);
    assert_eq!(docs[0].path, "a.md");
    assert_eq!(docs[0].title, "A");
    assert_eq!(docs[0].summary, Some("Alpha body".to_string()));
    assert_eq!(docs[1].path, "c.md");
    assert_eq!(docs[1].title, "c");
}

#[test]
fn listing_failure_skips_only_that_subtree() {
    let mut scan = TraversalScan::new("".to_string());
    let root = scan.next_directory().unwrap();
    assert_eq!(root, "");
    scan.record_listing(&vec![
        RemoteEntry {
            kind: "dir".to_string(),
            path: "good".to_string(),
            name: "good".to_string(),
        },
        RemoteEntry {
            kind: "dir".to_string(),
            path: "bad".to_string(),
            name: "bad".to_string(),
        },
    ]);

    // The listing of `bad` fails: it is popped and nothing is recorded.
    let failed = scan.next_directory().unwrap();
    assert_eq!(failed, "bad");

    // The sibling still contributes all of its files.
    let good = scan.next_directory().unwrap();
    assert_eq!(good, "good");
    scan.record_listing(&vec![
        RemoteEntry {
            kind: "file".to_string(),
            path: "good/readme.md".to_string(),
            name: "readme.md".to_string(),
        },
        RemoteEntry {
            kind: "symlink".to_string(),
            path: "good/link".to_string(),
            name: "link".to_string(),
        },
    ]);
    assert!(scan.next_directory().is_none());
    let files = scan.into_files();
    assert_eq!(files, vec!["good/readme.md".to_string()]);
}

#[test]
fn remote_content_is_decoded() {
    assert_eq!(decode_remote_content("aGVsbG8=").unwrap(), "hello");
    assert_eq!(decode_remote_content("aGVs\nbG8=").unwrap(), "hello");
    assert!(matches!(
        decode_remote_content("!not base64!"),
        Err(ContentError::InvalidEncoding)
    ));
    assert!(matches!(
        decode_remote_content("/w=="),
        Err(ContentError::InvalidText)
    ));
}

#[test]
fn missing_paths_and_empty_queries_yield_nothing() {
    let mut storage = DocumentStorage::new();
    assert!(storage.get_document("absent.md").is_none());
    storage.store_document(Document {
        path: "a.md".to_string(),
        content: "alpha words".to_string(),
        title: "A".to_string(),
        summary: None,
    });
    assert!(storage.get_document("absent.md").is_none());
    assert!(storage.find_relevant_documents("").is_empty());
    assert!(storage.find_relevant_documents("the and").is_empty());
}

#[test]
fn reply_limit_caps_the_returned_count() {
    assert_eq!(limit_returned(10, 3), 3);
    assert_eq!(limit_returned(10, 0), 10);
    assert_eq!(limit_returned(10, -1), 10);
    assert_eq!(limit_returned(2, 5), 2);
    assert_eq!(MAX_CONCURRENT_FETCHES, 5);
}
