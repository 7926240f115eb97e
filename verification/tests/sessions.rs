use edit_files::session::EditSession;
use edit_files::session::usize_to_string;
use edit_files::store::MemStore;
use edit_files::store::run_session;

fn store_with(docs: &[(&str, &str)]) -> MemStore {
    let mut store = MemStore::new();
    for (path, text) in docs {
        store.add_document(path.to_string(), text.to_string());
    }
    store
}

fn run(chunks: &[&str], store: &mut MemStore) -> Result<String, String> {
    let owned: Vec<String> = chunks.iter().map(|c| c.to_string()).collect();
    run_session(&owned, store)
}

#[test]
fn counts_render_in_decimal() {
    assert_eq!(usize_to_string(0), "0");
    assert_eq!(usize_to_string(7), "7");
    assert_eq!(usize_to_string(10), "10");
    assert_eq!(usize_to_string(123), "123");
    assert_eq!(usize_to_string(100000), "100000");
}

#[test]
fn empty_session_fails_as_noop() {
    let session = EditSession::new();
    let r = session.finalize();
    assert_eq!(
        r,
        Err("The instructions didn't lead to any changes. You might need to consult the file contents first.".to_string())
    );
}

#[test]
fn touched_documents_are_deduplicated() {
    let mut session = EditSession::new();
    session.record_applied(3, "block one");
    session.record_applied(3, "block two");
    session.record_applied(5, "block three");
    assert_eq!(session.touched_count(), 2);
}

#[test]
fn stream_with_no_blocks_fails_as_noop() {
    let mut store = store_with(&[("a.txt", "hello\n")]);
    let r = run(&["the model says nothing useful\n", "still nothing\n"], &mut store);
    assert_eq!(
        r,
        Err("The instructions didn't lead to any changes. You might need to consult the file contents first.".to_string())
    );
    assert_eq!(store.docs[0].saves, 0);
}

#[test]
fn successful_run_returns_the_transcript() {
    let mut store = store_with(&[("a.txt", "old text\n")]);
    let script = "a.txt\n<<<<<<< SEARCH\nold text\n=======\nnew text\n>>>>>>> REPLACE\n";
    let r = run(&[script], &mut store);
    let out = r.expect("run should succeed");
    assert_eq!(
        out,
        "Successfully applied. Here's a list of changes:\n\na.txt\n<<<<<<< SEARCH\nold text\n=======\nnew text\n>>>>>>> REPLACE"
    );
    assert_eq!(store.docs[0].text, "new text\n");
    assert_eq!(store.docs[0].saves, 1);
}

#[test]
fn two_edits_to_one_file_save_it_once() {
    let mut store = store_with(&[("f.txt", "alpha\nbeta\n")]);
    let script = "f.txt\n<<<<<<< SEARCH\nalpha\n=======\ngamma\n>>>>>>> REPLACE\nf.txt\n<<<<<<< SEARCH\ngamma\n=======\ndelta\n>>>>>>> REPLACE\n";
    let r = run(&[script], &mut store);
    assert!(r.is_ok());
    // the second search only matches because the first edit is already applied
    assert_eq!(store.docs[0].text, "delta\nbeta\n");
    assert_eq!(store.docs[0].saves, 1);
}

#[test]
fn later_actions_see_earlier_edits_across_chunks() {
    let mut store = store_with(&[("f.txt", "one\n")]);
    let r = run(
        &[
            "f.txt\n<<<<<<< SEARCH\none\n=======\ntwo\n>>>>>>> REPLACE\n",
            "f.txt\n<<<<<<< SEARCH\ntwo\n=======\nthree\n>>>>>>> REPLACE\n",
        ],
        &mut store,
    );
    assert!(r.is_ok());
    assert_eq!(store.docs[0].text, "three\n");
    assert_eq!(store.docs[0].saves, 1);
}

#[test]
fn whole_file_write_replaces_any_content() {
    let mut store = store_with(&[("w.txt", "anything at all\ncould be here\n")]);
    let script = "w.txt\n<<<<<<< WRITE\nbrand new\n>>>>>>> WRITE\n";
    let r = run(&[script], &mut store);
    assert!(r.is_ok());
    assert_eq!(store.docs[0].text, "brand new");
    assert_eq!(store.docs[0].saves, 1);
}

#[test]
fn unknown_path_aborts_the_run() {
    let mut store = store_with(&[("known.txt", "x\n")]);
    let script = "missing.txt\n<<<<<<< SEARCH\nx\n=======\ny\n>>>>>>> REPLACE\n";
    let r = run(&[script], &mut store);
    assert_eq!(r, Err("Path not found in project".to_string()));
    assert_eq!(store.docs[0].saves, 0);
}

#[test]
fn unmatched_search_alone_reports_failure() {
    let mut store = store_with(&[("a.txt", "content\n")]);
    let script = "a.txt\n<<<<<<< SEARCH\nabsent\n=======\nx\n>>>>>>> REPLACE\n";
    let r = run(&[script], &mut store);
    let msg = r.expect_err("run should fail");
    assert!(msg.starts_with("I couldn't apply any edits!"));
    assert!(msg.contains("# 1 SEARCH/REPLACE block(s) failed to match:"));
    assert!(msg.contains("## No exact match in: a.txt"));
    assert!(msg.contains("```\nabsent\n```"));
    assert!(msg.contains("The SEARCH section must exactly match"));
    assert!(msg.contains("You can fix errors by running the tool again."));
    assert!(!msg.contains("Do not re-send them!"));
    assert_eq!(store.docs[0].text, "content\n");
    assert_eq!(store.docs[0].saves, 0);
}

#[test]
fn failures_are_aggregated_with_successes() {
    let mut store = store_with(&[("f.txt", "one two\n")]);
    let script = "f.txt\n<<<<<<< SEARCH\none\n=======\n1\n>>>>>>> REPLACE\nf.txt\n<<<<<<< SEARCH\nzzz\n=======\n2\n>>>>>>> REPLACE\n<<<<<<< SEARCH\nbroken\n=======\nblock\n>>>>>>> REPLACE\n";
    let r = run(&[script], &mut store);
    let msg = r.expect_err("run should fail overall");
    assert!(msg.starts_with(
        "Errors occurred. First, here's a list of the edits we managed to apply:"
    ));
    assert!(msg.contains("f.txt\n<<<<<<< SEARCH\none\n=======\n1\n>>>>>>> REPLACE"));
    assert!(msg.contains("# 1 SEARCH/REPLACE block(s) failed to match:"));
    assert!(msg.contains("## No exact match in: f.txt"));
    assert!(msg.contains("```\nzzz\n```"));
    assert!(msg.contains("# 1 SEARCH/REPLACE blocks failed to parse:"));
    assert!(msg.contains("- block start marker without a file path on the preceding line"));
    assert!(msg.contains("The other SEARCH/REPLACE blocks were applied successfully. Do not re-send them!"));
    assert!(msg.contains("You can fix errors by running the tool again."));
    // the successful edit stays applied and its file is saved once
    assert_eq!(store.docs[0].text, "1 two\n");
    assert_eq!(store.docs[0].saves, 1);
}

#[test]
fn flexible_indent_edit_applies_through_a_session() {
    let mut store = store_with(&[("m.rs", "mod m {\n    fn f() {\n        body();\n    }\n}\n")]);
    let script = "m.rs\n<<<<<<< SEARCH\nfn f() {\n    body();\n}\n=======\nfn f() {\n    better();\n}\n>>>>>>> REPLACE\n";
    let r = run(&[script], &mut store);
    assert!(r.is_ok());
    assert_eq!(store.docs[0].text, "mod m {\n    fn f() {\n        better();\n    }\n}\n");
}

#[test]
fn failed_resolution_keeps_earlier_edits_applied_but_unsaved() {
    let mut store = store_with(&[("a.txt", "first\n")]);
    let script = "a.txt\n<<<<<<< SEARCH\nfirst\n=======\nsecond\n>>>>>>> REPLACE\nmissing.txt\n<<<<<<< SEARCH\nx\n=======\ny\n>>>>>>> REPLACE\n";
    let r = run(&[script], &mut store);
    assert_eq!(r, Err("Path not found in project".to_string()));
    // the run aborts without finalizing: the first edit stays applied, unsaved
    assert_eq!(store.docs[0].text, "second\n");
    assert_eq!(store.docs[0].saves, 0);
}
