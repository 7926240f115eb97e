use edit_files::parser::EditAction;
use edit_files::parser::EditActionParser;
use edit_files::parser::ParsedUnit;

fn parse_all(chunks: &[&str]) -> (Vec<ParsedUnit>, Vec<String>) {
    let mut parser = EditActionParser::new();
    let mut units = Vec::new();
    for chunk in chunks {
        units.extend(parser.parse_chunk(chunk));
    }
    let errors = parser.errors().clone();
    (units, errors)
}

#[test]
fn parses_one_replace_block() {
    let script = "src/main.rs\n<<<<<<< SEARCH\nfn old() {}\n=======\nfn new() {}\n>>>>>>> REPLACE\n";
    let (units, errors) = parse_all(&[script]);
    assert_eq!(errors.len(), 0);
    assert_eq!(units.len(), 1);
    match &units[0].action {
        EditAction::Replace { file_path, old, new } => {
            assert_eq!(file_path, "src/main.rs");
            assert_eq!(old, "fn old() {}");
            assert_eq!(new, "fn new() {}");
        },
        _ => panic!("expected a replace action"),
    }
    assert_eq!(
        units[0].source,
        "src/main.rs\n<<<<<<< SEARCH\nfn old() {}\n=======\nfn new() {}\n>>>>>>> REPLACE"
    );
}

#[test]
fn parses_one_write_block() {
    let script = "notes.txt\n<<<<<<< WRITE\nline one\nline two\n>>>>>>> WRITE\n";
    let (units, errors) = parse_all(&[script]);
    assert_eq!(errors.len(), 0);
    assert_eq!(units.len(), 1);
    match &units[0].action {
        EditAction::Write { file_path, content } => {
            assert_eq!(file_path, "notes.txt");
            assert_eq!(content, "line one\nline two");
        },
        _ => panic!("expected a write action"),
    }
}

#[test]
fn parses_multiline_sections() {
    let script = "a.rs\n<<<<<<< SEARCH\nfoo\nbar\n=======\nbaz\nqux\nquux\n>>>>>>> REPLACE\n";
    let (units, errors) = parse_all(&[script]);
    assert_eq!(errors.len(), 0);
    assert_eq!(units.len(), 1);
    match &units[0].action {
        EditAction::Replace { old, new, .. } => {
            assert_eq!(old, "foo\nbar");
            assert_eq!(new, "baz\nqux\nquux");
        },
        _ => panic!("expected a replace action"),
    }
}

#[test]
fn prose_outside_blocks_is_inert() {
    let script = "I will now edit the file.\n\na.rs\n<<<<<<< SEARCH\nx\n=======\ny\n>>>>>>> REPLACE\nThat should do it.\n";
    let (units, errors) = parse_all(&[script]);
    assert_eq!(errors.len(), 0);
    assert_eq!(units.len(), 1);
}

#[test]
fn empty_sections_are_allowed() {
    let script = "a.rs\n<<<<<<< SEARCH\n=======\nadded\n>>>>>>> REPLACE\n";
    let (units, errors) = parse_all(&[script]);
    assert_eq!(errors.len(), 0);
    assert_eq!(units.len(), 1);
    match &units[0].action {
        EditAction::Replace { old, new, .. } => {
            assert_eq!(old, "");
            assert_eq!(new, "added");
        },
        _ => panic!("expected a replace action"),
    }
}

#[test]
fn chunk_boundaries_do_not_matter() {
    let script = "chatter\nsrc/lib.rs\n<<<<<<< SEARCH\nalpha\nbeta\n=======\ngamma\n>>>>>>> REPLACE\nmore chatter\nb.txt\n<<<<<<< WRITE\nwhole\n>>>>>>> WRITE\n";
    let (expected_units, expected_errors) = parse_all(&[script]);
    assert_eq!(expected_units.len(), 2);
    for cut in 0..=script.len() {
        if !script.is_char_boundary(cut) {
            continue;
        }
        let (units, errors) = parse_all(&[&script[..cut], &script[cut..]]);
        assert_eq!(errors, expected_errors);
        assert_eq!(units.len(), expected_units.len());
        for (u, e) in units.iter().zip(expected_units.iter()) {
            assert_eq!(u.source, e.source);
        }
    }
}

#[test]
fn partial_block_waits_for_its_close() {
    let mut parser = EditActionParser::new();
    let first = parser.parse_chunk("a.rs\n<<<<<<< SEARCH\nx\n===");
    assert_eq!(first.len(), 0);
    let second = parser.parse_chunk("====\ny\n>>>>>>> REPLACE\n");
    assert_eq!(second.len(), 1);
    assert_eq!(parser.errors().len(), 0);
}

#[test]
fn start_marker_without_path_is_an_error() {
    let script = "<<<<<<< SEARCH\nx\n=======\ny\n>>>>>>> REPLACE\n";
    let (units, errors) = parse_all(&[script]);
    assert_eq!(units.len(), 0);
    assert_eq!(errors.len(), 1);
    assert_eq!(
        errors[0],
        "block start marker without a file path on the preceding line"
    );
}

#[test]
fn blank_line_before_marker_is_an_error() {
    let script = "a.rs\n\n<<<<<<< SEARCH\nx\n=======\ny\n>>>>>>> REPLACE\n";
    let (units, errors) = parse_all(&[script]);
    assert_eq!(units.len(), 0);
    assert_eq!(errors.len(), 1);
}

#[test]
fn close_before_divider_is_an_error() {
    let script = "a.rs\n<<<<<<< SEARCH\nx\n>>>>>>> REPLACE\n";
    let (units, errors) = parse_all(&[script]);
    assert_eq!(units.len(), 0);
    assert_eq!(errors.len(), 1);
    assert_eq!(
        errors[0],
        "search/replace block for a.rs is missing the ======= divider"
    );
}

#[test]
fn new_block_inside_open_block_is_an_error() {
    let script = "a.rs\n<<<<<<< SEARCH\nx\n<<<<<<< WRITE\n";
    let (units, errors) = parse_all(&[script]);
    assert_eq!(units.len(), 0);
    assert_eq!(errors.len(), 1);
    assert_eq!(
        errors[0],
        "block for a.rs was not closed before a new block started"
    );
}

#[test]
fn parser_recovers_after_an_error() {
    let script = "<<<<<<< SEARCH\nx\n=======\ny\n>>>>>>> REPLACE\nb.rs\n<<<<<<< SEARCH\nu\n=======\nv\n>>>>>>> REPLACE\n";
    let (units, errors) = parse_all(&[script]);
    assert_eq!(errors.len(), 1);
    assert_eq!(units.len(), 1);
    match &units[0].action {
        EditAction::Replace { file_path, .. } => assert_eq!(file_path, "b.rs"),
        _ => panic!("expected a replace action"),
    }
}

#[test]
fn chunk_boundaries_do_not_matter_for_errors_either() {
    let script = "<<<<<<< SEARCH\nx\n=======\ny\n>>>>>>> REPLACE\na.rs\n<<<<<<< SEARCH\nu\n>>>>>>> REPLACE\n";
    let (expected_units, expected_errors) = parse_all(&[script]);
    assert_eq!(expected_units.len(), 0);
    assert_eq!(expected_errors.len(), 2);
    for cut in 0..=script.len() {
        let (units, errors) = parse_all(&[&script[..cut], &script[cut..]]);
        assert_eq!(units.len(), 0);
        assert_eq!(errors, expected_errors);
    }
}
