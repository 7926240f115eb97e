use edit_files::matcher::apply_diff;
use edit_files::matcher::replace_exact;
use edit_files::matcher::replace_with_flexible_indent;
use edit_files::matcher::whole_file_diff;

#[test]
fn exact_match_replaces_the_span() {
    let doc = "fn main() {\n    old();\n}\n";
    let d = replace_exact("old()", "new()", doc).expect("should match");
    assert_eq!(d.start, 16);
    assert_eq!(d.end, 21);
    assert_eq!(d.replacement, "new()");
    assert_eq!(apply_diff(doc, &d), "fn main() {\n    new();\n}\n");
}

#[test]
fn exact_match_targets_the_first_occurrence() {
    let doc = "x = a; y = a;";
    let d = replace_exact("a", "b", doc).expect("should match");
    assert_eq!(d.start, 4);
    assert_eq!(apply_diff(doc, &d), "x = b; y = a;");
}

#[test]
fn exact_match_none_when_absent() {
    assert!(replace_exact("zebra", "z", "no stripes here").is_none());
}

#[test]
fn exact_match_is_not_refound_after_applying() {
    let doc = "let count = total;";
    let d = replace_exact("total", "sum", doc).expect("should match");
    let edited = apply_diff(doc, &d);
    assert_eq!(edited, "let count = sum;");
    assert!(replace_exact("total", "sum", &edited).is_none());
}

#[test]
fn flexible_indent_applies_the_observed_delta() {
    let doc = "mod m {\n    fn f() {\n        body();\n    }\n}\n";
    let old = "fn f() {\n    body();\n}";
    let new = "fn f() {\n    improved();\n}";
    assert!(replace_exact(old, new, doc).is_none());
    let d = replace_with_flexible_indent(old, new, doc).expect("should match");
    let edited = apply_diff(doc, &d);
    assert_eq!(edited, "mod m {\n    fn f() {\n        improved();\n    }\n}\n");
}

#[test]
fn flexible_indent_shifts_every_replacement_line() {
    let doc = "        a\n        b\n";
    let old = "a\nb";
    let new = "one\ntwo\nthree";
    let d = replace_with_flexible_indent(old, new, doc).expect("should match");
    let edited = apply_diff(doc, &d);
    assert_eq!(edited, "        one\n        two\n        three\n");
}

#[test]
fn flexible_indent_requires_line_for_line_content() {
    let doc = "    a\n    c\n";
    assert!(replace_with_flexible_indent("a\nb", "x", doc).is_none());
}

#[test]
fn flexible_indent_takes_the_first_window() {
    let doc = "  k\nz\n    k\n";
    let d = replace_with_flexible_indent("k", "r", doc).expect("should match");
    let edited = apply_diff(doc, &d);
    assert_eq!(edited, "  r\nz\n    k\n");
}

#[test]
fn flexible_indent_can_remove_indentation() {
    let doc = "a\n";
    let old = "    a";
    let new = "    b";
    let d = replace_with_flexible_indent(old, new, doc).expect("should match");
    let edited = apply_diff(doc, &d);
    assert_eq!(edited, "b\n");
}

#[test]
fn whole_file_write_always_succeeds() {
    for doc in ["", "short", "many\nlines\nof\ntext\n"] {
        let d = whole_file_diff("fresh content\n", doc);
        assert_eq!(apply_diff(doc, &d), "fresh content\n");
    }
}

#[test]
fn empty_search_matches_at_the_start() {
    let d = replace_exact("", "x", "abc").expect("empty search matches everywhere");
    assert_eq!(d.start, 0);
    assert_eq!(d.end, 0);
    assert_eq!(apply_diff("abc", &d), "xabc");
}
