use adbpuller::filters::{collect_skip_lines, contains_str, filter_files, PatternSet};

fn strs(xs: &[&str]) -> Vec<String> {
    let mut v: Vec<String> = Vec::new();
    for x in xs {
        v.push(x.to_string());
    }
    v
}

#[test]
fn no_rules_is_identity() {
    // An empty skip set and no patterns at all pass every path through.
    let files = strs(&["/a/x.jpg", "/a/y.png", "/a/z"]);
    let ps = PatternSet::new(&strs(&[]), &strs(&[])).unwrap();
    let out = filter_files(&files, &strs(&[]), &ps);
    assert_eq!(out, files);
}

#[test]
fn output_never_longer_than_input() {
    let files = strs(&["/a/x.jpg", "/a/y.png"]);
    let ps = PatternSet::new(&strs(&[".*"]), &strs(&["x"])).unwrap();
    let out = filter_files(&files, &strs(&["/a/y.png"]), &ps);
    assert!(out.len() <= files.len());
    assert_eq!(out, strs(&[]));
}

#[test]
fn skip_list_drops_exact_matches_only() {
    let files = strs(&["/a/x.jpg", "/a/y.png"]);
    let ps = PatternSet::new(&strs(&[]), &strs(&[])).unwrap();
    let out = filter_files(&files, &strs(&["/a/x.jpg", "/a/x"]), &ps);
    assert_eq!(out, strs(&["/a/y.png"]));
}

#[test]
fn accept_patterns_keep_only_matches() {
    let files = strs(&["/a/x.jpg", "/a/y.png", "/a/z.jpg"]);
    let ps = PatternSet::new(&strs(&["\\.jpg$"]), &strs(&[])).unwrap();
    let out = filter_files(&files, &strs(&[]), &ps);
    assert_eq!(out, strs(&["/a/x.jpg", "/a/z.jpg"]));
}

#[test]
fn exclude_patterns_drop_matches() {
    let files = strs(&["/a/x.jpg", "/a/y.png", "/a/z.jpg"]);
    let ps = PatternSet::new(&strs(&[]), &strs(&["\\.jpg$"])).unwrap();
    let out = filter_files(&files, &strs(&[]), &ps);
    assert_eq!(out, strs(&["/a/y.png"]));
}

#[test]
fn accept_then_exclude_can_drop_everything() {
    let files = strs(&["/a/x.jpg", "/a/y.jpg"]);
    let ps = PatternSet::new(&strs(&[".*"]), &strs(&["\\.jpg$"])).unwrap();
    let out = filter_files(&files, &strs(&[]), &ps);
    assert_eq!(out, strs(&[]));
}

#[test]
fn bad_pattern_fails_compilation() {
    // An unclosed parenthesis is not a valid pattern.
    assert!(PatternSet::new(&strs(&["foo(bar"]), &strs(&[])).is_none());
    assert!(PatternSet::new(&strs(&[]), &strs(&["foo(bar"])).is_none());
    assert!(PatternSet::new(&strs(&["ok"]), &strs(&["also.ok"])).is_some());
}

#[test]
fn skip_lines_concatenate_in_order() {
    let texts = strs(&["a\nb\n", "c"]);
    assert_eq!(collect_skip_lines(&texts), strs(&["a", "b", "c"]));
    let texts2 = strs(&["a\n\nb\n"]);
    assert_eq!(collect_skip_lines(&texts2), strs(&["a", "", "b"]));
    assert_eq!(collect_skip_lines(&strs(&[])), strs(&[]));
}

#[test]
fn membership_is_exact_string_equality() {
    let v = strs(&["/a/b", "/a"]);
    assert!(contains_str(&v, "/a/b"));
    assert!(!contains_str(&v, "/a/"));
    assert!(!contains_str(&v, "b"));
}
