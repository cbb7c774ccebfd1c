use adbpuller::paths::{join_path, parent_dir, strip_prefix_str};
use adbpuller::resolve::{candidate_destination, resolve_destinations, SrcDestFiles};

fn strs(xs: &[&str]) -> Vec<String> {
    let mut v: Vec<String> = Vec::new();
    for x in xs {
        v.push(x.to_string());
    }
    v
}

fn pairs_of(r: &SrcDestFiles) -> Vec<(String, String)> {
    let mut v: Vec<(String, String)> = Vec::new();
    let mut i = 0;
    while i < r.len() {
        v.push((r.src_at(i).clone(), r.dest_at(i).clone()));
        i += 1;
    }
    v
}

#[test]
fn parent_of_paths() {
    assert_eq!(parent_dir("/sdcard/DCIM"), Some("/sdcard".to_string()));
    assert_eq!(parent_dir("/a"), Some("/".to_string()));
    assert_eq!(parent_dir("/a/b/"), Some("/a".to_string()));
    assert_eq!(parent_dir("a"), Some(String::new()));
    assert_eq!(parent_dir("/"), None);
    assert_eq!(parent_dir(""), None);
}

#[test]
fn join_inserts_a_single_slash() {
    assert_eq!(join_path("out", "DCIM/a.jpg"), "out/DCIM/a.jpg".to_string());
    assert_eq!(join_path("out/", "x"), "out/x".to_string());
    assert_eq!(join_path("/", "x"), "/x".to_string());
    assert_eq!(join_path("", "x"), "x".to_string());
}

#[test]
fn strip_prefix_goes_by_components() {
    assert_eq!(
        strip_prefix_str("/sdcard/DCIM/a.jpg", "/sdcard"),
        Some("DCIM/a.jpg".to_string())
    );
    assert_eq!(strip_prefix_str("/sdcardX/a", "/sdcard"), None);
    assert_eq!(strip_prefix_str("/sdcard", "/sdcard"), Some(String::new()));
    assert_eq!(strip_prefix_str("/a/b", "/"), Some("a/b".to_string()));
    assert_eq!(strip_prefix_str("/other/f", "/sdcard"), None);
}

#[test]
fn candidate_re_roots_under_destination() {
    assert_eq!(
        candidate_destination("/sdcard/DCIM/a.jpg", "/sdcard/DCIM", "out"),
        Some("out/DCIM/a.jpg".to_string())
    );
    assert_eq!(candidate_destination("/other/f", "/sdcard/DCIM", "out"), None);
    // The root "/" has no parent to strip against.
    assert_eq!(candidate_destination("/a", "/", "out"), None);
}

#[test]
fn resolver_drops_existing_unless_forced() {
    let files = strs(&["/sdcard/DCIM/a.jpg", "/sdcard/DCIM/b.jpg"]);
    let existing = strs(&["out/DCIM/a.jpg"]);
    let r = resolve_destinations(&files, "/sdcard/DCIM", "out", &existing, false);
    assert_eq!(
        pairs_of(&r),
        vec![("/sdcard/DCIM/b.jpg".to_string(), "out/DCIM/b.jpg".to_string())]
    );
    let rf = resolve_destinations(&files, "/sdcard/DCIM", "out", &existing, true);
    assert_eq!(rf.len(), 2);
}

#[test]
fn resolver_drops_what_cannot_be_re_rooted() {
    let files = strs(&["/sdcard/DCIM/a.jpg", "/elsewhere/b.jpg"]);
    let r = resolve_destinations(&files, "/sdcard/DCIM", "out", &strs(&[]), false);
    assert_eq!(
        pairs_of(&r),
        vec![("/sdcard/DCIM/a.jpg".to_string(), "out/DCIM/a.jpg".to_string())]
    );
}

#[test]
fn resolving_twice_selects_nothing_the_second_time() {
    // Idempotence: the second run sees the first run's output on disk.
    let files = strs(&["/sdcard/DCIM/a.jpg", "/sdcard/DCIM/sub/c.jpg"]);
    let first = resolve_destinations(&files, "/sdcard/DCIM", "out", &strs(&[]), false);
    assert_eq!(first.len(), 2);
    let mut now_existing: Vec<String> = Vec::new();
    let mut i = 0;
    while i < first.len() {
        now_existing.push(first.dest_at(i).clone());
        i += 1;
    }
    let second = resolve_destinations(&files, "/sdcard/DCIM", "out", &now_existing, false);
    assert!(second.is_empty());
    assert_eq!(second.len(), 0);
}

#[test]
fn pairing_survives_pushes_and_concatenation() {
    let mut a = SrcDestFiles::new();
    assert!(a.is_empty());
    a.push_pair("/s/1".to_string(), "d/1".to_string());
    let mut b = SrcDestFiles::new();
    b.push_pair("/s/2".to_string(), "d/2".to_string());
    b.push_pair("/s/3".to_string(), "d/3".to_string());
    a.extend_from(b);
    assert_eq!(
        pairs_of(&a),
        vec![
            ("/s/1".to_string(), "d/1".to_string()),
            ("/s/2".to_string(), "d/2".to_string()),
            ("/s/3".to_string(), "d/3".to_string()),
        ]
    );
}
