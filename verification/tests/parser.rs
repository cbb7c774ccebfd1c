use adbpuller::listing::parse_listing;
use adbpuller::text::{clean_lines, lines_of, split_text, trim_str};

fn strs(xs: &[&str]) -> Vec<String> {
    let mut v: Vec<String> = Vec::new();
    for x in xs {
        v.push(x.to_string());
    }
    v
}

#[test]
fn single_file_listing_is_literal() {
    // A target that is a single file lists as one line: that path itself.
    let r = parse_listing("/sdcard/DCIM/photo.jpg", "/sdcard/DCIM/photo.jpg\n");
    assert_eq!(r, strs(&["/sdcard/DCIM/photo.jpg"]));
}

#[test]
fn single_relative_line_is_literal() {
    let r = parse_listing("/root", "X\n");
    assert_eq!(r, strs(&["X"]));
}

#[test]
fn empty_directory_listing_is_empty() {
    // A single header line proves a directory; nothing is emitted for it.
    let r = parse_listing("/root", "/root:\n\n");
    assert_eq!(r, strs(&[]));
}

#[test]
fn empty_text_yields_nothing() {
    let r = parse_listing("/root", "");
    assert_eq!(r, strs(&[]));
}

#[test]
fn block_structured_listing() {
    let text = "/sdcard/DCIM:\na.jpg\nb.jpg\n/sdcard/DCIM/sub:\nc.jpg\n";
    let r = parse_listing("/sdcard/DCIM", text);
    assert_eq!(
        r,
        strs(&["/sdcard/DCIM/a.jpg", "/sdcard/DCIM/b.jpg", "/sdcard/DCIM/sub/c.jpg"])
    );
}

#[test]
fn subdirectory_entry_removed_when_header_proves_it() {
    // "sub" is first seen as an entry, then its header proves it is a
    // directory: the stale literal entry must not survive.
    let text = "/root:\nsub\n/root/sub:\nc.jpg\n";
    let r = parse_listing("/root", text);
    assert_eq!(r, strs(&["/root/sub/c.jpg"]));
}

#[test]
fn header_with_trailing_slash() {
    let text = "/root/:\nx\n\n/root/d/:\ny\n";
    let r = parse_listing("/root", text);
    assert_eq!(r, strs(&["/root/x", "/root/d/y"]));
}

#[test]
fn entries_before_any_header_fall_under_root() {
    let text = "a.jpg\nb.jpg\n";
    let r = parse_listing("/root", text);
    assert_eq!(r, strs(&["/root/a.jpg", "/root/b.jpg"]));
}

#[test]
fn listing_lines_are_trimmed_and_blanks_dropped() {
    let text = "/root:\r\n  a.jpg  \r\n\r\n\nb.jpg\n";
    let r = parse_listing("/root", text);
    assert_eq!(r, strs(&["/root/a.jpg", "/root/b.jpg"]));
}

#[test]
fn trim_removes_surrounding_whitespace() {
    assert_eq!(trim_str("  a b \r\n"), "a b".to_string());
    assert_eq!(trim_str("\t\n "), String::new());
    assert_eq!(trim_str("ab"), "ab".to_string());
}

#[test]
fn split_text_keeps_every_piece() {
    assert_eq!(split_text("a\nb"), strs(&["a", "b"]));
    assert_eq!(split_text("a\nb\n"), strs(&["a", "b", ""]));
    assert_eq!(split_text(""), strs(&[""]));
}

#[test]
fn lines_of_reads_like_a_text_file() {
    assert_eq!(lines_of("a\r\nb\n"), strs(&["a", "b"]));
    assert_eq!(lines_of("a\n\nb"), strs(&["a", "", "b"]));
    assert_eq!(lines_of(""), strs(&[]));
}

#[test]
fn clean_lines_drops_empties() {
    assert_eq!(clean_lines(" a \n\n b\n"), strs(&["a", "b"]));
}
