use adbpuller::bridge::device_attached;
use adbpuller::filters::PatternSet;
use adbpuller::plan::plan_root;
use adbpuller::presets::expand_sources;
use adbpuller::resolve::SrcDestFiles;

fn strs(xs: &[&str]) -> Vec<String> {
    let mut v: Vec<String> = Vec::new();
    for x in xs {
        v.push(x.to_string());
    }
    v
}

fn pairs_of(r: &SrcDestFiles) -> Vec<(String, String)> {
    let mut v: Vec<(String, String)> = Vec::new();
    let mut i = 0;
    while i < r.len() {
        v.push((r.src_at(i).clone(), r.dest_at(i).clone()));
        i += 1;
    }
    v
}

const LISTING: &str = "/sdcard/DCIM:\na.jpg\nb.jpg\n/sdcard/DCIM/sub:\nc.jpg\n";

#[test]
fn end_to_end_plan() {
    let ps = PatternSet::new(&strs(&[]), &strs(&[])).unwrap();
    let r = plan_root(LISTING, "/sdcard/DCIM", "out", &strs(&[]), &ps, &strs(&[]), false);
    assert_eq!(
        pairs_of(&r),
        vec![
            ("/sdcard/DCIM/a.jpg".to_string(), "out/DCIM/a.jpg".to_string()),
            ("/sdcard/DCIM/b.jpg".to_string(), "out/DCIM/b.jpg".to_string()),
            ("/sdcard/DCIM/sub/c.jpg".to_string(), "out/DCIM/sub/c.jpg".to_string()),
        ]
    );
}

#[test]
fn end_to_end_plan_with_exclude() {
    let ps = PatternSet::new(&strs(&[".*"]), &strs(&["\\.jpg$"])).unwrap();
    let r = plan_root(LISTING, "/sdcard/DCIM", "out", &strs(&[]), &ps, &strs(&[]), false);
    assert!(r.is_empty());
}

#[test]
fn end_to_end_plan_with_pre_existing_destination() {
    let ps = PatternSet::new(&strs(&[]), &strs(&[])).unwrap();
    let existing = strs(&["out/DCIM/a.jpg"]);
    let r = plan_root(LISTING, "/sdcard/DCIM", "out", &strs(&[]), &ps, &existing, false);
    assert_eq!(
        pairs_of(&r),
        vec![
            ("/sdcard/DCIM/b.jpg".to_string(), "out/DCIM/b.jpg".to_string()),
            ("/sdcard/DCIM/sub/c.jpg".to_string(), "out/DCIM/sub/c.jpg".to_string()),
        ]
    );
}

#[test]
fn end_to_end_plan_with_skip_list() {
    let ps = PatternSet::new(&strs(&[]), &strs(&[])).unwrap();
    let skip = strs(&["/sdcard/DCIM/b.jpg"]);
    let r = plan_root(LISTING, "/sdcard/DCIM", "out", &skip, &ps, &strs(&[]), false);
    assert_eq!(
        pairs_of(&r),
        vec![
            ("/sdcard/DCIM/a.jpg".to_string(), "out/DCIM/a.jpg".to_string()),
            ("/sdcard/DCIM/sub/c.jpg".to_string(), "out/DCIM/sub/c.jpg".to_string()),
        ]
    );
}

#[test]
fn presets_expand_in_fixed_order() {
    let r = expand_sources(strs(&["/custom"]), true, false, true);
    assert_eq!(
        r,
        strs(&[
            "/custom",
            "/sdcard/DCIM",
            "/sdcard/Pictures",
            "/sdcard/Android/media/com.whatsapp/WhatsApp/Backups",
            "/sdcard/Android/media/com.whatsapp/WhatsApp/Databases",
        ])
    );
    let none = expand_sources(strs(&["/x"]), false, false, false);
    assert_eq!(none, strs(&["/x"]));
    let wa = expand_sources(strs(&[]), false, true, false);
    assert_eq!(wa.len(), 6);
    assert_eq!(
        wa[0],
        "/sdcard/Android/media/com.whatsapp/WhatsApp/Media/WhatsApp Audio".to_string()
    );
}

#[test]
fn device_listing_decides_attachment() {
    assert!(!device_attached("List of devices attached\n\n"));
    assert!(device_attached("List of devices attached\nabc123\tdevice\n"));
    assert!(!device_attached("* daemon started successfully\nList of devices attached\n"));
}
