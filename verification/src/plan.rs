//! The per-root plan: one source root's listing text parsed, filtered
//! and resolved into (source, destination) pairs, the composition of
//! the three stages in their fixed order.

use vstd::prelude::*;

use crate::filters::{filter_files, filter_spec, PatternSet};
use crate::listing::{parse_listing, parse_spec};
use crate::paths::{has_parent, parent_path};
use crate::resolve::{resolve_destinations, resolve_spec, SrcDestFiles};
use crate::text::views;

verus! {

/// The pairs planned for one source root: the listing's paths, filtered
/// through the skip list and the patterns, then resolved against the
/// destination folder.
pub open spec fn plan_spec(
    text: Seq<char>,
    root_src: Seq<char>,
    dest_root: Seq<char>,
    skip: Seq<Seq<char>>,
    inc: Seq<Seq<char>>,
    exc: Seq<Seq<char>>,
    existing: Seq<Seq<char>>,
    force: bool,
) -> (Seq<Seq<char>>, Seq<Seq<char>>) {
    resolve_spec(
        filter_spec(parse_spec(root_src, text), skip, inc, exc),
        parent_path(root_src),
        dest_root,
        existing,
        force,
    )
}

/// Plans one source root: parses its listing text, filters the paths,
/// and resolves each survivor to a destination under `dest_root`.
pub fn plan_root(
    text: &str,
    root_src: &str,
    dest_root: &str,
    skip: &Vec<String>,
    ps: &PatternSet,
    existing: &Vec<String>,
    force: bool,
) -> (r: SrcDestFiles)
    requires
        has_parent(root_src@),
    ensures
        r.wf(),
        r.srcs() == plan_spec(
            text@,
            root_src@,
            dest_root@,
            views(skip@),
            ps.accept_pats(),
            ps.exclude_pats(),
            views(existing@),
            force,
        ).0,
        r.dests() == plan_spec(
            text@,
            root_src@,
            dest_root@,
            views(skip@),
            ps.accept_pats(),
            ps.exclude_pats(),
            views(existing@),
            force,
        ).1,
{
    let files = parse_listing(root_src, text);
    let kept = filter_files(&files, skip, ps);
    resolve_destinations(&kept, root_src, dest_root, existing, force)
}

} // verus!
