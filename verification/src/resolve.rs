//! The destination resolver: each surviving remote path is re-rooted
//! under the destination folder by the part of it below the source
//! root's parent; paths that cannot be re-rooted are dropped with their
//! diagnostics left to the caller, and paths whose destination already
//! exists are dropped unless overwriting is forced. The selected pairs
//! are held in two collections paired by index.

use vstd::prelude::*;

use crate::filters::contains_str;
use crate::paths::{has_parent, join_path, join_spec, parent_dir, parent_path, strip_prefix_spec,
    strip_prefix_str};
use crate::text::views;

verus! {

/// The local destination computed for the remote path `f`: `f` made
/// relative to `base` (the parent of the source root) and re-rooted
/// under `dest_root`; `None` when `f` does not lie under `base`.
pub open spec fn candidate_spec(f: Seq<char>, base: Seq<char>, dest_root: Seq<char>) -> Option<
    Seq<char>,
> {
    match strip_prefix_spec(f, base) {
        Option::Some(rel) => Option::Some(join_spec(dest_root, rel)),
        Option::None => Option::None,
    }
}

/// The pairs the resolver selects, as two parallel sequences of sources
/// and destinations: a file is kept when it can be re-rooted and its
/// destination is not already present (unless `force`).
pub open spec fn resolve_spec(
    files: Seq<Seq<char>>,
    base: Seq<char>,
    dest_root: Seq<char>,
    existing: Seq<Seq<char>>,
    force: bool,
) -> (Seq<Seq<char>>, Seq<Seq<char>>)
    decreases files.len(),
{
    if files.len() == 0 {
        (Seq::<Seq<char>>::empty(), Seq::<Seq<char>>::empty())
    } else {
        let prev = resolve_spec(files.drop_last(), base, dest_root, existing, force);
        let f = files.last();
        match candidate_spec(f, base, dest_root) {
            Option::Some(d) => if force || !existing.contains(d) {
                (prev.0.push(f), prev.1.push(d))
            } else {
                prev
            },
            Option::None => prev,
        }
    }
}

/// The selected transfers: remote sources and local destinations,
/// paired by index. The two collections always have the same length.
pub struct SrcDestFiles {
    src_files: Vec<String>,
    dest_files: Vec<String>,
}

impl SrcDestFiles {
    /// The remote source paths, in order.
    pub closed spec fn srcs(&self) -> Seq<Seq<char>> {
        views(self.src_files@)
    }

    /// The local destination paths, in order.
    pub closed spec fn dests(&self) -> Seq<Seq<char>> {
        views(self.dest_files@)
    }

    /// The parallel-array invariant: one destination for each source.
    pub open spec fn wf(&self) -> bool {
        self.srcs().len() == self.dests().len()
    }

    pub fn new() -> (r: SrcDestFiles)
        ensures
            r.wf(),
            r.srcs() == Seq::<Seq<char>>::empty(),
            r.dests() == Seq::<Seq<char>>::empty(),
    {
        let r = SrcDestFiles { src_files: Vec::new(), dest_files: Vec::new() };
        proof {
            assert(r.srcs() =~= Seq::<Seq<char>>::empty());
            assert(r.dests() =~= Seq::<Seq<char>>::empty());
        }
        r
    }

    pub fn len(&self) -> (n: usize)
        ensures
            n == self.srcs().len(),
    {
        self.src_files.len()
    }

    pub fn is_empty(&self) -> (r: bool)
        ensures
            r == (self.srcs().len() == 0),
    {
        self.src_files.is_empty()
    }

    /// Appends one (source, destination) pair, preserving the pairing.
    pub fn push_pair(&mut self, src: String, dest: String)
        requires
            old(self).wf(),
        ensures
            final(self).wf(),
            final(self).srcs() == old(self).srcs().push(src@),
            final(self).dests() == old(self).dests().push(dest@),
    {
        proof {
            assert(views(self.src_files@.push(src)) =~= views(self.src_files@).push(src@));
            assert(views(self.dest_files@.push(dest)) =~= views(self.dest_files@).push(dest@));
        }
        self.src_files.push(src);
        self.dest_files.push(dest);
    }

    /// Moves every pair of `other` to the end of `self`, in order,
    /// preserving the pairing.
    pub fn extend_from(&mut self, other: SrcDestFiles)
        requires
            old(self).wf(),
            other.wf(),
        ensures
            final(self).wf(),
            final(self).srcs() == old(self).srcs() + other.srcs(),
            final(self).dests() == old(self).dests() + other.dests(),
    {
        let mut o = other;
        proof {
            assert(views(self.src_files@ + o.src_files@) =~= views(self.src_files@) + views(
                o.src_files@,
            ));
            assert(views(self.dest_files@ + o.dest_files@) =~= views(self.dest_files@) + views(
                o.dest_files@,
            ));
        }
        self.src_files.append(&mut o.src_files);
        self.dest_files.append(&mut o.dest_files);
    }

    pub fn src_at(&self, i: usize) -> (r: &String)
        requires
            i < self.srcs().len(),
        ensures
            r@ == self.srcs()[i as int],
    {
        &self.src_files[i]
    }

    pub fn dest_at(&self, i: usize) -> (r: &String)
        requires
            i < self.dests().len(),
            self.wf(),
        ensures
            r@ == self.dests()[i as int],
    {
        &self.dest_files[i]
    }
}

/// The local destination for one remote path, or `None` when the source
/// root has no parent directory or the path does not lie under it.
pub fn candidate_destination(file: &str, root_src: &str, dest_root: &str) -> (r: Option<String>)
    ensures
        r is Some <==> (has_parent(root_src@) && strip_prefix_spec(
            file@,
            parent_path(root_src@),
        ) is Some),
        r matches Some(d) ==> Option::Some(d@) == candidate_spec(
            file@,
            parent_path(root_src@),
            dest_root@,
        ),
{
    let base = match parent_dir(root_src) {
        Some(b) => b,
        None => {
            return None;
        },
    };
    match strip_prefix_str(file, base.as_str()) {
        Some(rel) => Some(join_path(dest_root, rel.as_str())),
        None => None,
    }
}

/// Resolves every candidate file against the destination folder: each
/// file that lies under the source root's parent and whose destination
/// is not among `existing` (unless `force`) contributes one pair.
pub fn resolve_destinations(
    files: &Vec<String>,
    root_src: &str,
    dest_root: &str,
    existing: &Vec<String>,
    force: bool,
) -> (r: SrcDestFiles)
    requires
        has_parent(root_src@),
    ensures
        r.wf(),
        r.srcs() == resolve_spec(
            views(files@),
            parent_path(root_src@),
            dest_root@,
            views(existing@),
            force,
        ).0,
        r.dests() == resolve_spec(
            views(files@),
            parent_path(root_src@),
            dest_root@,
            views(existing@),
            force,
        ).1,
{
    let ghost b = parent_path(root_src@);
    let ghost ex = views(existing@);
    let base = match parent_dir(root_src) {
        Some(p) => p,
        None => {
            assert(false);
            return SrcDestFiles::new();
        },
    };
    let mut r = SrcDestFiles::new();
    let n = files.len();
    let mut i: usize = 0;
    proof {
        assert(views(files@).take(0) =~= Seq::<Seq<char>>::empty());
    }
    while i < n
        invariant
            n == files@.len(),
            0 <= i <= n,
            base@ == b,
            ex == views(existing@),
            r.wf(),
            r.srcs() == resolve_spec(views(files@).take(i as int), b, dest_root@, ex, force).0,
            r.dests() == resolve_spec(views(files@).take(i as int), b, dest_root@, ex, force).1,
        decreases n - i,
    {
        let f = &files[i];
        proof {
            let fs = views(files@);
            assert(fs.take(i + 1 as int).drop_last() =~= fs.take(i as int));
            assert(fs.take(i + 1 as int).last() == fs[i as int]);
            assert(fs[i as int] == files@[i as int]@);
        }
        match strip_prefix_str(f.as_str(), base.as_str()) {
            Some(rel) => {
                let d = join_path(dest_root, rel.as_str());
                let hit = contains_str(existing, d.as_str());
                if force || !hit {
                    r.push_pair(f.clone(), d);
                }
            },
            None => {},
        }
        i = i + 1;
    }
    proof {
        assert(views(files@).take(n as int) =~= views(files@));
    }
    r
}

/// Law: the resolver's two outputs always have the same length — the
/// parallel-array invariant holds of everything it selects.
pub proof fn lemma_resolver_parallel(
    files: Seq<Seq<char>>,
    base: Seq<char>,
    dest_root: Seq<char>,
    existing: Seq<Seq<char>>,
    force: bool,
)
    ensures
        resolve_spec(files, base, dest_root, existing, force).0.len() == resolve_spec(
            files,
            base,
            dest_root,
            existing,
            force,
        ).1.len(),
    decreases files.len(),
{
    if files.len() > 0 {
        lemma_resolver_parallel(files.drop_last(), base, dest_root, existing, force);
    }
}

/// Law: resolving is idempotent. When a second resolve of the same files
/// runs without overwrite against a destination that still holds what
/// existed before and now also holds every destination the first resolve
/// selected, it selects nothing.
pub proof fn lemma_resolver_idempotent(
    files: Seq<Seq<char>>,
    base: Seq<char>,
    dest_root: Seq<char>,
    existing: Seq<Seq<char>>,
    existing2: Seq<Seq<char>>,
)
    requires
        forall|d: Seq<char>| #[trigger] existing.contains(d) ==> existing2.contains(d),
        forall|i: int|
            0 <= i < resolve_spec(files, base, dest_root, existing, false).1.len()
                ==> existing2.contains(
                #[trigger] resolve_spec(files, base, dest_root, existing, false).1[i],
            ),
    ensures
        resolve_spec(files, base, dest_root, existing2, false).0.len() == 0,
        resolve_spec(files, base, dest_root, existing2, false).1.len() == 0,
    decreases files.len(),
{
    if files.len() > 0 {
        let fl = files.drop_last();
        let r1full = resolve_spec(files, base, dest_root, existing, false);
        let r1 = resolve_spec(fl, base, dest_root, existing, false);
        assert(forall|i: int| 0 <= i < r1.1.len() ==> r1.1[i] == r1full.1[i]);
        lemma_resolver_idempotent(fl, base, dest_root, existing, existing2);
        match candidate_spec(files.last(), base, dest_root) {
            Option::Some(d) => {
                if existing.contains(d) {
                    assert(existing2.contains(d));
                } else {
                    assert(r1full.1.last() == d);
                    assert(existing2.contains(r1full.1[r1full.1.len() - 1]));
                }
            },
            Option::None => {},
        }
    }
}

} // verus!
