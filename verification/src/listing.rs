//! The listing parser: it rebuilds absolute file paths from the flat text
//! of a recursive directory listing, whose only structural signal is the
//! directory-header convention (a line ending in a colon names the
//! directory the following entry lines belong to).

use vstd::prelude::*;

use crate::paths::{is_strictly_under, join_path, join_spec, lemma_join_longer};
use crate::text::{clean_lines, clean_lines_spec, str_eq, views};

verus! {

/// A directory header line: non-empty and ending in a colon.
pub open spec fn is_header(l: Seq<char>) -> bool {
    l.len() > 0 && l.last() == ':'
}

/// The directory a header line names: the colon removed, then one
/// trailing slash if present, though a lone `/` is kept.
pub open spec fn header_path(l: Seq<char>) -> Seq<char> {
    let t = l.drop_last();
    if t.len() > 1 && t.last() == '/' {
        t.drop_last()
    } else {
        t
    }
}

/// `files` with every entry equal to `d` removed.
pub open spec fn remove_path(files: Seq<Seq<char>>, d: Seq<char>) -> Seq<Seq<char>>
    decreases files.len(),
{
    if files.len() == 0 {
        files
    } else {
        let r = remove_path(files.drop_last(), d);
        if files.last() == d {
            r
        } else {
            r.push(files.last())
        }
    }
}

/// The scanner's state: the current directory cursor, the file paths
/// collected so far, and how many header lines have moved the cursor.
pub ghost struct ScanState {
    pub cursor: Seq<char>,
    pub files: Seq<Seq<char>>,
    pub dirs: nat,
}

/// One line of the scan. A header line moves the cursor to the directory
/// it names and removes any stale entry equal to that directory — the
/// header proves it is a directory, not a file. Any other line is an
/// entry under the cursor.
pub open spec fn scan_step(st: ScanState, line: Seq<char>) -> ScanState {
    if is_header(line) {
        ScanState {
            cursor: header_path(line),
            files: remove_path(st.files, header_path(line)),
            dirs: st.dirs + 1,
        }
    } else {
        ScanState { cursor: st.cursor, files: st.files.push(join_spec(st.cursor, line)), dirs: st.dirs }
    }
}

pub open spec fn scan_init(root: Seq<char>) -> ScanState {
    ScanState { cursor: root, files: Seq::<Seq<char>>::empty(), dirs: 0 }
}

/// The scanner folded over all lines, starting from the root as cursor.
pub open spec fn scan_lines(root: Seq<char>, lines: Seq<Seq<char>>) -> ScanState
    decreases lines.len(),
{
    if lines.len() == 0 {
        scan_init(root)
    } else {
        scan_step(scan_lines(root, lines.drop_last()), lines.last())
    }
}

/// The paths of the header lines among `lines`, in order.
pub open spec fn header_paths(lines: Seq<Seq<char>>) -> Seq<Seq<char>>
    decreases lines.len(),
{
    if lines.len() == 0 {
        Seq::<Seq<char>>::empty()
    } else {
        let r = header_paths(lines.drop_last());
        if is_header(lines.last()) {
            r.push(header_path(lines.last()))
        } else {
            r
        }
    }
}

/// The parse of a listing, given its non-empty trimmed lines. A single
/// line that is not a header is the literal path of a single file — the
/// listed target was a file, not a directory; anything else is scanned
/// block by block.
pub open spec fn parse_lines_spec(root: Seq<char>, lines: Seq<Seq<char>>) -> Seq<Seq<char>> {
    if lines.len() == 1 && !is_header(lines[0]) {
        seq![lines[0]]
    } else {
        scan_lines(root, lines).files
    }
}

/// The parse of a listing's raw text under `root`.
pub open spec fn parse_spec(root: Seq<char>, text: Seq<char>) -> Seq<Seq<char>> {
    parse_lines_spec(root, clean_lines_spec(text))
}

proof fn lemma_contains_push(s: Seq<Seq<char>>, y: Seq<char>, x: Seq<char>)
    ensures
        s.push(y).contains(x) <==> (s.contains(x) || x == y),
{
    if s.push(y).contains(x) {
        let i = choose|i: int| 0 <= i < s.push(y).len() && s.push(y)[i] == x;
        if i < s.len() {
            assert(s[i] == x);
        }
    }
    if s.contains(x) {
        let i = choose|i: int| 0 <= i < s.len() && s[i] == x;
        assert(s.push(y)[i] == x);
    }
    if x == y {
        assert(s.push(y)[s.len() as int] == x);
    }
}

pub proof fn lemma_remove_path_contains(files: Seq<Seq<char>>, d: Seq<char>, x: Seq<char>)
    ensures
        remove_path(files, d).contains(x) <==> (files.contains(x) && x != d),
    decreases files.len(),
{
    if files.len() == 0 {
        assert(!files.contains(x));
        assert(!remove_path(files, d).contains(x));
    } else {
        let fl = files.drop_last();
        let y = files.last();
        lemma_remove_path_contains(fl, d, x);
        assert(files =~= fl.push(y));
        lemma_contains_push(fl, y, x);
        if y != d {
            lemma_contains_push(remove_path(fl, d), y, x);
        }
    }
}

/// Removes every entry equal to `d` from the collected files.
fn remove_matching(files: &Vec<String>, d: &str) -> (r: Vec<String>)
    ensures
        views(r@) == remove_path(views(files@), d@),
{
    let mut r: Vec<String> = Vec::new();
    let n = files.len();
    let mut i: usize = 0;
    proof {
        assert(views(files@).take(0) =~= Seq::<Seq<char>>::empty());
        assert(views(r@) =~= remove_path(views(files@).take(0), d@));
    }
    while i < n
        invariant
            n == files@.len(),
            0 <= i <= n,
            views(r@) == remove_path(views(files@).take(i as int), d@),
        decreases n - i,
    {
        let keep = !str_eq(files[i].as_str(), d);
        proof {
            let fs = views(files@);
            assert(fs.take(i + 1 as int).drop_last() =~= fs.take(i as int));
            assert(fs.take(i + 1 as int).last() == fs[i as int]);
            assert(fs[i as int] == files@[i as int]@);
        }
        if keep {
            let c = files[i].clone();
            proof {
                assert(views(r@.push(c)) =~= views(r@).push(c@));
            }
            r.push(c);
        }
        i = i + 1;
    }
    proof {
        assert(views(files@).take(n as int) =~= views(files@));
    }
    r
}

/// The directory a header line names, as a string.
fn header_of(line: &str) -> (r: String)
    requires
        is_header(line@),
    ensures
        r@ == header_path(line@),
{
    let n = line.unicode_len();
    let t = line.substring_char(0, n - 1);
    assert(t@ =~= line@.drop_last());
    if n - 1 > 1 && t.get_char(n - 2) == '/' {
        let u = line.substring_char(0, n - 2);
        assert(u@ =~= t@.drop_last());
        u.to_owned()
    } else {
        t.to_owned()
    }
}

/// Parses a listing already split into non-empty trimmed lines.
pub fn parse_listing_lines(root: &str, lines: &Vec<String>) -> (r: Vec<String>)
    ensures
        views(r@) == parse_lines_spec(root@, views(lines@)),
{
    let n = lines.len();
    if n == 1 {
        let l0 = &lines[0];
        let ln = l0.as_str().unicode_len();
        if !(ln > 0 && l0.as_str().get_char(ln - 1) == ':') {
            let mut r: Vec<String> = Vec::new();
            r.push(l0.clone());
            proof {
                assert(!is_header(views(lines@)[0]));
                assert(views(r@) =~= seq![views(lines@)[0]]);
            }
            return r;
        }
    }
    let mut cursor: String = root.to_owned();
    let mut files: Vec<String> = Vec::new();
    let mut i: usize = 0;
    proof {
        assert(views(lines@).take(0) =~= Seq::<Seq<char>>::empty());
        assert(views(files@) =~= Seq::<Seq<char>>::empty());
    }
    while i < n
        invariant
            n == lines@.len(),
            0 <= i <= n,
            n == 1 ==> is_header(views(lines@)[0]),
            views(files@) == scan_lines(root@, views(lines@).take(i as int)).files,
            cursor@ == scan_lines(root@, views(lines@).take(i as int)).cursor,
        decreases n - i,
    {
        let line = &lines[i];
        let ln = line.as_str().unicode_len();
        proof {
            let ls = views(lines@);
            assert(ls.take(i + 1 as int).drop_last() =~= ls.take(i as int));
            assert(ls.take(i + 1 as int).last() == ls[i as int]);
            assert(ls[i as int] == lines@[i as int]@);
        }
        if ln > 0 && line.as_str().get_char(ln - 1) == ':' {
            let d = header_of(line.as_str());
            let nf = remove_matching(&files, d.as_str());
            files = nf;
            cursor = d;
        } else {
            assert(!is_header(lines@[i as int]@));
            let fp = join_path(cursor.as_str(), line.as_str());
            proof {
                assert(views(files@.push(fp)) =~= views(files@).push(fp@));
            }
            files.push(fp);
        }
        i = i + 1;
    }
    proof {
        assert(views(lines@).take(n as int) =~= views(lines@));
    }
    files
}

/// Parses the raw text of a recursive listing rooted at `root` into the
/// absolute paths it names, in discovery order.
pub fn parse_listing(root: &str, text: &str) -> (r: Vec<String>)
    ensures
        views(r@) == parse_spec(root@, text@),
{
    let lines = clean_lines(text);
    parse_listing_lines(root, &lines)
}

/// Law: a listing of exactly one non-empty line that is not a directory
/// header parses to that one literal path. (A lone header line — an
/// empty directory's listing — instead parses to nothing.)
pub proof fn lemma_single_line_literal(root: Seq<char>, line: Seq<char>)
    requires
        line.len() > 0,
        !is_header(line),
    ensures
        parse_lines_spec(root, seq![line]) == seq![line],
{
    assert(seq![line][0] == line);
}

/// Law: the scanner moves the cursor exactly once for each header line,
/// so the number of cursor updates equals the number of headers; when
/// the header paths are pairwise distinct, it equals the number of
/// distinct header-named directories.
pub proof fn lemma_one_update_per_header(root: Seq<char>, lines: Seq<Seq<char>>)
    ensures
        scan_lines(root, lines).dirs == header_paths(lines).len(),
        header_paths(lines).no_duplicates() ==> header_paths(lines).to_set().len() == scan_lines(
            root,
            lines,
        ).dirs,
    decreases lines.len(),
{
    if lines.len() > 0 {
        lemma_one_update_per_header(root, lines.drop_last());
    }
    if header_paths(lines).no_duplicates() {
        header_paths(lines).unique_seq_to_set();
    }
}

proof fn lemma_scan_invariant(root: Seq<char>, lines: Seq<Seq<char>>)
    requires
        forall|i: int, j: int|
            0 <= i < j < lines.len() && is_header(#[trigger] lines[i]) && is_header(
                #[trigger] lines[j],
            ) ==> !is_strictly_under(header_path(lines[i]), header_path(lines[j])),
        forall|i: int| 0 <= i < lines.len() ==> (#[trigger] lines[i]).len() > 0,
    ensures
        forall|i: int|
            0 <= i < lines.len() && is_header(#[trigger] lines[i]) ==> !scan_lines(
                root,
                lines,
            ).files.contains(header_path(lines[i])),
        (forall|i: int| 0 <= i < lines.len() ==> !is_header(#[trigger] lines[i])) ==> scan_lines(
            root,
            lines,
        ).cursor == root,
        (exists|i: int| 0 <= i < lines.len() && is_header(#[trigger] lines[i])) ==> (exists|k: int|
            0 <= k < lines.len() && is_header(#[trigger] lines[k]) && scan_lines(root, lines).cursor
                == header_path(lines[k]) && (forall|j: int|
                k < j < lines.len() ==> !is_header(#[trigger] lines[j]))),
    decreases lines.len(),
{
    if lines.len() == 0 {
        return ;
    }
    let ln = lines.drop_last();
    let l = lines.last();
    let st = scan_lines(root, ln);
    let st2 = scan_lines(root, lines);
    assert(forall|i: int| 0 <= i < ln.len() ==> ln[i] == lines[i]);
    lemma_scan_invariant(root, ln);
    if is_header(l) {
        let d = header_path(l);
        assert forall|i: int|
            0 <= i < lines.len() && is_header(#[trigger] lines[i]) implies !st2.files.contains(
            header_path(lines[i]),
        ) by {
            lemma_remove_path_contains(st.files, d, header_path(lines[i]));
            if i < lines.len() - 1 {
                assert(!st.files.contains(header_path(lines[i])));
            } else {
                assert(header_path(lines[i]) == d);
            }
        }
        assert(is_header(lines[lines.len() - 1]));
        assert(st2.cursor == d);
    } else {
        let e = join_spec(st.cursor, l);
        assert(st2.files == st.files.push(e));
        if exists|i: int| 0 <= i < ln.len() && is_header(#[trigger] ln[i]) {
            let k = choose|k: int|
                0 <= k < ln.len() && is_header(#[trigger] ln[k]) && st.cursor == header_path(ln[k])
                    && (forall|j: int| k < j < ln.len() ==> !is_header(#[trigger] ln[j]));
            assert forall|i: int|
                0 <= i < lines.len() && is_header(#[trigger] lines[i]) implies !st2.files.contains(
                header_path(lines[i]),
            ) by {
                lemma_contains_push(st.files, e, header_path(lines[i]));
                assert(i < lines.len() - 1);
                assert(!st.files.contains(header_path(lines[i])));
                if header_path(lines[i]) == e {
                    // the new entry would equal an earlier header
                    if i == k {
                        lemma_join_longer(st.cursor, l);
                        assert(false);
                    } else {
                        assert(i < k);
                        assert(is_strictly_under(header_path(lines[i]), header_path(lines[k])));
                        assert(false);
                    }
                }
            }
            assert(st2.cursor == header_path(lines[k]));
            assert(forall|j: int| k < j < lines.len() ==> !is_header(#[trigger] lines[j]));
        } else {
            assert forall|i: int|
                0 <= i < lines.len() && is_header(#[trigger] lines[i]) implies !st2.files.contains(
                header_path(lines[i]),
            ) by {
                assert(i < lines.len() - 1);
                assert(is_header(ln[i]));
                assert(false);
            }
            assert(st2.cursor == root);
        }
    }
}

/// Law: no stale entries survive. When header lines appear parents
/// before children — no earlier header names a directory strictly under
/// a later header's directory, as a depth-first recursive listing prints
/// them — no path that a header line proves to be a directory remains
/// among the scanned files.
pub proof fn lemma_no_stale_entries(root: Seq<char>, lines: Seq<Seq<char>>)
    requires
        forall|i: int, j: int|
            0 <= i < j < lines.len() && is_header(#[trigger] lines[i]) && is_header(
                #[trigger] lines[j],
            ) ==> !is_strictly_under(header_path(lines[i]), header_path(lines[j])),
        forall|i: int| 0 <= i < lines.len() ==> (#[trigger] lines[i]).len() > 0,
    ensures
        forall|i: int|
            0 <= i < lines.len() && is_header(#[trigger] lines[i]) ==> !scan_lines(
                root,
                lines,
            ).files.contains(header_path(lines[i])),
{
    lemma_scan_invariant(root, lines);
}

/// Law: no stale entries in a parsed listing, stated of the raw text.
/// Under the same parents-before-children ordering of its header lines,
/// no directory a header names appears among the parsed file paths.
pub proof fn lemma_no_stale_entries_in_parse(root: Seq<char>, text: Seq<char>)
    requires
        forall|i: int, j: int|
            0 <= i < j < clean_lines_spec(text).len() && is_header(
                #[trigger] clean_lines_spec(text)[i],
            ) && is_header(#[trigger] clean_lines_spec(text)[j]) ==> !is_strictly_under(
                header_path(clean_lines_spec(text)[i]),
                header_path(clean_lines_spec(text)[j]),
            ),
    ensures
        forall|i: int|
            0 <= i < clean_lines_spec(text).len() && is_header(#[trigger] clean_lines_spec(text)[i])
                ==> !parse_spec(root, text).contains(header_path(clean_lines_spec(text)[i])),
{
    let lines = clean_lines_spec(text);
    crate::text::lemma_clean_lines_nonempty(text);
    lemma_no_stale_entries(root, lines);
}

} // verus!
