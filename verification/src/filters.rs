//! The filter engine: drops candidate paths that sit in the skip list,
//! keeps only those matching an accept pattern when accept patterns
//! were supplied, and drops those matching an exclude pattern — in that
//! fixed order. Regular-expression matching is done by an outside
//! engine behind trusted wrappers.

use vstd::prelude::*;

use crate::text::{lines_of, lines_spec, str_eq, views};

verus! {

#[verifier::external_type_specification]
#[verifier::external_body]
pub struct ExRegex(regex::Regex);

/// The pattern text a compiled regular expression was built from, as
/// `regex::Regex::as_str` returns it.
pub uninterp spec fn regex_pattern(re: regex::Regex) -> Seq<char>;

/// Whether `pattern` is a valid regular expression that compiles within
/// the engine's default size limit.
pub uninterp spec fn regex_compiles(pattern: Seq<char>) -> bool;

/// Whether the regular expression `pattern` matches anywhere in `text`;
/// a function of the pattern and the text alone.
pub uninterp spec fn regex_match(pattern: Seq<char>, text: Seq<char>) -> bool;

/// Relies on regex::Regex::new: it returns Ok exactly when the pattern
/// compiles (and fits the default size limit), and the compiled value
/// keeps the pattern text it was built from.
#[verifier::external_body]
fn regex_new(pattern: &str) -> (r: Option<regex::Regex>)
    ensures
        r is Some <==> regex_compiles(pattern@),
        r matches Some(re) ==> regex_pattern(re) == pattern@,
{
    regex::Regex::new(pattern).ok()
}

/// Relies on regex::Regex::is_match: whether there is a match for the
/// compiled pattern anywhere in the text, a function of the pattern and
/// the text alone.
#[verifier::external_body]
fn regex_is_match(re: &regex::Regex, text: &str) -> (r: bool)
    ensures
        r == regex_match(regex_pattern(*re), text@),
{
    re.is_match(text)
}

/// The pattern texts of a sequence of compiled regular expressions.
pub open spec fn pats_of(rs: Seq<regex::Regex>) -> Seq<Seq<char>> {
    rs.map_values(|re: regex::Regex| regex_pattern(re))
}

/// Some pattern among `pats` matches `p`.
pub open spec fn matches_any(pats: Seq<Seq<char>>, p: Seq<char>) -> bool {
    exists|i: int| 0 <= i < pats.len() && regex_match(pats[i], p)
}

/// Whether `p` survives all three stages: it is not in the skip list;
/// if accept patterns were supplied it matches at least one of them;
/// and it matches no exclude pattern.
pub open spec fn keep_spec(
    p: Seq<char>,
    skip: Seq<Seq<char>>,
    inc: Seq<Seq<char>>,
    exc: Seq<Seq<char>>,
) -> bool {
    &&& !skip.contains(p)
    &&& (inc.len() == 0 || matches_any(inc, p))
    &&& !matches_any(exc, p)
}

/// The subsequence of `files` that survives the three stages, in order.
pub open spec fn filter_spec(
    files: Seq<Seq<char>>,
    skip: Seq<Seq<char>>,
    inc: Seq<Seq<char>>,
    exc: Seq<Seq<char>>,
) -> Seq<Seq<char>>
    decreases files.len(),
{
    if files.len() == 0 {
        files
    } else {
        let r = filter_spec(files.drop_last(), skip, inc, exc);
        if keep_spec(files.last(), skip, inc, exc) {
            r.push(files.last())
        } else {
            r
        }
    }
}

/// The accept and exclude patterns, compiled once before filtering.
pub struct PatternSet {
    accept: Vec<regex::Regex>,
    exclude: Vec<regex::Regex>,
}

impl PatternSet {
    /// The accept pattern texts, in order.
    pub closed spec fn accept_pats(&self) -> Seq<Seq<char>> {
        pats_of(self.accept@)
    }

    /// The exclude pattern texts, in order.
    pub closed spec fn exclude_pats(&self) -> Seq<Seq<char>> {
        pats_of(self.exclude@)
    }

    /// Compiles the accept and exclude patterns; `None` exactly when
    /// some pattern does not compile.
    pub fn new(accept: &Vec<String>, exclude: &Vec<String>) -> (r: Option<PatternSet>)
        ensures
            r is Some <==> ((forall|i: int|
                0 <= i < accept@.len() ==> regex_compiles(#[trigger] accept@[i]@)) && (forall|
                j: int|
                0 <= j < exclude@.len() ==> regex_compiles(#[trigger] exclude@[j]@))),
            r matches Some(ps) ==> ps.accept_pats() == views(accept@) && ps.exclude_pats()
                == views(exclude@),
    {
        let inc = match compile_all(accept) {
            Some(v) => v,
            None => {
                return None;
            },
        };
        let exc = match compile_all(exclude) {
            Some(v) => v,
            None => {
                return None;
            },
        };
        Some(PatternSet { accept: inc, exclude: exc })
    }
}

/// Compiles every pattern in `pats`; `None` exactly when one fails.
fn compile_all(pats: &Vec<String>) -> (r: Option<Vec<regex::Regex>>)
    ensures
        r is Some <==> (forall|i: int| 0 <= i < pats@.len() ==> regex_compiles(#[trigger] pats@[i]@)),
        r matches Some(v) ==> pats_of(v@) == views(pats@),
{
    let mut out: Vec<regex::Regex> = Vec::new();
    let n = pats.len();
    let mut i: usize = 0;
    proof {
        assert(pats_of(out@) =~= views(pats@).take(0));
    }
    while i < n
        invariant
            n == pats@.len(),
            0 <= i <= n,
            forall|k: int| 0 <= k < i ==> regex_compiles(#[trigger] pats@[k]@),
            pats_of(out@) == views(pats@).take(i as int),
        decreases n - i,
    {
        match regex_new(pats[i].as_str()) {
            Some(re) => {
                proof {
                    assert(pats_of(out@.push(re)) =~= pats_of(out@).push(regex_pattern(re)));
                    assert(views(pats@).take(i + 1 as int) =~= views(pats@).take(i as int).push(
                        pats@[i as int]@,
                    ));
                }
                out.push(re);
            },
            None => {
                assert(!regex_compiles(pats@[i as int]@));
                return None;
            },
        }
        i = i + 1;
    }
    proof {
        assert(views(pats@).take(n as int) =~= views(pats@));
    }
    Some(out)
}

/// Whether `s` is an element of `v`, by string equality.
pub fn contains_str(v: &Vec<String>, s: &str) -> (r: bool)
    ensures
        r == views(v@).contains(s@),
{
    let n = v.len();
    let mut i: usize = 0;
    while i < n
        invariant
            n == v@.len(),
            0 <= i <= n,
            forall|k: int| 0 <= k < i ==> views(v@)[k] != s@,
        decreases n - i,
    {
        if str_eq(v[i].as_str(), s) {
            assert(views(v@)[i as int] == s@);
            return true;
        }
        i = i + 1;
    }
    assert(forall|k: int| 0 <= k < views(v@).len() ==> views(v@)[k] != s@);
    false
}

/// Whether some compiled pattern matches `s`.
fn matches_any_exec(rs: &Vec<regex::Regex>, s: &str) -> (r: bool)
    ensures
        r == matches_any(pats_of(rs@), s@),
{
    let n = rs.len();
    let mut i: usize = 0;
    while i < n
        invariant
            n == rs@.len(),
            0 <= i <= n,
            forall|k: int| 0 <= k < i ==> !regex_match(pats_of(rs@)[k], s@),
        decreases n - i,
    {
        if regex_is_match(&rs[i], s) {
            assert(pats_of(rs@)[i as int] == regex_pattern(rs@[i as int]));
            return true;
        }
        i = i + 1;
    }
    false
}

/// Applies the three stages to `files`: skip list, accept patterns,
/// exclude patterns. Only removes entries; never reorders.
pub fn filter_files(files: &Vec<String>, skip: &Vec<String>, ps: &PatternSet) -> (r: Vec<String>)
    ensures
        views(r@) == filter_spec(
            views(files@),
            views(skip@),
            ps.accept_pats(),
            ps.exclude_pats(),
        ),
{
    let ghost sk = views(skip@);
    let ghost inc = ps.accept_pats();
    let ghost exc = ps.exclude_pats();
    let mut out: Vec<String> = Vec::new();
    let n = files.len();
    let mut i: usize = 0;
    proof {
        assert(views(files@).take(0) =~= Seq::<Seq<char>>::empty());
        assert(views(out@) =~= filter_spec(views(files@).take(0), sk, inc, exc));
    }
    while i < n
        invariant
            n == files@.len(),
            0 <= i <= n,
            sk == views(skip@),
            inc == ps.accept_pats(),
            exc == ps.exclude_pats(),
            views(out@) == filter_spec(views(files@).take(i as int), sk, inc, exc),
        decreases n - i,
    {
        let f = &files[i];
        let in_skip = contains_str(skip, f.as_str());
        let inc_len = ps.accept.len();
        let inc_ok = if inc_len == 0 {
            true
        } else {
            matches_any_exec(&ps.accept, f.as_str())
        };
        let exc_hit = matches_any_exec(&ps.exclude, f.as_str());
        let keep = !in_skip && inc_ok && !exc_hit;
        proof {
            let fs = views(files@);
            assert(fs.take(i + 1 as int).drop_last() =~= fs.take(i as int));
            assert(fs.take(i + 1 as int).last() == fs[i as int]);
            assert(fs[i as int] == files@[i as int]@);
            assert(keep == keep_spec(fs[i as int], sk, inc, exc));
        }
        if keep {
            let c = f.clone();
            proof {
                assert(views(out@.push(c)) =~= views(out@).push(c@));
            }
            out.push(c);
        }
        i = i + 1;
    }
    proof {
        assert(views(files@).take(n as int) =~= views(files@));
    }
    out
}

/// The concatenated lines of the given skip-list file contents, in order.
pub open spec fn skip_lines_spec(texts: Seq<Seq<char>>) -> Seq<Seq<char>>
    decreases texts.len(),
{
    if texts.len() == 0 {
        Seq::<Seq<char>>::empty()
    } else {
        skip_lines_spec(texts.drop_last()) + lines_spec(texts.last())
    }
}

/// Collects the skip list: every line of every skip file's text, in order.
pub fn collect_skip_lines(texts: &Vec<String>) -> (r: Vec<String>)
    ensures
        views(r@) == skip_lines_spec(views(texts@)),
{
    let mut out: Vec<String> = Vec::new();
    let n = texts.len();
    let mut i: usize = 0;
    proof {
        assert(views(texts@).take(0) =~= Seq::<Seq<char>>::empty());
        assert(views(out@) =~= skip_lines_spec(views(texts@).take(0)));
    }
    while i < n
        invariant
            n == texts@.len(),
            0 <= i <= n,
            views(out@) == skip_lines_spec(views(texts@).take(i as int)),
        decreases n - i,
    {
        let mut ls = lines_of(texts[i].as_str());
        proof {
            let ts = views(texts@);
            assert(ts.take(i + 1 as int).drop_last() =~= ts.take(i as int));
            assert(ts.take(i + 1 as int).last() == ts[i as int]);
            assert(ts[i as int] == texts@[i as int]@);
            assert(views(out@ + ls@) =~= views(out@) + views(ls@));
        }
        out.append(&mut ls);
        i = i + 1;
    }
    proof {
        assert(views(texts@).take(n as int) =~= views(texts@));
    }
    out
}

/// Law: filtering only removes — the output is never longer than the
/// input.
pub proof fn lemma_filter_shrinks(
    files: Seq<Seq<char>>,
    skip: Seq<Seq<char>>,
    inc: Seq<Seq<char>>,
    exc: Seq<Seq<char>>,
)
    ensures
        filter_spec(files, skip, inc, exc).len() <= files.len(),
    decreases files.len(),
{
    if files.len() > 0 {
        lemma_filter_shrinks(files.drop_last(), skip, inc, exc);
    }
}

/// Law: an empty skip list together with no accept and no exclude
/// patterns filters nothing — the stage is the identity.
pub proof fn lemma_filter_no_rules_identity(files: Seq<Seq<char>>)
    ensures
        filter_spec(
            files,
            Seq::<Seq<char>>::empty(),
            Seq::<Seq<char>>::empty(),
            Seq::<Seq<char>>::empty(),
        ) == files,
    decreases files.len(),
{
    if files.len() > 0 {
        lemma_filter_no_rules_identity(files.drop_last());
        assert(!Seq::<Seq<char>>::empty().contains(files.last()));
        assert(filter_spec(
            files,
            Seq::<Seq<char>>::empty(),
            Seq::<Seq<char>>::empty(),
            Seq::<Seq<char>>::empty(),
        ) =~= files);
    }
}

} // verus!
