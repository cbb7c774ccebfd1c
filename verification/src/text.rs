//! Character-level text utilities: equality and suffix tests, whitespace
//! trimming, and newline splitting, each verified against a spec function.

use vstd::prelude::*;

verus! {

/// The views of a sequence of strings, as sequences of characters.
pub open spec fn views(v: Seq<String>) -> Seq<Seq<char>> {
    v.map_values(|s: String| s@)
}

/// A whitespace character, as trimmed from listing lines.
pub open spec fn is_ws(c: char) -> bool {
    c == ' ' || c == '\t' || c == '\r' || c == '\n'
}

/// `s` with leading whitespace removed.
pub open spec fn trim_start_spec(s: Seq<char>) -> Seq<char>
    decreases s.len(),
{
    if s.len() > 0 && is_ws(s[0]) {
        trim_start_spec(s.drop_first())
    } else {
        s
    }
}

/// `s` with trailing whitespace removed.
pub open spec fn trim_end_spec(s: Seq<char>) -> Seq<char>
    decreases s.len(),
{
    if s.len() > 0 && is_ws(s.last()) {
        trim_end_spec(s.drop_last())
    } else {
        s
    }
}

/// `s` with both leading and trailing whitespace removed.
pub open spec fn trim_spec(s: Seq<char>) -> Seq<char> {
    trim_end_spec(trim_start_spec(s))
}

/// `s` ends with the suffix `suf`.
pub open spec fn ends_with_spec(s: Seq<char>, suf: Seq<char>) -> bool {
    s.len() >= suf.len() && s.skip(s.len() - suf.len()) == suf
}

/// The pieces of `s` between newline characters; one more piece than
/// there are newlines, so the result is never empty.
pub open spec fn split_nl_spec(s: Seq<char>) -> Seq<Seq<char>>
    decreases s.len(),
{
    if s.len() == 0 {
        seq![Seq::<char>::empty()]
    } else if s.last() == '\n' {
        split_nl_spec(s.drop_last()).push(Seq::<char>::empty())
    } else {
        let r = split_nl_spec(s.drop_last());
        r.update(r.len() - 1, r.last().push(s.last()))
    }
}

/// `l` with one trailing carriage return removed, if present.
pub open spec fn strip_cr_spec(l: Seq<char>) -> Seq<char> {
    if l.len() > 0 && l.last() == '\r' {
        l.drop_last()
    } else {
        l
    }
}

/// The lines of `s`: newline-separated, a trailing carriage return
/// dropped from each, and no empty final line when `s` ends in a newline.
pub open spec fn lines_spec(s: Seq<char>) -> Seq<Seq<char>> {
    if s.len() == 0 {
        Seq::<Seq<char>>::empty()
    } else if s.last() == '\n' {
        split_nl_spec(s.drop_last()).map_values(|l: Seq<char>| strip_cr_spec(l))
    } else {
        split_nl_spec(s).map_values(|l: Seq<char>| strip_cr_spec(l))
    }
}

/// The non-empty trimmed pieces among `ps`, in order.
pub open spec fn clean_pieces_spec(ps: Seq<Seq<char>>) -> Seq<Seq<char>>
    decreases ps.len(),
{
    if ps.len() == 0 {
        Seq::<Seq<char>>::empty()
    } else {
        let r = clean_pieces_spec(ps.drop_last());
        let t = trim_spec(ps.last());
        if t.len() > 0 {
            r.push(t)
        } else {
            r
        }
    }
}

/// The non-empty trimmed lines of `s`, in order.
pub open spec fn clean_lines_spec(s: Seq<char>) -> Seq<Seq<char>> {
    clean_pieces_spec(split_nl_spec(s))
}

/// Every line that `clean_lines_spec` keeps is non-empty.
pub proof fn lemma_clean_lines_nonempty(text: Seq<char>)
    ensures
        forall|i: int|
            0 <= i < clean_lines_spec(text).len() ==> (#[trigger] clean_lines_spec(text)[i]).len()
                > 0,
{
    lemma_clean_pieces_nonempty(split_nl_spec(text));
}

proof fn lemma_clean_pieces_nonempty(ps: Seq<Seq<char>>)
    ensures
        forall|i: int|
            0 <= i < clean_pieces_spec(ps).len() ==> (#[trigger] clean_pieces_spec(ps)[i]).len()
                > 0,
    decreases ps.len(),
{
    if ps.len() > 0 {
        lemma_clean_pieces_nonempty(ps.drop_last());
        let r = clean_pieces_spec(ps.drop_last());
        assert forall|i: int|
            0 <= i < clean_pieces_spec(ps).len() implies (#[trigger] clean_pieces_spec(
            ps,
        )[i]).len() > 0 by {
            if i < r.len() {
                assert(clean_pieces_spec(ps)[i] == r[i]);
            }
        }
    }
}

proof fn lemma_split_nl_len(s: Seq<char>)
    ensures
        split_nl_spec(s).len() >= 1,
    decreases s.len(),
{
    if s.len() > 0 {
        lemma_split_nl_len(s.drop_last());
    }
}

proof fn lemma_trim_start_skip(s: Seq<char>, i: int)
    requires
        0 <= i <= s.len(),
        forall|k: int| 0 <= k < i ==> is_ws(s[k]),
    ensures
        trim_start_spec(s) == trim_start_spec(s.skip(i)),
    decreases i,
{
    if i > 0 {
        assert(is_ws(s[0]));
        assert(s.drop_first() =~= s.skip(1));
        assert(forall|k: int| 0 <= k < i - 1 ==> is_ws(s.drop_first()[k]));
        lemma_trim_start_skip(s.drop_first(), i - 1);
        assert(s.drop_first().skip(i - 1) =~= s.skip(i));
    } else {
        assert(s.skip(0) =~= s);
    }
}

proof fn lemma_trim_end_take(s: Seq<char>, j: int)
    requires
        0 <= j <= s.len(),
        forall|k: int| j <= k < s.len() ==> is_ws(s[k]),
    ensures
        trim_end_spec(s) == trim_end_spec(s.take(j)),
    decreases s.len() - j,
{
    if j < s.len() {
        assert(is_ws(s.last()));
        assert(forall|k: int| j <= k < s.drop_last().len() ==> is_ws(s.drop_last()[k]));
        lemma_trim_end_take(s.drop_last(), j);
        assert(s.drop_last().take(j) =~= s.take(j));
    } else {
        assert(s.take(j) =~= s);
    }
}

/// Equality of two string slices, decided character by character.
pub fn str_eq(a: &str, b: &str) -> (r: bool)
    ensures
        r == (a@ == b@),
{
    let alen = a.unicode_len();
    let blen = b.unicode_len();
    if alen != blen {
        return false;
    }
    let mut i: usize = 0;
    while i < alen
        invariant
            alen == a@.len(),
            alen == b@.len(),
            0 <= i <= alen,
            forall|k: int| 0 <= k < i ==> a@[k] == b@[k],
        decreases alen - i,
    {
        if a.get_char(i) != b.get_char(i) {
            return false;
        }
        i = i + 1;
    }
    assert(a@ =~= b@);
    true
}

/// Whether `s` ends with the suffix `suf`, by characters.
pub fn ends_with_str(s: &str, suf: &str) -> (r: bool)
    ensures
        r == ends_with_spec(s@, suf@),
{
    let n = s.unicode_len();
    let m = suf.unicode_len();
    if m > n {
        return false;
    }
    let tail = s.substring_char(n - m, n);
    assert(tail@ =~= s@.skip(s@.len() - suf@.len()));
    str_eq(tail, suf)
}

fn is_ws_char(c: char) -> (r: bool)
    ensures
        r == is_ws(c),
{
    c == ' ' || c == '\t' || c == '\r' || c == '\n'
}

/// `s` with leading and trailing whitespace removed.
pub fn trim_str(s: &str) -> (r: String)
    ensures
        r@ == trim_spec(s@),
{
    let n = s.unicode_len();
    let mut i: usize = 0;
    while i < n && is_ws_char(s.get_char(i))
        invariant
            n == s@.len(),
            0 <= i <= n,
            forall|k: int| 0 <= k < i ==> is_ws(s@[k]),
        decreases n - i,
    {
        i = i + 1;
    }
    if i == n {
        proof {
            lemma_trim_start_skip(s@, n as int);
            assert(s@.skip(n as int) =~= Seq::<char>::empty());
        }
        return String::new();
    }
    let mut j: usize = n;
    while j > i + 1 && is_ws_char(s.get_char(j - 1))
        invariant
            n == s@.len(),
            0 <= i < j <= n,
            !is_ws(s@[i as int]),
            forall|k: int| j <= k < n ==> is_ws(s@[k]),
        decreases j,
    {
        j = j - 1;
    }
    assert(!is_ws(s@[j - 1]));
    let t = s.substring_char(i, j);
    proof {
        lemma_trim_start_skip(s@, i as int);
        let u = s@.skip(i as int);
        assert(u[0] == s@[i as int]);
        assert(trim_start_spec(u) == u);
        assert(forall|k: int| j - i <= k < u.len() ==> is_ws(#[trigger] u[k]));
        lemma_trim_end_take(u, j - i as int);
        let v = u.take(j - i as int);
        assert(v =~= s@.subrange(i as int, j as int));
        assert(v.last() == s@[j - 1]);
        assert(trim_end_spec(v) == v);
    }
    t.to_owned()
}

/// `s` with trailing whitespace removed.
pub fn trim_end_str(s: &str) -> (r: String)
    ensures
        r@ == trim_end_spec(s@),
{
    let n = s.unicode_len();
    let mut j: usize = n;
    while j > 0 && is_ws_char(s.get_char(j - 1))
        invariant
            n == s@.len(),
            0 <= j <= n,
            forall|k: int| j <= k < n ==> is_ws(s@[k]),
        decreases j,
    {
        j = j - 1;
    }
    let t = s.substring_char(0, j);
    proof {
        lemma_trim_end_take(s@, j as int);
        let v = s@.take(j as int);
        assert(t@ =~= v);
        if j > 0 {
            assert(v.last() == s@[j - 1]);
            assert(trim_end_spec(v) == v);
        }
    }
    t.to_owned()
}

/// The pieces of `s` between newline characters.
pub fn split_text(s: &str) -> (r: Vec<String>)
    ensures
        views(r@) == split_nl_spec(s@),
{
    let n = s.unicode_len();
    let mut done: Vec<String> = Vec::new();
    let mut st: usize = 0;
    let mut i: usize = 0;
    proof {
        assert(s@.take(0) =~= Seq::<char>::empty());
        assert(views(done@).push(s@.subrange(0, 0)) =~~= split_nl_spec(s@.take(0)));
    }
    while i < n
        invariant
            n == s@.len(),
            0 <= st <= i <= n,
            views(done@).push(s@.subrange(st as int, i as int)) == split_nl_spec(
                s@.take(i as int),
            ),
        decreases n - i,
    {
        let c = s.get_char(i);
        proof {
            assert(s@.take(i + 1 as int).drop_last() =~= s@.take(i as int));
            assert(s@.take(i + 1 as int).last() == s@[i as int]);
            lemma_split_nl_len(s@.take(i as int));
        }
        if c == '\n' {
            let piece = s.substring_char(st, i).to_owned();
            proof {
                assert(views(done@.push(piece)) =~= views(done@).push(piece@));
                assert(views(done@.push(piece)).push(s@.subrange(i + 1 as int, i + 1 as int))
                    =~~= views(done@).push(s@.subrange(st as int, i as int)).push(
                    Seq::<char>::empty(),
                ));
            }
            done.push(piece);
            st = i + 1;
        } else {
            proof {
                let v = views(done@);
                let a = s@.subrange(st as int, i as int);
                assert(a.push(s@[i as int]) =~= s@.subrange(st as int, i + 1 as int));
                assert(v.push(a).update(v.push(a).len() - 1, v.push(a).last().push(s@[i as int]))
                    =~= v.push(s@.subrange(st as int, i + 1 as int)));
            }
        }
        i = i + 1;
    }
    let piece = s.substring_char(st, n).to_owned();
    proof {
        assert(s@.take(n as int) =~= s@);
        assert(views(done@.push(piece)) =~= views(done@).push(piece@));
    }
    done.push(piece);
    done
}

fn strip_cr_str(p: &String) -> (r: String)
    ensures
        r@ == strip_cr_spec(p@),
{
    let n = p.as_str().unicode_len();
    if n > 0 && p.as_str().get_char(n - 1) == '\r' {
        let t = p.as_str().substring_char(0, n - 1);
        assert(t@ =~= p@.drop_last());
        t.to_owned()
    } else {
        p.clone()
    }
}

/// The lines of `s`, as a text file is read line by line: split at
/// newlines, a trailing carriage return dropped from each line, and no
/// empty final line when `s` ends in a newline.
pub fn lines_of(s: &str) -> (r: Vec<String>)
    ensures
        views(r@) == lines_spec(s@),
{
    let n = s.unicode_len();
    if n == 0 {
        let r: Vec<String> = Vec::new();
        assert(views(r@) =~= lines_spec(s@));
        return r;
    }
    let body = if s.get_char(n - 1) == '\n' {
        s.substring_char(0, n - 1)
    } else {
        s.substring_char(0, n)
    };
    proof {
        if s@.last() == '\n' {
            assert(body@ =~= s@.drop_last());
        } else {
            assert(body@ =~= s@);
        }
    }
    let pieces = split_text(body);
    let ghost target = split_nl_spec(body@).map_values(|l: Seq<char>| strip_cr_spec(l));
    let mut out: Vec<String> = Vec::new();
    let mut k: usize = 0;
    let m = pieces.len();
    while k < m
        invariant
            m == pieces@.len(),
            0 <= k <= m,
            views(pieces@) == split_nl_spec(body@),
            target == split_nl_spec(body@).map_values(|l: Seq<char>| strip_cr_spec(l)),
            views(out@) == target.take(k as int),
        decreases m - k,
    {
        let line = strip_cr_str(&pieces[k]);
        proof {
            assert(target[k as int] == strip_cr_spec(views(pieces@)[k as int]));
            assert(views(pieces@)[k as int] == pieces@[k as int]@);
            assert(views(out@.push(line)) =~= views(out@).push(line@));
            assert(target.take(k + 1 as int) =~= target.take(k as int).push(target[k as int]));
        }
        out.push(line);
        k = k + 1;
    }
    proof {
        assert(target.take(m as int) =~= target);
    }
    out
}

/// The non-empty trimmed lines of `s`, in order.
pub fn clean_lines(s: &str) -> (r: Vec<String>)
    ensures
        views(r@) == clean_lines_spec(s@),
{
    let pieces = split_text(s);
    let mut out: Vec<String> = Vec::new();
    let mut k: usize = 0;
    let m = pieces.len();
    while k < m
        invariant
            m == pieces@.len(),
            0 <= k <= m,
            views(pieces@) == split_nl_spec(s@),
            views(out@) == clean_pieces_spec(views(pieces@).take(k as int)),
        decreases m - k,
    {
        let t = trim_str(pieces[k].as_str());
        proof {
            let ps = views(pieces@);
            assert(ps.take(k + 1 as int).drop_last() =~= ps.take(k as int));
            assert(ps.take(k + 1 as int).last() == ps[k as int]);
            assert(ps[k as int] == pieces@[k as int]@);
            assert(views(out@.push(t)) =~= views(out@).push(t@));
        }
        if t.as_str().unicode_len() > 0 {
            out.push(t);
        }
        k = k + 1;
    }
    proof {
        assert(views(pieces@).take(m as int) =~= views(pieces@));
    }
    out
}

} // verus!
