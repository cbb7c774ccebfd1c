//! Slash-separated path operations: joining, the parent directory, and
//! stripping a directory prefix, verified against spec functions.

use vstd::prelude::*;

use crate::text::str_eq;

verus! {

/// `a` and `b` joined with a single slash; an empty `a` leaves `b` as is.
pub open spec fn join_spec(a: Seq<char>, b: Seq<char>) -> Seq<char> {
    if a.len() == 0 {
        b
    } else if a.last() == '/' {
        a + b
    } else {
        a + seq!['/'] + b
    }
}

/// `p` lies strictly below the directory `d`: it is `d` joined with a
/// non-empty remainder.
pub open spec fn is_strictly_under(p: Seq<char>, d: Seq<char>) -> bool {
    exists|e: Seq<char>| e.len() > 0 && p == join_spec(d, e)
}

pub proof fn lemma_join_longer(d: Seq<char>, e: Seq<char>)
    requires
        e.len() > 0,
    ensures
        join_spec(d, e).len() > d.len(),
{
}

/// `p` with trailing slashes removed, except that a lone `/` is kept.
pub open spec fn strip_slashes_spec(p: Seq<char>) -> Seq<char>
    decreases p.len(),
{
    if p.len() > 1 && p.last() == '/' {
        strip_slashes_spec(p.drop_last())
    } else {
        p
    }
}

/// The index of the last slash in `p`, or `-1` when there is none.
pub open spec fn rfind_slash(p: Seq<char>) -> int
    decreases p.len(),
{
    if p.len() == 0 {
        -1
    } else if p.last() == '/' {
        p.len() - 1
    } else {
        rfind_slash(p.drop_last())
    }
}

/// `p` names something with a parent directory: after dropping trailing
/// slashes it is neither empty nor the root `/`.
pub open spec fn has_parent(p: Seq<char>) -> bool {
    let q = strip_slashes_spec(p);
    q.len() > 0 && q != seq!['/']
}

/// The parent directory of `p`: everything before the last slash, the
/// root `/` when that slash is leading, and empty for a bare name.
pub open spec fn parent_path(p: Seq<char>) -> Seq<char> {
    let q = strip_slashes_spec(p);
    let r = rfind_slash(q);
    if r == -1 {
        Seq::<char>::empty()
    } else if r == 0 {
        seq!['/']
    } else {
        q.take(r)
    }
}

/// `p` made relative to the directory `base`: `None` when `p` does not
/// lie under `base`.
pub open spec fn strip_prefix_spec(p: Seq<char>, base: Seq<char>) -> Option<Seq<char>> {
    if base.len() == 0 {
        Option::Some(p)
    } else if base == seq!['/'] {
        if p.len() > 0 && p[0] == '/' {
            Option::Some(p.drop_first())
        } else {
            Option::None
        }
    } else if p == base {
        Option::Some(Seq::<char>::empty())
    } else if p.len() > base.len() && p.take(base.len() as int) == base && p[base.len() as int]
        == '/' {
        Option::Some(p.skip(base.len() + 1 as int))
    } else {
        Option::None
    }
}

proof fn lemma_rfind_slash(p: Seq<char>)
    ensures
        -1 <= rfind_slash(p) < p.len(),
        rfind_slash(p) >= 0 ==> p[rfind_slash(p)] == '/',
        forall|k: int| rfind_slash(p) < k < p.len() ==> p[k] != '/',
    decreases p.len(),
{
    if p.len() == 0 {
    } else if p.last() == '/' {
    } else {
        lemma_rfind_slash(p.drop_last());
        assert(forall|k: int| 0 <= k < p.len() - 1 ==> p[k] == p.drop_last()[k]);
    }
}

proof fn lemma_strip_slashes_take(p: Seq<char>, j: int)
    requires
        1 <= j <= p.len() || (j == 0 && p.len() == 0),
        forall|k: int| j <= k < p.len() ==> p[k] == '/',
        j > 1 ==> p[j - 1] != '/',
    ensures
        strip_slashes_spec(p) == p.take(j),
    decreases p.len(),
{
    if p.len() > j {
        assert(p.last() == '/');
        assert(p.len() > 1);
        assert(forall|k: int| j <= k < p.drop_last().len() ==> p.drop_last()[k] == '/');
        lemma_strip_slashes_take(p.drop_last(), j);
        assert(p.drop_last().take(j) =~= p.take(j));
    } else {
        assert(p.take(j) =~= p);
        if p.len() > 1 {
            assert(p[j - 1] != '/');
        }
    }
}

/// Joins a directory and an entry name with a single slash.
pub fn join_path(a: &str, b: &str) -> (r: String)
    ensures
        r@ == join_spec(a@, b@),
{
    let n = a.unicode_len();
    if n == 0 {
        return b.to_owned();
    }
    if a.get_char(n - 1) == '/' {
        a.to_owned().concat(b)
    } else {
        let mut r = a.to_owned();
        r.append("/");
        r.append(b);
        proof {
            reveal_strlit("/");
            assert(("/")@ =~= seq!['/']);
            assert(r@ =~= a@ + seq!['/'] + b@);
        }
        r
    }
}

/// The parent directory of `p`, or `None` for the root `/` and for an
/// empty path, which have none.
pub fn parent_dir(p: &str) -> (r: Option<String>)
    ensures
        r is Some <==> has_parent(p@),
        r matches Some(q) ==> q@ == parent_path(p@),
{
    let n = p.unicode_len();
    if n == 0 {
        return None;
    }
    let mut j: usize = n;
    while j > 1 && p.get_char(j - 1) == '/'
        invariant
            n == p@.len(),
            1 <= j <= n,
            forall|k: int| j <= k < n ==> p@[k] == '/',
        decreases j,
    {
        j = j - 1;
    }
    proof {
        lemma_strip_slashes_take(p@, j as int);
    }
    let ghost q = strip_slashes_spec(p@);
    assert(q == p@.take(j as int));
    let mut k: usize = j;
    while k > 0 && p.get_char(k - 1) != '/'
        invariant
            n == p@.len(),
            0 <= k <= j <= n,
            forall|m: int| k <= m < j ==> p@[m] != '/',
        decreases k,
    {
        k = k - 1;
    }
    proof {
        lemma_rfind_slash(q);
        assert(forall|m: int| k <= m < j ==> q[m] == p@[m]);
    }
    if k == 0 {
        proof {
            assert(forall|m: int| 0 <= m < q.len() ==> q[m] != '/');
            assert(rfind_slash(q) == -1);
            assert(q != seq!['/']) by {
                assert(seq!['/'][0] == '/');
            }
        }
        Some(String::new())
    } else {
        proof {
            assert(q[k - 1] == '/');
            assert(rfind_slash(q) == k - 1) by {
                let r = rfind_slash(q);
                if r < k - 1 {
                    assert(q[k - 1] != '/');
                }
                if r > k - 1 {
                    assert(p@[r] != '/');
                }
            }
        }
        if k == 1 {
            if j == 1 {
                proof {
                    assert(q =~= seq!['/']);
                }
                None
            } else {
                proof {
                    assert(q.len() >= 2);
                    assert(q != seq!['/']);
                    assert(parent_path(p@) =~= seq!['/']);
                    reveal_strlit("/");
                    assert(("/")@ =~= seq!['/']);
                }
                Some(String::from_str("/"))
            }
        } else {
            let t = p.substring_char(0, k - 1);
            proof {
                assert(q.len() >= k);
                assert(q != seq!['/']);
                assert(t@ =~= q.take(k - 1));
            }
            Some(t.to_owned())
        }
    }
}

/// `p` made relative to the directory `base`, by whole components:
/// `None` when `p` does not lie under `base`.
pub fn strip_prefix_str(p: &str, base: &str) -> (r: Option<String>)
    ensures
        r is Some <==> strip_prefix_spec(p@, base@) is Some,
        r matches Some(s) ==> Option::Some(s@) == strip_prefix_spec(p@, base@),
{
    let pn = p.unicode_len();
    let bn = base.unicode_len();
    if bn == 0 {
        return Some(p.to_owned());
    }
    if bn == 1 && base.get_char(0) == '/' {
        proof {
            assert(base@ =~= seq!['/']);
        }
        if pn > 0 && p.get_char(0) == '/' {
            let s = p.substring_char(1, pn);
            assert(s@ =~= p@.drop_first());
            return Some(s.to_owned());
        } else {
            return None;
        }
    }
    proof {
        assert(base@ != seq!['/']) by {
            assert(seq!['/'].len() == 1);
            assert(seq!['/'][0] == '/');
            if base@.len() == 1 {
                assert(base@[0] != '/');
            }
        }
    }
    if pn < bn {
        return None;
    }
    if pn == bn {
        if str_eq(p, base) {
            return Some(String::new());
        } else {
            proof {
                assert(p@.take(base@.len() as int) =~= p@);
            }
            return None;
        }
    }
    let pre = p.substring_char(0, bn);
    assert(pre@ =~= p@.take(base@.len() as int));
    if str_eq(pre, base) && p.get_char(bn) == '/' {
        let s = p.substring_char(bn + 1, pn);
        assert(s@ =~= p@.skip(base@.len() + 1 as int));
        Some(s.to_owned())
    } else {
        None
    }
}

} // verus!
