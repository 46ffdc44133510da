//! Path strings and the segment-aware operations on them.
//!
//! All paths are forward-slash-separated strings relative to a root; a
//! trailing `/` marks a directory. Prefix matching is segment-aware: `a/`
//! is an ancestor of `a/x` but not of `ab/`.

use vstd::prelude::*;

verus! {

use vstd::string::StrSliceExecFns;
use vstd::string::StringExecFns;

/// `s` with every trailing `/` removed.
pub open spec fn trim_slashes(s: Seq<char>) -> Seq<char>
    decreases s.len(),
{
    if s.len() > 0 && s.last() == '/' {
        trim_slashes(s.drop_last())
    } else {
        s
    }
}

/// The trimmed path is a prefix of the path, and it does not end in `/`.
pub proof fn lemma_trim_slashes(s: Seq<char>)
    ensures
        trim_slashes(s).len() <= s.len(),
        trim_slashes(s) == s.take(trim_slashes(s).len() as int),
        trim_slashes(s).len() > 0 ==> trim_slashes(s).last() != '/',
    decreases s.len(),
{
    if s.len() > 0 && s.last() == '/' {
        lemma_trim_slashes(s.drop_last());
        let k = trim_slashes(s).len() as int;
        assert(trim_slashes(s) =~= s.take(k));
    } else {
        assert(trim_slashes(s) =~= s.take(s.len() as int));
    }
}

/// Number of characters of `s` that remain once trailing separators go.
pub fn trimmed_len(s: &str) -> (n: usize)
    ensures
        n <= s@.len(),
        trim_slashes(s@) == s@.take(n as int),
{
    let len = s.unicode_len();
    proof {
        assert(s@.take(len as int) =~= s@);
    }
    let mut j = len;
    while j > 0 && s.get_char(j - 1) == '/'
        invariant
            j <= len,
            len == s@.len(),
            trim_slashes(s@) == trim_slashes(s@.take(j as int)),
        decreases j,
    {
        proof {
            let t = s@.take(j as int);
            assert(t.last() == s@[j - 1]);
            assert(t.drop_last() =~= s@.take(j - 1));
        }
        j = j - 1;
    }
    proof {
        let t = s@.take(j as int);
        if j == 0 {
            assert(trim_slashes(t) =~= s@.take(0));
        } else {
            assert(t.last() == s@[j - 1]);
            assert(t.last() != '/');
        }
    }
    j
}

/// Character-for-character equality of two strings.
pub fn str_eq(a: &str, b: &str) -> (r: bool)
    ensures
        r == (a@ == b@),
{
    let alen = a.unicode_len();
    let blen = b.unicode_len();
    if alen != blen {
        return false;
    }
    let mut i: usize = 0;
    while i < alen
        invariant
            i <= alen,
            alen == a@.len(),
            blen == b@.len(),
            alen == blen,
            forall|k: int| 0 <= k < i ==> a@[k] == b@[k],
        decreases alen - i,
    {
        if a.get_char(i) != b.get_char(i) {
            return false;
        }
        i = i + 1;
    }
    proof {
        assert(a@ =~= b@);
    }
    true
}

/// Segment-aware prefix test: the trimmed base must be a character prefix of
/// the trimmed path and end exactly on a segment boundary, so `a/` matches
/// `a/x` but never `ab/`.
pub open spec fn path_starts_with_s(p: Seq<char>, b: Seq<char>) -> bool {
    let pt = trim_slashes(p);
    let bt = trim_slashes(b);
    &&& bt.len() <= pt.len()
    &&& pt.take(bt.len() as int) == bt
    &&& (bt.len() == pt.len() || pt[bt.len() as int] == '/')
}

/// Whether `base` is `path` itself or one of its ancestors, segment-wise.
pub fn path_starts_with(path: &str, base: &str) -> (r: bool)
    ensures
        r == path_starts_with_s(path@, base@),
{
    let pn = trimmed_len(path);
    let bn = trimmed_len(base);
    if bn > pn {
        return false;
    }
    let mut i: usize = 0;
    while i < bn
        invariant
            i <= bn <= pn <= path@.len(),
            bn <= base@.len(),
            trim_slashes(path@) == path@.take(pn as int),
            trim_slashes(base@) == base@.take(bn as int),
            forall|k: int| 0 <= k < i ==> path@[k] == base@[k],
        decreases bn - i,
    {
        if path.get_char(i) != base.get_char(i) {
            proof {
                let pt = trim_slashes(path@);
                let bt = trim_slashes(base@);
                assert(pt.take(bn as int)[i as int] == path@[i as int]);
                assert(bt[i as int] == base@[i as int]);
            }
            return false;
        }
        i = i + 1;
    }
    proof {
        let pt = trim_slashes(path@);
        let bt = trim_slashes(base@);
        assert(pt.take(bn as int) =~= bt);
    }
    if bn == pn {
        true
    } else {
        let c = path.get_char(bn);
        proof {
            assert(trim_slashes(path@)[bn as int] == path@[bn as int]);
        }
        c == '/'
    }
}

/// Prefix matching is transitive along ancestor chains.
pub proof fn lemma_starts_with_trans(p: Seq<char>, b: Seq<char>, c: Seq<char>)
    requires
        path_starts_with_s(p, b),
        path_starts_with_s(b, c),
    ensures
        path_starts_with_s(p, c),
{
    let pt = trim_slashes(p);
    let bt = trim_slashes(b);
    let ct = trim_slashes(c);
    lemma_trim_slashes(b);
    assert(trim_slashes(bt) =~= bt);
    assert(pt.take(ct.len() as int) =~= ct);
    if ct.len() < pt.len() {
        if ct.len() == bt.len() {
            assert(pt[ct.len() as int] == '/');
        } else {
            assert(bt[ct.len() as int] == '/');
            assert(pt.take(bt.len() as int)[ct.len() as int] == pt[ct.len() as int]);
        }
    }
}

/// Number of `/` characters in `s`; the depth measure used to order rules.
pub open spec fn count_slashes(s: Seq<char>) -> nat
    decreases s.len(),
{
    if s.len() == 0 {
        0
    } else {
        count_slashes(s.drop_last()) + (if s.last() == '/' {
            1nat
        } else {
            0nat
        })
    }
}

/// Depth of a path: how many separators it contains.
pub fn depth(path: &str) -> (n: usize)
    ensures
        n == count_slashes(path@),
{
    let len = path.unicode_len();
    let mut n: usize = 0;
    let mut i: usize = 0;
    while i < len
        invariant
            i <= len,
            len == path@.len(),
            n <= i,
            n == count_slashes(path@.take(i as int)),
        decreases len - i,
    {
        proof {
            let t = path@.take(i + 1);
            assert(t.drop_last() =~= path@.take(i as int));
            assert(t.last() == path@[i as int]);
        }
        if path.get_char(i) == '/' {
            n = n + 1;
        }
        i = i + 1;
    }
    proof {
        assert(path@.take(len as int) =~= path@);
    }
    n
}

/// Substituting the `from` prefix of `p` with `to`: the result keeps every
/// segment of `p` beyond the matched prefix, and keeps `p`'s trailing slash.
/// A path that does not sit under `from`, or is exactly `from`, is unchanged.
pub open spec fn rewrite_path_s(p: Seq<char>, f: Seq<char>, t: Seq<char>) -> Seq<char> {
    if !path_starts_with_s(p, f) || p == f {
        p
    } else {
        let pt = trim_slashes(p);
        let ft = trim_slashes(f);
        let tt = trim_slashes(t);
        let core = if pt.len() == ft.len() {
            tt
        } else {
            tt + pt.skip(ft.len() as int)
        };
        if p.len() > 0 && p.last() == '/' {
            core.push('/')
        } else {
            core
        }
    }
}

/// Rewrite the `from` prefix of `path` into `to`, segment-wise.
pub fn rewrite_path(path: &str, from: &str, to: &str) -> (r: String)
    ensures
        r@ == rewrite_path_s(path@, from@, to@),
{
    if !path_starts_with(path, from) {
        return String::from_str(path);
    }
    if str_eq(path, from) {
        return String::from_str(path);
    }
    let pn = trimmed_len(path);
    let fln = trimmed_len(from);
    let tn = trimmed_len(to);
    let mut r = String::from_str(to.substring_char(0, tn));
    proof {
        assert(to@.subrange(0, tn as int) =~= trim_slashes(to@));
    }
    if pn > fln {
        r.append(path.substring_char(fln, pn));
        proof {
            assert(path@.subrange(fln as int, pn as int) =~= trim_slashes(path@).skip(
                fln as int,
            ));
        }
    }
    let plen = path.unicode_len();
    if plen > 0 && path.get_char(plen - 1) == '/' {
        r.append("/");
        proof {
            reveal_strlit("/");
            assert("/"@ =~= seq!['/']);
            let pt = trim_slashes(path@);
            let ft = trim_slashes(from@);
            let tt = trim_slashes(to@);
            let core = if pt.len() == ft.len() {
                tt
            } else {
                tt + pt.skip(ft.len() as int)
            };
            assert(r@ =~= core.push('/'));
        }
    }
    r
}

/// Index of the last `/` in `s`, or `-1` when it has none.
pub open spec fn last_slash(s: Seq<char>) -> int
    decreases s.len(),
{
    if s.len() == 0 {
        -1
    } else if s.last() == '/' {
        s.len() - 1
    } else {
        last_slash(s.drop_last())
    }
}

/// `last_slash` points at a `/` and nothing after it is one.
pub proof fn lemma_last_slash(s: Seq<char>)
    ensures
        -1 <= last_slash(s) < s.len(),
        last_slash(s) >= 0 ==> s[last_slash(s)] == '/',
        forall|k: int| last_slash(s) < k < s.len() ==> s[k] != '/',
    decreases s.len(),
{
    if s.len() > 0 && s.last() != '/' {
        lemma_last_slash(s.drop_last());
        assert forall|k: int| last_slash(s) < k < s.len() implies s[k] != '/' by {
            if k < s.len() - 1 {
                assert(s.drop_last()[k] == s[k]);
            }
        }
    }
}

/// The parent directory of a path: everything up to the last separator of
/// the trimmed path, with a trailing `/`. A top-level entry, and anything
/// whose parent would be the logical root `/` or `./`, has none.
pub open spec fn parent_dir_s(p: Seq<char>) -> Option<Seq<char>> {
    let pt = trim_slashes(p);
    let pos = last_slash(pt);
    if pos <= 0 {
        None
    } else if pos == 1 && pt[0] == '.' {
        None
    } else {
        Some(pt.take(pos).push('/'))
    }
}

/// Parent directory of `path`, if it has one below the logical root.
pub fn parent_dir(path: &str) -> (r: Option<String>)
    ensures
        match r {
            Some(s) => parent_dir_s(path@) == Some(s@),
            None => parent_dir_s(path@) is None,
        },
{
    let pn = trimmed_len(path);
    proof {
        lemma_last_slash(trim_slashes(path@));
    }
    let mut j = pn;
    while j > 0 && path.get_char(j - 1) != '/'
        invariant
            j <= pn <= path@.len(),
            trim_slashes(path@) == path@.take(pn as int),
            forall|k: int| j <= k < pn ==> path@[k] != '/',
        decreases j,
    {
        j = j - 1;
    }
    let ghost pt = trim_slashes(path@);
    let ghost ls = last_slash(pt);
    if j == 0 {
        proof {
            lemma_last_slash(pt);
            if ls >= 0 {
                assert(pt[ls] == path@[ls]);
            }
        }
        return None;
    }
    let pos = j - 1;
    proof {
        lemma_last_slash(pt);
        assert(pt[pos as int] == path@[pos as int]);
        if ls < pos {
            assert(pt[pos as int] != '/');
        }
        if ls > pos {
            assert(pt[ls] == path@[ls]);
        }
        assert(ls == pos);
    }
    if pos == 0 {
        return None;
    }
    if pos == 1 && path.get_char(0) == '.' {
        proof {
            assert(pt[0] == path@[0]);
        }
        return None;
    }
    let mut r = String::from_str(path.substring_char(0, pos));
    r.append("/");
    proof {
        reveal_strlit("/");
        assert("/"@ =~= seq!['/']);
        assert(path@.subrange(0, pos as int) =~= pt.take(pos as int));
        assert(r@ =~= pt.take(pos as int).push('/'));
    }
    Some(r)
}

/// A listing line that asks for deletion: it begins with `- ` (dash, space).
pub open spec fn marks_deletion(s: Seq<char>) -> bool {
    s.len() >= 2 && s[0] == '-' && s[1] == ' '
}

/// Whether the line begins with the two-character deletion sentinel.
pub fn is_deletion_line(s: &str) -> (r: bool)
    ensures
        r == marks_deletion(s@),
{
    if s.unicode_len() < 2 {
        return false;
    }
    s.get_char(0) == '-' && s.get_char(1) == ' '
}

} // verus!
