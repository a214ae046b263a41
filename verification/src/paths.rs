//! Canonical path strings and the ancestor relation between them.
//!
//! A path is a plain string; the separator is `/`. The model works on
//! canonical paths: nonempty, no leading or trailing separator, and no
//! empty components. Nesting is read straight off the text: `q` lies
//! under `d` exactly when `q` extends `d` with a separator and at least
//! one further character.

use vstd::prelude::*;
use vstd::string::StrSliceExecFns;

verus! {

/// A canonical path: nonempty, relative (no leading separator), no
/// trailing separator, and no two adjacent separators.
pub open spec fn valid_path(p: Seq<char>) -> bool {
    &&& 0 < p.len()
    &&& p[0] != '/'
    &&& p[p.len() - 1] != '/'
    &&& forall|i: int| 0 < i < p.len() ==> !(#[trigger] p[i] == '/' && p[i - 1] == '/')
}

/// `q` lies strictly below the directory path `d`: it extends `d` with
/// a separator and at least one further character.
pub open spec fn under(q: Seq<char>, d: Seq<char>) -> bool {
    &&& d.len() + 1 < q.len()
    &&& q.subrange(0, d.len() as int) == d
    &&& q[d.len() as int] == '/'
}

/// The ancestor relation composes: a path below `d` is also below
/// every path that `d` itself is below.
pub proof fn lemma_under_trans(q: Seq<char>, d: Seq<char>, e: Seq<char>)
    requires
        under(q, d),
        under(d, e),
    ensures
        under(q, e),
{
    assert forall|i: int| 0 <= i < e.len() implies q.subrange(0, e.len() as int)[i] == e[i] by {
        assert(q.subrange(0, d.len() as int)[i] == q[i]);
        assert(d.subrange(0, e.len() as int)[i] == d[i]);
    }
    assert(q.subrange(0, e.len() as int) =~= e);
    assert(q.subrange(0, d.len() as int)[e.len() as int] == q[e.len() as int]);
}

/// Every slash-boundary prefix of a canonical path is itself canonical.
pub proof fn lemma_ancestor_valid(p: Seq<char>, d: Seq<char>)
    requires
        valid_path(p),
        under(p, d),
    ensures
        valid_path(d),
{
    assert(d =~= p.subrange(0, d.len() as int));
    if d.len() == 0 {
        assert(p[0] == '/');
    }
    assert(d[0] == p[0]);
    assert(p[d.len() as int] == '/');
    assert(!(p[d.len() as int] == '/' && p[d.len() - 1] == '/'));
    assert(d[d.len() - 1] == p[d.len() - 1]);
}

/// The path `k`, which starts with the prefix `a`, transplanted onto
/// the prefix `b`.
pub open spec fn rekey(k: Seq<char>, a: Seq<char>, b: Seq<char>) -> Seq<char> {
    b + k.skip(a.len() as int)
}

/// Transplanting a path below `a` onto `b` lands it below `b`, keeps
/// it canonical, and transplanting back recovers it.
pub proof fn lemma_rekey(q: Seq<char>, a: Seq<char>, b: Seq<char>)
    requires
        valid_path(a),
        valid_path(b),
        valid_path(q),
        q == a || under(q, a),
    ensures
        valid_path(rekey(q, a, b)),
        rekey(q, a, b) == b || under(rekey(q, a, b), b),
        rekey(rekey(q, a, b), b, a) == q,
        q == a ==> rekey(q, a, b) == b,
        under(q, a) ==> under(rekey(q, a, b), b),
{
    let k = rekey(q, a, b);
    if q == a {
        assert(k =~= b);
        assert(rekey(k, b, a) =~= q);
    } else {
        assert(q.subrange(0, a.len() as int) =~= a);
        assert forall|i: int| 0 <= i < k.len() implies #[trigger] k[i] == (
            if i < b.len() { b[i] } else { q[i - b.len() + a.len()] }
        ) by {}
        assert(k.subrange(0, b.len() as int) =~= b);
        assert(k[b.len() as int] == q[a.len() as int]);
        assert(under(k, b));
        assert(k[0] == b[0]);
        assert(k[k.len() - 1] == q[q.len() - 1]);
        assert forall|i: int| 0 < i < k.len() implies !(#[trigger] k[i] == '/' && k[i - 1] == '/') by {
            if i < b.len() {
            } else if i == b.len() {
                assert(k[i - 1] == b[b.len() - 1]);
            } else {
                assert(k[i] == q[i - b.len() + a.len()]);
                assert(k[i - 1] == q[i - 1 - b.len() + a.len()]);
            }
        }
        assert(valid_path(k));
        assert(rekey(k, b, a) =~= q);
    }
}

/// Transplanting a path at or below `b` onto `a` and back onto `b`
/// recovers it; this needs no canonicity.
pub proof fn lemma_rekey_roundtrip(k: Seq<char>, b: Seq<char>, a: Seq<char>)
    requires
        k == b || under(k, b),
    ensures
        rekey(rekey(k, b, a), a, b) == k,
{
    if k == b {
        assert(rekey(rekey(k, b, a), a, b) =~= k);
    } else {
        assert(k.subrange(0, b.len() as int) == b);
        assert(rekey(rekey(k, b, a), a, b) =~= k);
    }
}

/// Transplanting from `a` to `b` preserves the ancestor relation
/// among the transplanted paths.
pub proof fn lemma_rekey_under(q: Seq<char>, d: Seq<char>, a: Seq<char>, b: Seq<char>)
    requires
        valid_path(a),
        valid_path(b),
        valid_path(q),
        valid_path(d),
        q == a || under(q, a),
        d == a || under(d, a),
        under(q, d),
    ensures
        under(rekey(q, a, b), rekey(d, a, b)),
{
    let kq = rekey(q, a, b);
    let kd = rekey(d, a, b);
    lemma_rekey(q, a, b);
    lemma_rekey(d, a, b);
    assert(q.subrange(0, d.len() as int) =~= d);
    assert(q.subrange(0, a.len() as int) =~= a) by {
        if q != a {
            assert(under(q, a));
        }
    }
    assert(d.subrange(0, a.len() as int) =~= a) by {
        if d != a {
            assert(under(d, a));
        }
    }
    assert(a.len() <= d.len());
    assert forall|i: int| 0 <= i < kd.len() implies kq.subrange(0, kd.len() as int)[i] == kd[i] by {
        if i < b.len() {
        } else {
            assert(kq[i] == q[i - b.len() + a.len()]);
            assert(kd[i] == d[i - b.len() + a.len()]);
            assert(q[i - b.len() + a.len()] == d[i - b.len() + a.len()]);
        }
    }
    assert(kq.subrange(0, kd.len() as int) =~= kd);
    assert(kq[kd.len() as int] == q[kd.len() - b.len() + a.len()]);
    assert(q[d.len() as int] == '/');
}

/// Executable transplantation of `k`, which starts with the `a_len`
/// character prefix being replaced, onto the prefix `b`.
pub fn rekey_exec(k: &str, a_len: usize, b: &str) -> (r: String)
    requires
        a_len <= k@.len(),
    ensures
        r@ == b@ + k@.skip(a_len as int),
{
    let suffix = k.substring_char(a_len, k.unicode_len());
    let mut r = b.to_owned();
    r.append(suffix);
    proof {
        assert(k@.subrange(a_len as int, k@.len() as int) =~= k@.skip(a_len as int));
    }
    r
}

/// Executable check that a string is a canonical path.
pub fn check_path(p: &str) -> (r: bool)
    ensures
        r == valid_path(p@),
{
    let n = p.unicode_len();
    if n == 0 {
        return false;
    }
    if p.get_char(0) == '/' {
        return false;
    }
    if p.get_char(n - 1) == '/' {
        return false;
    }
    let mut i: usize = 1;
    while i < n
        invariant
            1 <= i <= n,
            n == p@.len(),
            p@[0] != '/',
            p@[n - 1] != '/',
            forall|j: int| 0 < j < i ==> !(#[trigger] p@[j] == '/' && p@[j - 1] == '/'),
        decreases n - i,
    {
        if p.get_char(i) == '/' && p.get_char(i - 1) == '/' {
            return false;
        }
        i += 1;
    }
    true
}

/// Executable equality of two strings, as their character sequences.
pub fn str_eq(a: &str, b: &str) -> (r: bool)
    ensures
        r == (a@ == b@),
{
    let n = a.unicode_len();
    if n != b.unicode_len() {
        return false;
    }
    let mut i: usize = 0;
    while i < n
        invariant
            0 <= i <= n,
            n == a@.len(),
            n == b@.len(),
            forall|j: int| 0 <= j < i ==> #[trigger] a@[j] == b@[j],
        decreases n - i,
    {
        if a.get_char(i) != b.get_char(i) {
            return false;
        }
        i += 1;
    }
    proof {
        assert(a@ =~= b@);
    }
    true
}

/// Executable check that `q` lies strictly below the directory path `d`.
pub fn check_under(q: &str, d: &str) -> (r: bool)
    ensures
        r == under(q@, d@),
{
    let nq = q.unicode_len();
    let nd = d.unicode_len();
    if nq <= nd {
        return false;
    }
    if nq - nd < 2 {
        return false;
    }
    if q.get_char(nd) != '/' {
        return false;
    }
    let mut i: usize = 0;
    while i < nd
        invariant
            0 <= i <= nd,
            nd == d@.len(),
            nd + 1 < nq,
            nq == q@.len(),
            forall|j: int| 0 <= j < i ==> #[trigger] q@[j] == d@[j],
        decreases nd - i,
    {
        if q.get_char(i) != d.get_char(i) {
            proof {
                assert(q@.subrange(0, nd as int)[i as int] == q@[i as int]);
            }
            return false;
        }
        i += 1;
    }
    proof {
        assert(q@.subrange(0, nd as int) =~= d@);
    }
    true
}

/// The slash-boundary prefixes of a canonical path: exactly the
/// ancestor directories spelled out inside it, shortest first.
pub fn ancestors(p: &str) -> (r: Vec<String>)
    requires
        valid_path(p@),
    ensures
        forall|i: int| 0 <= i < r@.len() ==> under(p@, #[trigger] r@[i]@),
        forall|q: Seq<char>| #[trigger] under(p@, q) ==> exists|i: int| 0 <= i < r@.len() && r@[i]@ == q,
{
    let n = p.unicode_len();
    let mut r: Vec<String> = Vec::new();
    let mut k: usize = 1;
    while k < n
        invariant
            1 <= k <= n,
            n == p@.len(),
            valid_path(p@),
            forall|i: int| 0 <= i < r@.len() ==> under(p@, #[trigger] r@[i]@),
            forall|q: Seq<char>| #[trigger] under(p@, q) && q.len() < k ==> exists|i: int| 0 <= i < r@.len() && r@[i]@ == q,
        decreases n - k,
    {
        let ghost r_prev = r@;
        if p.get_char(k) == '/' {
            let pre = p.substring_char(0, k);
            let owned = pre.to_owned();
            proof {
                assert(p@[n - 1] != '/');
                assert(k < n - 1);
                assert(under(p@, owned@));
            }
            r.push(owned);
            proof {
                assert forall|q: Seq<char>| #[trigger] under(p@, q) && q.len() < k + 1 implies exists|i: int| 0 <= i < r@.len() && r@[i]@ == q by {
                    if q.len() == k {
                        assert(q =~= p@.subrange(0, k as int));
                        assert(r@[r@.len() - 1]@ == q);
                    } else {
                        let i = choose|i: int| 0 <= i < r_prev.len() && r_prev[i]@ == q;
                        assert(r@[i]@ == q);
                    }
                }
            }
        } else {
            proof {
                assert forall|q: Seq<char>| #[trigger] under(p@, q) && q.len() < k + 1 implies exists|i: int| 0 <= i < r@.len() && r@[i]@ == q by {
                    if q.len() == k {
                        assert(p@[k as int] == '/');
                        assert(false);
                    }
                }
            }
        }
        k += 1;
    }
    proof {
        assert forall|q: Seq<char>| #[trigger] under(p@, q) implies exists|i: int| 0 <= i < r@.len() && r@[i]@ == q by {
            assert(q.len() < n);
        }
    }
    r
}

} // verus!
