//! Lexicographic ordering of strings and of segment paths.
//!
//! A category tag is a sequence of segments; the category tree is keyed by
//! such sequences in lexicographic order (segment by segment, and a path that
//! runs out first sorts first).  This is the order that makes every proper
//! prefix of a path sort strictly before the path itself.
use vstd::prelude::*;

verus! {

/// Result of a three-way comparison.
#[derive(Debug, Clone, Copy, PartialEq, Eq, Structural)]
pub enum Cmp {
    Lt,
    Eq,
    Gt,
}

/// Strict lexicographic order on character sequences by code point; the order
/// Rust gives `str` values.
pub open spec fn str_lt(a: Seq<char>, b: Seq<char>) -> bool
    decreases a.len() + b.len(),
{
    if b.len() == 0 {
        false
    } else if a.len() == 0 {
        true
    } else if a[0] != b[0] {
        (a[0] as u32) < (b[0] as u32)
    } else {
        str_lt(a.skip(1), b.skip(1))
    }
}

/// Strict lexicographic order on segment paths: decided by the first unequal
/// segment; a path that is exhausted first sorts first.
pub open spec fn path_lt(a: Seq<Seq<char>>, b: Seq<Seq<char>>) -> bool
    decreases a.len() + b.len(),
{
    if b.len() == 0 {
        false
    } else if a.len() == 0 {
        true
    } else if a[0] != b[0] {
        str_lt(a[0], b[0])
    } else {
        path_lt(a.skip(1), b.skip(1))
    }
}

/// `p` is an initial run of `q` (possibly all of it).
pub open spec fn is_prefix_of(p: Seq<Seq<char>>, q: Seq<Seq<char>>) -> bool {
    p.len() <= q.len() && p == q.take(p.len() as int)
}

/// `p` is an initial run of `q` and shorter than it.
pub open spec fn is_strict_prefix_of(p: Seq<Seq<char>>, q: Seq<Seq<char>>) -> bool {
    p.len() < q.len() && p == q.take(p.len() as int)
}

/// Every path is a prefix of itself.
pub proof fn lemma_prefix_refl(p: Seq<Seq<char>>)
    ensures
        is_prefix_of(p, p),
{
    assert(p.take(p.len() as int) =~= p);
}

pub proof fn lemma_str_lt_irrefl(a: Seq<char>)
    ensures
        !str_lt(a, a),
    decreases a.len(),
{
    if a.len() > 0 {
        lemma_str_lt_irrefl(a.skip(1));
    }
}

pub proof fn lemma_str_lt_total(a: Seq<char>, b: Seq<char>)
    ensures
        a == b || str_lt(a, b) || str_lt(b, a),
        !(str_lt(a, b) && str_lt(b, a)),
        str_lt(a, b) ==> a != b,
    decreases a.len() + b.len(),
{
    lemma_str_lt_irrefl(a);
    if a.len() > 0 && b.len() > 0 && a[0] != b[0] {
        // distinct characters have distinct code points
        vstd::utf8::char_u32_cast(a[0], a[0] as u32);
        vstd::utf8::char_u32_cast(b[0], b[0] as u32);
    }
    if a.len() > 0 && b.len() > 0 && a[0] == b[0] {
        lemma_str_lt_total(a.skip(1), b.skip(1));
        if a.skip(1) == b.skip(1) {
            assert(a.len() == b.len());
            assert forall|i: int| 0 <= i < a.len() implies a[i] == b[i] by {
                if i > 0 {
                    assert(a[i] == a.skip(1)[i - 1]);
                    assert(b[i] == b.skip(1)[i - 1]);
                }
            }
            assert(a =~= b);
        }
    }
}

pub proof fn lemma_str_lt_trans(a: Seq<char>, b: Seq<char>, c: Seq<char>)
    requires
        str_lt(a, b),
        str_lt(b, c),
    ensures
        str_lt(a, c),
    decreases a.len() + b.len() + c.len(),
{
    if a.len() == 0 {
        // c is nonempty because str_lt(b, c)
    } else {
        // b and c are nonempty
        if a[0] == b[0] && b[0] == c[0] {
            lemma_str_lt_trans(a.skip(1), b.skip(1), c.skip(1));
        }
    }
}

pub proof fn lemma_path_lt_irrefl(a: Seq<Seq<char>>)
    ensures
        !path_lt(a, a),
    decreases a.len(),
{
    if a.len() > 0 {
        lemma_path_lt_irrefl(a.skip(1));
    }
}

pub proof fn lemma_path_lt_total(a: Seq<Seq<char>>, b: Seq<Seq<char>>)
    ensures
        a == b || path_lt(a, b) || path_lt(b, a),
        !(path_lt(a, b) && path_lt(b, a)),
        path_lt(a, b) ==> a != b,
    decreases a.len() + b.len(),
{
    lemma_path_lt_irrefl(a);
    if a.len() > 0 && b.len() > 0 {
        if a[0] != b[0] {
            lemma_str_lt_total(a[0], b[0]);
        } else {
            lemma_path_lt_total(a.skip(1), b.skip(1));
            if a.skip(1) == b.skip(1) {
                assert(a.len() == b.len());
                assert forall|i: int| 0 <= i < a.len() implies a[i] == b[i] by {
                    if i > 0 {
                        assert(a[i] == a.skip(1)[i - 1]);
                        assert(b[i] == b.skip(1)[i - 1]);
                    }
                }
                assert(a =~= b);
            }
        }
    }
}

pub proof fn lemma_path_lt_trans(a: Seq<Seq<char>>, b: Seq<Seq<char>>, c: Seq<Seq<char>>)
    requires
        path_lt(a, b),
        path_lt(b, c),
    ensures
        path_lt(a, c),
    decreases a.len() + b.len() + c.len(),
{
    if a.len() > 0 {
        if a[0] == b[0] && b[0] == c[0] {
            lemma_path_lt_trans(a.skip(1), b.skip(1), c.skip(1));
        } else if a[0] == b[0] {
            // decided between b and c
        } else if b[0] == c[0] {
            // decided between a and b
        } else {
            lemma_str_lt_trans(a[0], b[0], c[0]);
            if a[0] == c[0] {
                lemma_str_lt_total(a[0], b[0]);
            }
        }
    }
}

/// Any proper prefix of a path sorts strictly before the path itself.
pub proof fn lemma_strict_prefix_sorts_first(p: Seq<Seq<char>>, q: Seq<Seq<char>>)
    requires
        is_strict_prefix_of(p, q),
    ensures
        path_lt(p, q),
    decreases p.len(),
{
    if p.len() > 0 {
        assert(p[0] == q[0]) by {
            assert(p == q.take(p.len() as int));
        }
        assert(is_strict_prefix_of(p.skip(1), q.skip(1))) by {
            assert(p.skip(1) =~= q.skip(1).take(p.len() - 1)) by {
                assert(p == q.take(p.len() as int));
            }
        }
        lemma_strict_prefix_sorts_first(p.skip(1), q.skip(1));
    }
}

/// If the first `i` segments agree, the order is decided by the rest.
pub proof fn lemma_path_lt_skip(a: Seq<Seq<char>>, b: Seq<Seq<char>>, i: int)
    requires
        0 <= i <= a.len(),
        i <= b.len(),
        forall|k: int| 0 <= k < i ==> a[k] == b[k],
    ensures
        path_lt(a, b) == path_lt(a.skip(i), b.skip(i)),
    decreases i,
{
    if i == 0 {
        assert(a.skip(0) =~= a);
        assert(b.skip(0) =~= b);
    } else {
        assert(path_lt(a, b) == path_lt(a.skip(1), b.skip(1)));
        assert(forall|k: int| 0 <= k < i - 1 ==> a.skip(1)[k] == b.skip(1)[k]);
        lemma_path_lt_skip(a.skip(1), b.skip(1), i - 1);
        assert(a.skip(1).skip(i - 1) =~= a.skip(i));
        assert(b.skip(1).skip(i - 1) =~= b.skip(i));
    }
}

/// Three-way comparison of strings, matching `str_lt` on the views.
pub fn cmp_str(a: &str, b: &str) -> (c: Cmp)
    ensures
        (c == Cmp::Lt) == str_lt(a@, b@),
        (c == Cmp::Gt) == str_lt(b@, a@),
        (c == Cmp::Eq) == (a@ == b@),
    decreases a@.len(),
{
    proof {
        lemma_str_lt_total(a@, b@);
    }
    let a_len = a.unicode_len();
    let b_len = b.unicode_len();
    if b_len == 0 {
        if a_len == 0 {
            proof {
                assert(a@ =~= b@);
            }
            Cmp::Eq
        } else {
            Cmp::Gt
        }
    } else if a_len == 0 {
        Cmp::Lt
    } else {
        let ca = a.get_char(0);
        let cb = b.get_char(0);
        if ca != cb {
            if (ca as u32) < (cb as u32) {
                Cmp::Lt
            } else {
                Cmp::Gt
            }
        } else {
            let r = cmp_str(a.substring_char(1, a_len), b.substring_char(1, b_len));
            proof {
                assert(a@.subrange(1, a@.len() as int) =~= a@.skip(1));
                assert(b@.subrange(1, b@.len() as int) =~= b@.skip(1));
                if a@.skip(1) == b@.skip(1) {
                    assert(a@ =~= b@);
                }
            }
            r
        }
    }
}

/// Three-way comparison of segment paths, matching `path_lt` on the deep views.
pub fn cmp_segments(a: &Vec<String>, b: &Vec<String>) -> (c: Cmp)
    ensures
        (c == Cmp::Lt) == path_lt(a.deep_view(), b.deep_view()),
        (c == Cmp::Gt) == path_lt(b.deep_view(), a.deep_view()),
        (c == Cmp::Eq) == (a.deep_view() == b.deep_view()),
{
    proof {
        lemma_path_lt_total(a.deep_view(), b.deep_view());
    }
    let mut i: usize = 0;
    loop
        invariant
            i <= a.len(),
            i <= b.len(),
            a.deep_view().len() == a.len(),
            b.deep_view().len() == b.len(),
            forall|k: int| 0 <= k < i ==> a.deep_view()[k] == b.deep_view()[k],
        decreases a.len() - i,
    {
        proof {
            lemma_path_lt_skip(a.deep_view(), b.deep_view(), i as int);
            lemma_path_lt_skip(b.deep_view(), a.deep_view(), i as int);
        }
        if i == a.len() {
            if i == b.len() {
                proof {
                    assert(a.deep_view() =~= b.deep_view());
                }
                return Cmp::Eq;
            }
            proof {
                assert(path_lt(a.deep_view().skip(i as int), b.deep_view().skip(i as int)));
            }
            return Cmp::Lt;
        }
        if i == b.len() {
            proof {
                assert(path_lt(b.deep_view().skip(i as int), a.deep_view().skip(i as int)));
            }
            return Cmp::Gt;
        }
        let c = cmp_str(a[i].as_str(), b[i].as_str());
        match c {
            Cmp::Eq => {
                proof {
                    assert(a.deep_view()[i as int] == a@[i as int]@);
                    assert(b.deep_view()[i as int] == b@[i as int]@);
                }
                i = i + 1;
            },
            Cmp::Lt => {
                proof {
                    let sa = a.deep_view().skip(i as int);
                    let sb = b.deep_view().skip(i as int);
                    assert(sa[0] == a.deep_view()[i as int]);
                    assert(sb[0] == b.deep_view()[i as int]);
                    assert(str_lt(sa[0], sb[0]));
                    lemma_str_lt_total(sa[0], sb[0]);
                    assert(path_lt(sa, sb));
                }
                return Cmp::Lt;
            },
            Cmp::Gt => {
                proof {
                    let sa = a.deep_view().skip(i as int);
                    let sb = b.deep_view().skip(i as int);
                    assert(sa[0] == a.deep_view()[i as int]);
                    assert(sb[0] == b.deep_view()[i as int]);
                    assert(str_lt(sb[0], sa[0]));
                    lemma_str_lt_total(sa[0], sb[0]);
                    assert(path_lt(sb, sa));
                }
                return Cmp::Gt;
            },
        }
    }
}

} // verus!
