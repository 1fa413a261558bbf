//! Ordering, deduplication and prefixing of names.
//!
//! Names are totally ordered lexicographically by Unicode scalar value; the
//! order is used only to make the pipeline surface queries deterministic.

use vstd::prelude::*;

use crate::source::views_of;
use crate::source::Source;
use vstd::string::StringExecFns;

verus! {

/// Strict lexicographic order on names, comparing characters by Unicode
/// scalar value; a proper prefix precedes its extensions.
pub open spec fn lex_lt(a: Seq<char>, b: Seq<char>) -> bool
    decreases a.len(),
{
    if b.len() == 0 {
        false
    } else if a.len() == 0 {
        true
    } else if (a[0] as u32) < (b[0] as u32) {
        true
    } else if a[0] == b[0] {
        lex_lt(a.drop_first(), b.drop_first())
    } else {
        false
    }
}

/// Casting to a Unicode scalar value is injective on characters.
proof fn lemma_char_inj(a: char, b: char)
    requires
        (a as u32) == (b as u32),
    ensures
        a == b,
{
    vstd::utf8::char_u32_cast(a, a as u32);
    vstd::utf8::char_u32_cast(b, b as u32);
}

pub proof fn lemma_lex_lt_irrefl(a: Seq<char>)
    ensures
        !lex_lt(a, a),
    decreases a.len(),
{
    if a.len() > 0 {
        lemma_lex_lt_irrefl(a.drop_first());
    }
}

pub proof fn lemma_lex_lt_trichotomy(a: Seq<char>, b: Seq<char>)
    ensures
        lex_lt(a, b) || lex_lt(b, a) || a == b,
    decreases a.len(),
{
    if a.len() == 0 {
        if b.len() == 0 {
            assert(a =~= b);
        }
    } else if b.len() == 0 {
    } else if a[0] == b[0] {
        lemma_lex_lt_trichotomy(a.drop_first(), b.drop_first());
        if !lex_lt(a, b) && !lex_lt(b, a) {
            assert(a.drop_first() == b.drop_first());
            assert(a =~= b) by {
                assert(a.len() == b.len());
                assert(forall|i: int|
                    1 <= i < a.len() ==> a[i] == a.drop_first()[i - 1] && b[i] == b.drop_first()[i
                        - 1]);
            }
        }
    } else {
        if (a[0] as u32) == (b[0] as u32) {
            lemma_char_inj(a[0], b[0]);
        }
    }
}

pub proof fn lemma_lex_lt_trans(a: Seq<char>, b: Seq<char>, c: Seq<char>)
    requires
        lex_lt(a, b),
        lex_lt(b, c),
    ensures
        lex_lt(a, c),
    decreases a.len(),
{
    if a.len() > 0 && b.len() > 0 && c.len() > 0 && a[0] == b[0] && b[0] == c[0] {
        lemma_lex_lt_trans(a.drop_first(), b.drop_first(), c.drop_first());
    }
}

/// Compares two names lexicographically.
pub fn str_lt(a: &str, b: &str) -> (r: bool)
    ensures
        r == lex_lt(a@, b@),
{
    let la = a.unicode_len();
    let lb = b.unicode_len();
    let mut i: usize = 0;
    proof {
        assert(a@.skip(0) =~= a@);
        assert(b@.skip(0) =~= b@);
    }
    while i < la && i < lb
        invariant
            la == a@.len(),
            lb == b@.len(),
            i <= la,
            i <= lb,
            lex_lt(a@, b@) == lex_lt(a@.skip(i as int), b@.skip(i as int)),
        decreases la - i,
    {
        let ca = a.get_char(i);
        let cb = b.get_char(i);
        proof {
            assert(a@.skip(i as int)[0] == a@[i as int]);
            assert(b@.skip(i as int)[0] == b@[i as int]);
            assert(a@.skip(i as int).drop_first() =~= a@.skip(i as int + 1));
            assert(b@.skip(i as int).drop_first() =~= b@.skip(i as int + 1));
        }
        if (ca as u32) < (cb as u32) {
            return true;
        }
        if (cb as u32) < (ca as u32) {
            return false;
        }
        proof {
            lemma_char_inj(ca, cb);
        }
        i = i + 1;
    }
    proof {
        assert(i == la || i == lb);
        assert(a@.skip(i as int).len() == la - i);
        assert(b@.skip(i as int).len() == lb - i);
    }
    la < lb
}

/// Compares two sources lexicographically by name.
pub fn src_lt(a: &Source, b: &Source) -> (r: bool)
    ensures
        r == lex_lt(a@, b@),
{
    str_lt(a.as_str(), b.as_str())
}

/// Tests two sources for equal names.
pub fn src_eq(a: &Source, b: &Source) -> (r: bool)
    ensures
        r == (a@ == b@),
{
    let sa = a.get_id();
    let sb = b.get_id();
    sa == sb
}

/// Every earlier element is lexicographically strictly below every later one;
/// in particular the sequence holds no duplicates.
pub open spec fn strictly_sorted(s: Seq<Seq<char>>) -> bool {
    forall|i: int, j: int| 0 <= i < j < s.len() ==> lex_lt(s[i], s[j])
}

fn lower_bound(r: &Vec<Source>, x: &Source) -> (pos: usize)
    ensures
        pos <= r@.len(),
        forall|j: int| 0 <= j < pos ==> lex_lt(#[trigger] r@[j]@, x@),
        pos < r@.len() ==> !lex_lt(r@[pos as int]@, x@),
{
    let mut j: usize = 0;
    while j < r.len()
        invariant
            j <= r@.len(),
            forall|k: int| 0 <= k < j ==> lex_lt(#[trigger] r@[k]@, x@),
        decreases r@.len() - j,
    {
        if !src_lt(&r[j], x) {
            return j;
        }
        j = j + 1;
    }
    j
}

/// Inserts a name into a strictly sorted vector, keeping it strictly sorted;
/// a name already present is dropped.
pub fn sorted_insert(r: &mut Vec<Source>, x: Source)
    requires
        strictly_sorted(views_of(old(r)@)),
    ensures
        strictly_sorted(views_of(final(r)@)),
        views_of(final(r)@).to_set() == views_of(old(r)@).to_set().insert(x@),
{
    let ghost old_views = views_of(r@);
    let pos = lower_bound(r, &x);
    if pos < r.len() && src_eq(&r[pos], &x) {
        proof {
            assert(views_of(r@)[pos as int] == x@);
            assert(views_of(r@).to_set().contains(x@));
            assert(views_of(r@).to_set() =~= views_of(r@).to_set().insert(x@));
        }
        return ;
    }
    proof {
        if pos < r@.len() {
            lemma_lex_lt_trichotomy(r@[pos as int]@, x@);
            assert(lex_lt(x@, r@[pos as int]@));
        }
    }
    r.insert(pos, x);
    proof {
        let nv = views_of(r@);
        assert(nv.len() == old_views.len() + 1);
        assert(nv[pos as int] == x@);
        assert(forall|k: int| 0 <= k < pos ==> nv[k] == old_views[k]);
        assert(forall|k: int| pos < k < nv.len() ==> nv[k] == old_views[k - 1]);
        assert forall|i: int, j: int| 0 <= i < j < nv.len() implies lex_lt(nv[i], nv[j]) by {
            if i == pos && j > pos {
                if j > pos + 1 {
                    lemma_lex_lt_trans(x@, old_views[pos as int], old_views[j - 1]);
                }
            } else if i < pos && j == pos {
            } else if i < pos && j > pos {
                if j > pos + 1 {
                    lemma_lex_lt_trans(x@, old_views[pos as int], old_views[j - 1]);
                }
                lemma_lex_lt_trans(old_views[i], x@, nv[j]);
            } else {
            }
        }
        assert(nv.to_set() =~= old_views.to_set().insert(x@)) by {
            assert forall|k: Seq<char>| nv.to_set().contains(k) implies old_views.to_set().insert(
                x@,
            ).contains(k) by {
                let ki = choose|ki: int| 0 <= ki < nv.len() && nv[ki] == k;
                if ki != pos {
                    if ki < pos {
                        assert(old_views[ki] == k);
                    } else {
                        assert(old_views[ki - 1] == k);
                    }
                }
            }
            assert forall|k: Seq<char>|
                old_views.to_set().insert(x@).contains(k) implies nv.to_set().contains(k) by {
                if k == x@ {
                    assert(nv[pos as int] == k);
                } else {
                    let ki = choose|ki: int| 0 <= ki < old_views.len() && old_views[ki] == k;
                    if ki < pos {
                        assert(nv[ki] == k);
                    } else {
                        assert(nv[ki + 1] == k);
                    }
                }
            }
        }
    }
}

/// Sorts a vector of names lexicographically and removes duplicates.
pub fn sort_dedup(v: Vec<Source>) -> (r: Vec<Source>)
    ensures
        strictly_sorted(views_of(r@)),
        views_of(r@).to_set() == views_of(v@).to_set(),
{
    let mut r: Vec<Source> = Vec::new();
    let mut i: usize = 0;
    proof {
        assert(views_of(v@.take(0)) =~= Seq::<Seq<char>>::empty());
        assert(views_of(r@).to_set() =~= views_of(v@.take(0)).to_set());
    }
    while i < v.len()
        invariant
            i <= v@.len(),
            strictly_sorted(views_of(r@)),
            views_of(r@).to_set() == views_of(v@.take(i as int)).to_set(),
        decreases v@.len() - i,
    {
        let x = v[i].dup();
        sorted_insert(&mut r, x);
        proof {
            let t1 = views_of(v@.take(i as int));
            let t2 = views_of(v@.take(i as int + 1));
            assert(t2.len() == i + 1);
            assert(forall|k: int| 0 <= k <= i ==> t2[k] == v@[k]@);
            assert(t2.drop_last() =~= t1);
            assert(t2.to_set() =~= t1.to_set().insert(v@[i as int]@)) by {
                assert forall|k: Seq<char>| t2.to_set().contains(k) implies t1.to_set().insert(
                    v@[i as int]@,
                ).contains(k) by {
                    let ki = choose|ki: int| 0 <= ki < t2.len() && t2[ki] == k;
                    if ki < i {
                        assert(t1[ki] == k);
                    }
                }
                assert forall|k: Seq<char>|
                    t1.to_set().insert(v@[i as int]@).contains(k) implies t2.to_set().contains(
                    k,
                ) by {
                    if k == v@[i as int]@ {
                        assert(t2[i as int] == k);
                    } else {
                        let ki = choose|ki: int| 0 <= ki < t1.len() && t1[ki] == k;
                        assert(t2[ki] == k);
                    }
                }
            }
        }
        i = i + 1;
    }
    proof {
        assert(v@.take(v@.len() as int) =~= v@);
    }
    r
}

/// A name qualified by a namespace: the namespace, a dot, the name.
pub open spec fn prefixed(ns: Seq<char>, x: Seq<char>) -> Seq<char> {
    ns + seq!['.'] + x
}

/// Builds the text `{namespace}.{x}`.
pub fn prefix_text(namespace: &str, x: &str) -> (r: String)
    ensures
        r@ == prefixed(namespace@, x@),
{
    let base = namespace.to_owned();
    let mid = base.concat(".");
    let full = mid.concat(x);
    proof {
        reveal_strlit(".");
        assert("."@ =~= seq!['.']);
        assert(full@ =~= prefixed(namespace@, x@));
    }
    full
}

/// Builds the source `{namespace}.{x}`.
pub fn prefix_source(namespace: &str, x: &Source) -> (r: Source)
    ensures
        r@ == prefixed(namespace@, x@),
{
    Source::Id(prefix_text(namespace, x.as_str()))
}

/// Prefixing with one namespace preserves the lexicographic order.
pub proof fn lemma_prefix_preserves_order(ns: Seq<char>, a: Seq<char>, b: Seq<char>)
    ensures
        lex_lt(prefixed(ns, a), prefixed(ns, b)) == lex_lt(a, b),
{
    let p = ns + seq!['.'];
    assert(prefixed(ns, a) =~= p + a);
    assert(prefixed(ns, b) =~= p + b);
    lemma_lex_lt_common_prefix(p, a, b);
}

pub proof fn lemma_lex_lt_common_prefix(p: Seq<char>, a: Seq<char>, b: Seq<char>)
    ensures
        lex_lt(p + a, p + b) == lex_lt(a, b),
    decreases p.len(),
{
    if p.len() == 0 {
        assert(p + a =~= a);
        assert(p + b =~= b);
    } else {
        assert((p + a)[0] == p[0]);
        assert((p + b)[0] == p[0]);
        assert((p + a).drop_first() =~= p.drop_first() + a);
        assert((p + b).drop_first() =~= p.drop_first() + b);
        lemma_lex_lt_common_prefix(p.drop_first(), a, b);
    }
}

/// Prefixing with one namespace is injective on names.
pub proof fn lemma_prefix_injective(ns: Seq<char>, a: Seq<char>, b: Seq<char>)
    requires
        prefixed(ns, a) == prefixed(ns, b),
    ensures
        a == b,
{
    assert(prefixed(ns, a).len() == ns.len() + 1 + a.len());
    assert(prefixed(ns, b).len() == ns.len() + 1 + b.len());
    assert(a.len() == b.len());
    assert forall|i: int| 0 <= i < a.len() implies a[i] == b[i] by {
        assert(prefixed(ns, a)[ns.len() + 1 + i] == a[i]);
        assert(prefixed(ns, b)[ns.len() + 1 + i] == b[i]);
    }
    assert(a =~= b);
}

/// Two strictly sorted name sequences with the same members are equal.
pub proof fn lemma_sorted_unique(a: Seq<Seq<char>>, b: Seq<Seq<char>>)
    requires
        strictly_sorted(a),
        strictly_sorted(b),
        a.to_set() == b.to_set(),
    ensures
        a == b,
    decreases a.len(),
{
    if a.len() == 0 {
        if b.len() > 0 {
            assert(b.to_set().contains(b[0]));
            assert(a.to_set().contains(b[0]));
        }
        assert(a =~= b);
    } else {
        assert(a.to_set().contains(a[0]));
        assert(b.len() > 0) by {
            if b.len() == 0 {
                assert(b.to_set().contains(a[0]));
            }
        }
        assert(a[0] == b[0]) by {
            assert(b.to_set().contains(a[0]));
            let bi = choose|bi: int| 0 <= bi < b.len() && b[bi] == a[0];
            assert(a.to_set().contains(b[0]));
            let ai = choose|ai: int| 0 <= ai < a.len() && a[ai] == b[0];
            if bi > 0 {
                assert(lex_lt(b[0], b[bi]));
                if ai > 0 {
                    assert(lex_lt(a[0], a[ai]));
                    lemma_lex_lt_trans(a[0], b[0], a[0]);
                    lemma_lex_lt_irrefl(a[0]);
                } else {
                    lemma_lex_lt_irrefl(a[0]);
                }
            }
        }
        let a1 = a.drop_first();
        let b1 = b.drop_first();
        assert(strictly_sorted(a1)) by {
            assert(forall|i: int, j: int|
                0 <= i < j < a1.len() ==> a1[i] == a[i + 1] && a1[j] == a[j + 1]);
        }
        assert(strictly_sorted(b1)) by {
            assert(forall|i: int, j: int|
                0 <= i < j < b1.len() ==> b1[i] == b[i + 1] && b1[j] == b[j + 1]);
        }
        assert(a1.to_set() =~= b1.to_set()) by {
            assert forall|k: Seq<char>| a1.to_set().contains(k) implies b1.to_set().contains(
                k,
            ) by {
                let i = choose|i: int| 0 <= i < a1.len() && a1[i] == k;
                assert(a[i + 1] == k);
                assert(lex_lt(a[0], k));
                assert(b.to_set().contains(k));
                let j = choose|j: int| 0 <= j < b.len() && b[j] == k;
                if j == 0 {
                    lemma_lex_lt_irrefl(k);
                }
                assert(b1[j - 1] == k);
            }
            assert forall|k: Seq<char>| b1.to_set().contains(k) implies a1.to_set().contains(
                k,
            ) by {
                let i = choose|i: int| 0 <= i < b1.len() && b1[i] == k;
                assert(b[i + 1] == k);
                assert(lex_lt(b[0], k));
                assert(a.to_set().contains(k));
                let j = choose|j: int| 0 <= j < a.len() && a[j] == k;
                if j == 0 {
                    lemma_lex_lt_irrefl(k);
                }
                assert(a1[j - 1] == k);
            }
        }
        lemma_sorted_unique(a1, b1);
        assert(forall|i: int| 1 <= i < a.len() ==> a[i] == a1[i - 1]);
        assert(forall|i: int| 1 <= i < b.len() ==> b[i] == b1[i - 1]);
        assert(a =~= b);
    }
}

} // verus!
