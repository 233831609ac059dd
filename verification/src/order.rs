//! Lexicographic order on strings, sorted duplicate-free string sets, and
//! sorting.

use vstd::prelude::*;
use crate::text::{chars_of, views};

verus! {

broadcast use vstd::string::group_string_axioms;

/// Lexicographic "less than" by character code (the order of `String`).
pub open spec fn lex_lt(a: Seq<char>, b: Seq<char>) -> bool
    decreases a.len(),
{
    if a.len() == 0 {
        b.len() > 0
    } else if b.len() == 0 {
        false
    } else if a[0] != b[0] {
        (a[0] as u32) < (b[0] as u32)
    } else {
        lex_lt(a.drop_first(), b.drop_first())
    }
}

pub proof fn lemma_lex_irreflexive(a: Seq<char>)
    ensures
        !lex_lt(a, a),
    decreases a.len(),
{
    if a.len() > 0 {
        lemma_lex_irreflexive(a.drop_first());
    }
}

pub proof fn lemma_lex_asymmetric(a: Seq<char>, b: Seq<char>)
    ensures
        !(lex_lt(a, b) && lex_lt(b, a)),
    decreases a.len(),
{
    if a.len() > 0 && b.len() > 0 && a[0] == b[0] {
        lemma_lex_asymmetric(a.drop_first(), b.drop_first());
    }
}

pub proof fn lemma_lex_total(a: Seq<char>, b: Seq<char>)
    ensures
        a == b || lex_lt(a, b) || lex_lt(b, a),
    decreases a.len(),
{
    if a.len() > 0 && b.len() > 0 {
        if a[0] == b[0] {
            lemma_lex_total(a.drop_first(), b.drop_first());
            if a.drop_first() == b.drop_first() {
                assert(a =~= seq![a[0]] + a.drop_first());
                assert(b =~= seq![b[0]] + b.drop_first());
            }
        } else {
            vstd::utf8::char_u32_cast(a[0], a[0] as u32);
            vstd::utf8::char_u32_cast(b[0], b[0] as u32);
            assert((a[0] as u32) != (b[0] as u32));
        }
    } else if a.len() == 0 && b.len() == 0 {
        assert(a =~= b);
    }
}

pub proof fn lemma_lex_transitive(a: Seq<char>, b: Seq<char>, c: Seq<char>)
    requires
        lex_lt(a, b),
        lex_lt(b, c),
    ensures
        lex_lt(a, c),
    decreases a.len(),
{
    if a.len() > 0 && b.len() > 0 && c.len() > 0 {
        if a[0] == b[0] && b[0] == c[0] {
            lemma_lex_transitive(a.drop_first(), b.drop_first(), c.drop_first());
        }
    }
}

/// Exec lexicographic comparison on character vectors.
pub fn chars_lt(a: &Vec<char>, b: &Vec<char>) -> (r: bool)
    ensures
        r == lex_lt(a@, b@),
{
    let mut i: usize = 0;
    assert(a@.skip(0) =~= a@);
    assert(b@.skip(0) =~= b@);
    while i < a.len() && i < b.len() && a[i] == b[i]
        invariant
            i <= a@.len(),
            i <= b@.len(),
            lex_lt(a@, b@) == lex_lt(a@.skip(i as int), b@.skip(i as int)),
        decreases a@.len() - i,
    {
        assert(a@.skip(i as int).drop_first() =~= a@.skip(i + 1));
        assert(b@.skip(i as int).drop_first() =~= b@.skip(i + 1));
        i = i + 1;
    }
    if i == a.len() {
        i < b.len()
    } else if i == b.len() {
        false
    } else {
        assert(a@.skip(i as int)[0] == a@[i as int]);
        assert(b@.skip(i as int)[0] == b@[i as int]);
        (a[i] as u32) < (b[i] as u32)
    }
}

/// Exec lexicographic comparison on strings.
pub fn string_lt(a: &String, b: &String) -> (r: bool)
    ensures
        r == lex_lt(a@, b@),
{
    let x = chars_of(a.as_str());
    let y = chars_of(b.as_str());
    chars_lt(&x, &y)
}

/// Strictly increasing: sorted and free of duplicates.
pub open spec fn strictly_sorted(s: Seq<Seq<char>>) -> bool {
    forall|i: int, j: int| 0 <= i < j < s.len() ==> lex_lt(#[trigger] s[i], #[trigger] s[j])
}

/// Non-decreasing.
pub open spec fn sorted(s: Seq<Seq<char>>) -> bool {
    forall|i: int, j: int| 0 <= i < j < s.len() ==> !lex_lt(#[trigger] s[j], #[trigger] s[i])
}

/// Inserts `x` into a strictly sorted list of strings unless already present.
/// Returns whether it was added.
pub fn insert_sorted(v: &mut Vec<String>, x: String) -> (added: bool)
    requires
        strictly_sorted(views(old(v)@)),
    ensures
        strictly_sorted(views(final(v)@)),
        views(final(v)@).to_set() == views(old(v)@).to_set().insert(x@),
        added == !views(old(v)@).contains(x@),
{
    let ghost old_v = views(v@);
    let mut p: usize = 0;
    while p < v.len() && string_lt(&v[p], &x)
        invariant
            p <= v@.len(),
            views(v@) == old_v,
            strictly_sorted(old_v),
            forall|k: int| 0 <= k < p ==> lex_lt(#[trigger] old_v[k], x@),
        decreases v@.len() - p,
    {
        p = p + 1;
    }
    proof {
        assert forall|k: int| 0 <= k < p implies old_v[k] != x@ by {
            lemma_lex_irreflexive(x@);
        }
    }
    if p < v.len() && v[p] == x {
        assert(old_v[p as int] == x@);
        assert(views(v@).to_set() =~= old_v.to_set().insert(x@));
        return false;
    }
    proof {
        if p < old_v.len() {
            lemma_lex_total(old_v[p as int], x@);
            assert(lex_lt(x@, old_v[p as int]));
            assert forall|k: int| p <= k < old_v.len() implies lex_lt(x@, #[trigger] old_v[k]) by {
                if k > p {
                    lemma_lex_transitive(x@, old_v[p as int], old_v[k]);
                }
            }
        }
        assert forall|k: int| p <= k < old_v.len() implies old_v[k] != x@ by {
            lemma_lex_irreflexive(x@);
        }
        assert(!old_v.contains(x@));
    }
    let ghost xv = x@;
    v.insert(p, x);
    proof {
        let nv = views(v@);
        assert(nv =~= old_v.insert(p as int, xv));
        assert forall|i: int, j: int| 0 <= i < j < nv.len() implies lex_lt(
            #[trigger] nv[i],
            #[trigger] nv[j],
        ) by {
            if j < p {
            } else if j == p {
            } else if i < p {
                assert(nv[j] == old_v[j - 1]);
                lemma_lex_transitive(nv[i], xv, nv[j]);
            } else if i == p {
                assert(nv[j] == old_v[j - 1]);
            } else {
                assert(nv[i] == old_v[i - 1]);
                assert(nv[j] == old_v[j - 1]);
            }
        }
        assert(nv.to_set() =~= old_v.to_set().insert(xv)) by {
            assert forall|y: Seq<char>| nv.contains(y) <==> old_v.contains(y) || y == xv by {
                if nv.contains(y) {
                    let i = choose|i: int| 0 <= i < nv.len() && nv[i] == y;
                    if i < p {
                        assert(old_v[i] == y);
                    } else if i > p {
                        assert(old_v[i - 1] == y);
                    }
                }
                if old_v.contains(y) {
                    let i = choose|i: int| 0 <= i < old_v.len() && old_v[i] == y;
                    if i < p {
                        assert(nv[i] == y);
                    } else {
                        assert(nv[i + 1] == y);
                    }
                }
                if y == xv {
                    assert(nv[p as int] == y);
                }
            }
        }
    }
    true
}

/// The strings in `v`, sorted, each once.
pub fn sorted_set_of(v: &Vec<String>) -> (r: Vec<String>)
    ensures
        strictly_sorted(views(r@)),
        views(r@).to_set() == views(v@).to_set(),
{
    let mut r: Vec<String> = Vec::new();
    let mut i: usize = 0;
    assert(views(r@).to_set() =~= views(v@).take(0).to_set());
    while i < v.len()
        invariant
            i <= v@.len(),
            strictly_sorted(views(r@)),
            views(r@).to_set() == views(v@).take(i as int).to_set(),
        decreases v@.len() - i,
    {
        insert_sorted(&mut r, v[i].clone());
        assert(views(v@).take(i + 1) =~= views(v@).take(i as int).push(v@[i as int]@));
        proof {
            views(v@).take(i as int).lemma_push_to_set_commute(v@[i as int]@);
        }
        i = i + 1;
    }
    assert(views(v@).take(v@.len() as int) =~= views(v@));
    r
}

/// The strings of `v` in lexicographic order (`slice::sort`).
pub fn sort_strings(v: &Vec<String>) -> (r: Vec<String>)
    ensures
        sorted(views(r@)),
        views(r@).to_multiset() == views(v@).to_multiset(),
{
    broadcast use vstd::seq_lib::group_to_multiset_ensures;

    let mut r: Vec<String> = Vec::new();
    let mut i: usize = 0;
    assert(views(r@) =~= views(v@).take(0));
    while i < v.len()
        invariant
            i <= v@.len(),
            sorted(views(r@)),
            views(r@).to_multiset() == views(v@).take(i as int).to_multiset(),
        decreases v@.len() - i,
    {
        let x = v[i].clone();
        let ghost old_r = views(r@);
        let mut p: usize = 0;
        while p < r.len() && !string_lt(&x, &r[p])
            invariant
                p <= r@.len(),
                views(r@) == old_r,
                forall|k: int| 0 <= k < p ==> !lex_lt(x@, #[trigger] old_r[k]),
            decreases r@.len() - p,
        {
            p = p + 1;
        }
        let ghost xv = x@;
        r.insert(p, x);
        proof {
            let nv = views(r@);
            assert(nv =~= old_r.insert(p as int, xv));
            if p < old_r.len() {
                assert(lex_lt(xv, old_r[p as int]));
            }
            assert forall|a: int, b: int| 0 <= a < b < nv.len() implies !lex_lt(
                #[trigger] nv[b],
                #[trigger] nv[a],
            ) by {
                if b < p {
                } else if b == p {
                    assert(!lex_lt(xv, nv[a]));
                    lemma_lex_total(xv, nv[a]);
                    lemma_lex_asymmetric(xv, nv[a]);
                    lemma_lex_irreflexive(xv);
                } else if a < p {
                    assert(nv[b] == old_r[b - 1]);
                    assert(!lex_lt(xv, nv[a]));
                    if lex_lt(nv[b], nv[a]) {
                        if p < old_r.len() {
                            if b - 1 > p {
                                assert(!lex_lt(old_r[b - 1], old_r[p as int]));
                            }
                            lemma_lex_total(old_r[b - 1], old_r[p as int]);
                            if lex_lt(old_r[p as int], old_r[b - 1]) {
                                lemma_lex_transitive(xv, old_r[p as int], old_r[b - 1]);
                            }
                            lemma_lex_transitive(xv, nv[b], nv[a]);
                        }
                    }
                } else if a == p {
                    assert(nv[b] == old_r[b - 1]);
                    if lex_lt(nv[b], xv) {
                        lemma_lex_total(old_r[b - 1], old_r[p as int]);
                        if b - 1 > p {
                            assert(!lex_lt(old_r[b - 1], old_r[p as int]));
                        }
                        if old_r[b - 1] == old_r[p as int] {
                            lemma_lex_asymmetric(xv, old_r[p as int]);
                        } else {
                            lemma_lex_transitive(old_r[p as int], old_r[b - 1], xv);
                            lemma_lex_asymmetric(xv, old_r[p as int]);
                        }
                    }
                } else {
                    assert(nv[a] == old_r[a - 1]);
                    assert(nv[b] == old_r[b - 1]);
                }
            }
            assert(views(v@).take(i + 1) =~= views(v@).take(i as int).push(xv));
            vstd::seq_lib::to_multiset_insert(old_r, p as int, xv);
            vstd::seq_lib::to_multiset_build(views(v@).take(i as int), xv);
        }
        i = i + 1;
    }
    assert(views(v@).take(v@.len() as int) =~= views(v@));
    r
}

} // verus!
