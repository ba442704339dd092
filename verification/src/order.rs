//! Orders on character sequences and the sorted collections built with them.
use vstd::prelude::*;
use crate::text::{seq_lt, str_eq, str_lt};

verus! {

pub proof fn lemma_lt_irreflexive(a: Seq<char>)
    ensures
        !seq_lt(a, a),
    decreases a.len(),
{
    if a.len() > 0 {
        lemma_lt_irreflexive(a.drop_first());
    }
}

pub proof fn lemma_lt_asymmetric(a: Seq<char>, b: Seq<char>)
    ensures
        !(seq_lt(a, b) && seq_lt(b, a)),
    decreases a.len(),
{
    if a.len() > 0 && b.len() > 0 && a[0] == b[0] {
        lemma_lt_asymmetric(a.drop_first(), b.drop_first());
    }
}

pub proof fn lemma_lt_transitive(a: Seq<char>, b: Seq<char>, c: Seq<char>)
    requires
        seq_lt(a, b),
        seq_lt(b, c),
    ensures
        seq_lt(a, c),
    decreases a.len(),
{
    if a.len() > 0 && b.len() > 0 && c.len() > 0 && a[0] == b[0] && b[0] == c[0] {
        lemma_lt_transitive(a.drop_first(), b.drop_first(), c.drop_first());
    }
}

pub proof fn lemma_lt_total(a: Seq<char>, b: Seq<char>)
    requires
        a != b,
    ensures
        seq_lt(a, b) || seq_lt(b, a),
    decreases a.len(),
{
    if a.len() > 0 && b.len() > 0 {
        if a[0] == b[0] {
            if a.drop_first() == b.drop_first() {
                assert(a =~= seq![a[0]] + a.drop_first());
                assert(b =~= seq![b[0]] + b.drop_first());
            }
            lemma_lt_total(a.drop_first(), b.drop_first());
        } else {
            assert(a[0] < b[0] || b[0] < a[0]);
        }
    } else if a.len() == 0 && b.len() == 0 {
        assert(a =~= b);
    }
}

/// Every element is strictly below every later one.
pub open spec fn strictly_sorted(s: Seq<Seq<char>>) -> bool {
    forall|i: int, j: int| 0 <= i < j < s.len() ==> seq_lt(#[trigger] s[i], #[trigger] s[j])
}

/// The views of a list of strings.
pub open spec fn string_views(v: Seq<String>) -> Seq<Seq<char>> {
    v.map_values(|s: String| s@)
}

/// `v` sorted in ascending order with duplicates removed (`sort` then `dedup`).
pub fn sort_unique(v: Vec<String>) -> (r: Vec<String>)
    ensures
        strictly_sorted(string_views(r@)),
        string_views(r@).to_set() == string_views(v@).to_set(),
{
    let mut r: Vec<String> = Vec::new();
    let mut k: usize = 0;
    while k < v.len()
        invariant
            k <= v@.len(),
            strictly_sorted(string_views(r@)),
            string_views(r@).to_set() == string_views(v@.take(k as int)).to_set(),
        decreases v@.len() - k,
    {
        let x = v[k].clone();
        insert_sorted_unique(&mut r, x);
        proof {
            let a = string_views(v@.take(k as int));
            let b = string_views(v@.take(k + 1));
            assert(b =~= a.push(v@[k as int]@));
            assert forall|y: Seq<char>| b.contains(y) <==> a.contains(y) || y == v@[k as int]@ by {
                if b.contains(y) && y != v@[k as int]@ {
                    let w = choose|w: int| 0 <= w < b.len() && b[w] == y;
                    assert(a[w] == y);
                }
                if a.contains(y) {
                    let w = choose|w: int| 0 <= w < a.len() && a[w] == y;
                    assert(b[w] == y);
                }
                if y == v@[k as int]@ {
                    assert(b[k as int] == y);
                }
            }
            assert(b.to_set() =~= a.to_set().insert(v@[k as int]@));
        }
        k = k + 1;
    }
    assert(v@.take(v@.len() as int) =~= v@);
    r
}

/// Inserts `x` at its place in a strictly sorted list unless it is already present.
pub fn insert_sorted_unique(r: &mut Vec<String>, x: String)
    requires
        strictly_sorted(string_views(old(r)@)),
    ensures
        strictly_sorted(string_views(final(r)@)),
        string_views(final(r)@).to_set() == string_views(old(r)@).to_set().insert(x@),
{
    let ghost before = string_views(r@);
    let mut p: usize = 0;
    while p < r.len() && str_lt(r[p].as_str(), x.as_str())
        invariant
            before == string_views(r@),
            strictly_sorted(before),
            p <= r@.len(),
            forall|i: int| 0 <= i < p ==> seq_lt(#[trigger] before[i], x@),
        decreases r@.len() - p,
    {
        p = p + 1;
    }
    if p < r.len() && str_eq(r[p].as_str(), x.as_str()) {
        proof {
            assert(before[p as int] == x@);
            assert(before.to_set() =~= before.to_set().insert(x@)) by {
                assert(before.contains(x@));
            }
        }
        return;
    }
    let ghost xv = x@;
    r.insert(p, x);
    proof {
        let after = string_views(r@);
        assert(after =~= before.insert(p as int, xv));
        if p < before.len() {
            assert(!seq_lt(before[p as int], xv));
            assert(before[p as int] != xv);
            lemma_lt_total(before[p as int], xv);
        }
        assert forall|i: int, j: int| 0 <= i < j < after.len() implies seq_lt(#[trigger] after[i], #[trigger] after[j]) by {
            if j == p {
                assert(after[i] == before[i]);
            } else if i == p {
                assert(after[j] == before[j - 1]);
                if j - 1 > p {
                    lemma_lt_transitive(xv, before[p as int], before[j - 1]);
                }
            } else if i < p && j < p {
            } else if i < p && j > p {
                assert(after[j] == before[j - 1]);
            } else {
                assert(after[i] == before[i - 1]);
                assert(after[j] == before[j - 1]);
            }
        }
        assert forall|y: Seq<char>| after.contains(y) <==> before.contains(y) || y == xv by {
            if after.contains(y) {
                let w = choose|w: int| 0 <= w < after.len() && after[w] == y;
                if w < p {
                    assert(before[w] == y);
                } else if w > p {
                    assert(before[w - 1] == y);
                }
            }
            if before.contains(y) {
                let w = choose|w: int| 0 <= w < before.len() && before[w] == y;
                if w < p {
                    assert(after[w] == y);
                } else {
                    assert(after[w + 1] == y);
                }
            }
            if y == xv {
                assert(after[p as int] == y);
            }
        }
        assert(after.to_set() =~= before.to_set().insert(xv));
    }
}

/// The strictly increasing list of the elements of a finite set of strings.
pub open spec fn sorted_list(s: Set<Seq<char>>) -> Seq<Seq<char>> {
    choose|q: Seq<Seq<char>>| strictly_sorted(q) && q.to_set() == s
}

proof fn lemma_sorted_tail_set(a: Seq<Seq<char>>)
    requires
        strictly_sorted(a),
        a.len() > 0,
    ensures
        a.drop_first().to_set() == a.to_set().remove(a[0]),
        strictly_sorted(a.drop_first()),
{
    let t = a.drop_first();
    assert forall|y: Seq<char>| t.contains(y) <==> a.contains(y) && y != a[0] by {
        if t.contains(y) {
            let w = choose|w: int| 0 <= w < t.len() && t[w] == y;
            assert(a[w + 1] == y);
            assert(seq_lt(a[0], a[w + 1]));
            lemma_lt_irreflexive(y);
        }
        if a.contains(y) && y != a[0] {
            let w = choose|w: int| 0 <= w < a.len() && a[w] == y;
            assert(w != 0);
            assert(t[w - 1] == y);
        }
    }
    assert(t.to_set() =~= a.to_set().remove(a[0]));
    assert forall|i: int, j: int| 0 <= i < j < t.len() implies seq_lt(#[trigger] t[i], #[trigger] t[j]) by {
        assert(t[i] == a[i + 1] && t[j] == a[j + 1]);
    }
}

/// Two strictly increasing lists with the same elements are equal.
pub proof fn lemma_sorted_unique(a: Seq<Seq<char>>, b: Seq<Seq<char>>)
    requires
        strictly_sorted(a),
        strictly_sorted(b),
        a.to_set() == b.to_set(),
    ensures
        a == b,
    decreases a.len(),
{
    if a.len() == 0 {
        if b.len() > 0 {
            assert(b.to_set().contains(b[0]));
            assert(!a.to_set().contains(b[0]));
        }
        assert(a =~= b);
    } else {
        assert(a.to_set().contains(a[0]));
        assert(b.contains(a[0]));
        let j = choose|j: int| 0 <= j < b.len() && b[j] == a[0];
        assert(b.to_set().contains(b[0]));
        assert(a.contains(b[0]));
        let i = choose|i: int| 0 <= i < a.len() && a[i] == b[0];
        if i > 0 && j > 0 {
            assert(seq_lt(a[0], a[i]));
            assert(seq_lt(b[0], b[j]));
            lemma_lt_asymmetric(a[0], b[0]);
        } else if i > 0 {
            assert(seq_lt(a[0], a[i]));
            lemma_lt_irreflexive(a[0]);
        } else if j > 0 {
            assert(seq_lt(b[0], b[j]));
            lemma_lt_irreflexive(b[0]);
        }
        assert(a[0] == b[0]);
        lemma_sorted_tail_set(a);
        lemma_sorted_tail_set(b);
        lemma_sorted_unique(a.drop_first(), b.drop_first());
        assert(a =~= seq![a[0]] + a.drop_first());
        assert(b =~= seq![b[0]] + b.drop_first());
    }
}

/// A strictly increasing list is the sorted list of its elements.
pub proof fn lemma_is_sorted_list(a: Seq<Seq<char>>)
    requires
        strictly_sorted(a),
    ensures
        sorted_list(a.to_set()) == a,
{
    let q = sorted_list(a.to_set());
    assert(strictly_sorted(a) && a.to_set() == a.to_set());
    lemma_sorted_unique(q, a);
}

} // verus!
