//! Stable insertion sorting under a strict "less than" relation.
use vstd::prelude::*;

verus! {

/// The index before which a stable insertion puts `x`: the first element that `x` is less than.
pub open spec fn first_after<T>(t: Seq<T>, x: T, lt: spec_fn(T, T) -> bool) -> int
    decreases t.len(),
{
    if t.len() == 0 {
        0
    } else if lt(x, t[0]) {
        0
    } else {
        1 + first_after(t.drop_first(), x, lt)
    }
}

/// `t` with `x` inserted after every element that it is not less than.
pub open spec fn sorted_insert<T>(t: Seq<T>, x: T, lt: spec_fn(T, T) -> bool) -> Seq<T> {
    t.insert(first_after(t, x, lt), x)
}

/// The result of a stable sort by `lt`: each element in turn inserted after all the earlier
/// ones that it is not less than.
pub open spec fn stable_sort<T>(s: Seq<T>, lt: spec_fn(T, T) -> bool) -> Seq<T>
    decreases s.len(),
{
    if s.len() == 0 {
        s
    } else {
        sorted_insert(stable_sort(s.drop_last(), lt), s.last(), lt)
    }
}

pub proof fn lemma_first_after_bounds<T>(t: Seq<T>, x: T, lt: spec_fn(T, T) -> bool)
    ensures
        0 <= first_after(t, x, lt) <= t.len(),
    decreases t.len(),
{
    if t.len() > 0 && !lt(x, t[0]) {
        lemma_first_after_bounds(t.drop_first(), x, lt);
    }
}

proof fn lemma_first_after_is<T>(t: Seq<T>, x: T, lt: spec_fn(T, T) -> bool, p: int)
    requires
        0 <= p <= t.len(),
        forall|j: int| 0 <= j < p ==> !lt(x, #[trigger] t[j]),
        p == t.len() || lt(x, t[p]),
    ensures
        first_after(t, x, lt) == p,
    decreases p,
{
    if p > 0 {
        assert(!lt(x, t[0]));
        assert forall|j: int| 0 <= j < p - 1 implies !lt(x, #[trigger] t.drop_first()[j]) by {
            assert(t.drop_first()[j] == t[j + 1]);
        }
        if p < t.len() {
            assert(t.drop_first()[p - 1] == t[p]);
        }
        lemma_first_after_is(t.drop_first(), x, lt, p - 1);
    }
}

/// Stable insertion sort of `v` by the comparison `less`, which computes `lt`.
pub fn insertion_sort<T, F: Fn(&T, &T) -> bool>(
    v: Vec<T>,
    less: F,
    Ghost(lt): Ghost<spec_fn(T, T) -> bool>,
) -> (r: Vec<T>)
    requires
        forall|a: &T, b: &T| #[trigger] less.requires((a, b)),
        forall|a: &T, b: &T, c: bool| less.ensures((a, b), c) ==> c == lt(*a, *b),
    ensures
        r@ == stable_sort(v@, lt),
{
    let ghost orig = v@;
    let total = v.len();
    let mut rest = v;
    let mut r: Vec<T> = Vec::new();
    let mut k: usize = 0;
    assert(orig.take(0) =~= Seq::<T>::empty());
    assert(orig.skip(0) =~= orig);
    while rest.len() > 0
        invariant
            forall|a: &T, b: &T| #[trigger] less.requires((a, b)),
            forall|a: &T, b: &T, c: bool| less.ensures((a, b), c) ==> c == lt(*a, *b),
            k <= orig.len(),
            total == orig.len(),
            rest@ == orig.skip(k as int),
            r@ == stable_sort(orig.take(k as int), lt),
        decreases rest@.len(),
    {
        let x = rest.remove(0);
        let mut p: usize = 0;
        while p < r.len() && !less(&x, &r[p])
            invariant
                forall|a: &T, b: &T| #[trigger] less.requires((a, b)),
                forall|a: &T, b: &T, c: bool| less.ensures((a, b), c) ==> c == lt(*a, *b),
                p <= r@.len(),
                forall|j: int| 0 <= j < p ==> !lt(x, #[trigger] r@[j]),
            decreases r@.len() - p,
        {
            p = p + 1;
        }
        proof {
            lemma_first_after_is(r@, x, lt, p as int);
            assert(orig.take(k + 1).drop_last() =~= orig.take(k as int));
            assert(orig.take(k + 1).last() == x);
            assert(rest@ =~= orig.skip(k + 1));
        }
        r.insert(p, x);
        k = k + 1;
    }
    assert(orig.take(k as int) =~= orig);
    r
}

proof fn lemma_first_after_map<T, U>(
    t: Seq<T>,
    x: T,
    lt: spec_fn(T, T) -> bool,
    f: spec_fn(T) -> U,
    lu: spec_fn(U, U) -> bool,
)
    requires
        forall|a: T, b: T| #[trigger] lt(a, b) == lu(f(a), f(b)),
    ensures
        first_after(t, x, lt) == first_after(t.map_values(f), f(x), lu),
    decreases t.len(),
{
    if t.len() > 0 {
        assert(t.map_values(f)[0] == f(t[0]));
        assert(t.map_values(f).drop_first() =~= t.drop_first().map_values(f));
        lemma_first_after_map(t.drop_first(), x, lt, f, lu);
    }
}

/// Sorting commutes with a map that preserves the order: sorting by `lt` and then mapping
/// gives what sorting the mapped elements by `lu` gives.
pub proof fn lemma_sort_map<T, U>(
    s: Seq<T>,
    lt: spec_fn(T, T) -> bool,
    f: spec_fn(T) -> U,
    lu: spec_fn(U, U) -> bool,
)
    requires
        forall|a: T, b: T| #[trigger] lt(a, b) == lu(f(a), f(b)),
    ensures
        stable_sort(s, lt).map_values(f) == stable_sort(s.map_values(f), lu),
    decreases s.len(),
{
    if s.len() > 0 {
        lemma_sort_map(s.drop_last(), lt, f, lu);
        let t = stable_sort(s.drop_last(), lt);
        lemma_first_after_map(t, s.last(), lt, f, lu);
        lemma_first_after_bounds(t, s.last(), lt);
        assert(s.map_values(f).drop_last() =~= s.drop_last().map_values(f));
        assert(s.map_values(f).last() == f(s.last()));
        let i = first_after(t, s.last(), lt);
        assert(t.insert(i, s.last()).map_values(f) =~= t.map_values(f).insert(i, f(s.last())));
    }
}

/// Sorting keeps the length, and every property that all elements have.
pub proof fn lemma_sort_keeps<T>(s: Seq<T>, lt: spec_fn(T, T) -> bool, p: spec_fn(T) -> bool)
    requires
        forall|i: int| 0 <= i < s.len() ==> #[trigger] p(s[i]),
    ensures
        stable_sort(s, lt).len() == s.len(),
        forall|k: int| 0 <= k < s.len() ==> #[trigger] p(stable_sort(s, lt)[k]),
    decreases s.len(),
{
    if s.len() > 0 {
        let d = s.drop_last();
        assert forall|i: int| 0 <= i < d.len() implies #[trigger] p(d[i]) by {
            assert(d[i] == s[i]);
        }
        lemma_sort_keeps(d, lt, p);
        let t = stable_sort(d, lt);
        lemma_first_after_bounds(t, s.last(), lt);
        let q = first_after(t, s.last(), lt);
        assert(p(s[s.len() - 1]));
        assert forall|k: int| 0 <= k < s.len() implies #[trigger] p(stable_sort(s, lt)[k]) by {
            let r = t.insert(q, s.last());
            assert(stable_sort(s, lt) == r);
            if k < q {
                assert(r[k] == t[k]);
            } else if k == q {
                assert(r[k] == s.last());
            } else {
                assert(r[k] == t[k - 1]);
            }
        }
    }
}

/// A relation that is transitive.
pub open spec fn transitive<T>(lt: spec_fn(T, T) -> bool) -> bool {
    forall|a: T, b: T, c: T| #[trigger] lt(a, b) && #[trigger] lt(b, c) ==> lt(a, c)
}

/// A relation under which nothing is less than itself.
pub open spec fn irreflexive<T>(lt: spec_fn(T, T) -> bool) -> bool {
    forall|a: T| !#[trigger] lt(a, a)
}

/// No element is less than an element before it.
pub open spec fn in_order<T>(s: Seq<T>, lt: spec_fn(T, T) -> bool) -> bool {
    forall|i: int, j: int| 0 <= i < j < s.len() ==> !lt(#[trigger] s[j], #[trigger] s[i])
}

/// A stable sort by a strict order leaves no element before one that is less than it.
pub proof fn lemma_sort_in_order<T>(s: Seq<T>, lt: spec_fn(T, T) -> bool)
    requires
        transitive(lt),
        irreflexive(lt),
    ensures
        in_order(stable_sort(s, lt), lt),
    decreases s.len(),
{
    if s.len() > 0 {
        let t = stable_sort(s.drop_last(), lt);
        let x = s.last();
        lemma_sort_in_order(s.drop_last(), lt);
        lemma_first_after_bounds(t, x, lt);
        let p = first_after(t, x, lt);
        lemma_first_after_before(t, x, lt);
        let r = t.insert(p, x);
        assert(stable_sort(s, lt) == r);
        assert forall|i: int, j: int| 0 <= i < j < r.len() implies !lt(#[trigger] r[j], #[trigger] r[i]) by {
            if j < p {
                assert(r[i] == t[i] && r[j] == t[j]);
            } else if j == p {
                assert(r[i] == t[i] && r[j] == x);
            } else if i < p {
                assert(r[i] == t[i] && r[j] == t[j - 1]);
            } else if i == p {
                assert(r[i] == x && r[j] == t[j - 1]);
                assert(p < t.len());
                assert(lt(x, t[p]));
                if j - 1 > p {
                    assert(!lt(t[j - 1], t[p]));
                }
                if lt(t[j - 1], x) {
                    assert(lt(t[j - 1], t[p]));
                    if j - 1 == p {
                        assert(lt(t[p], t[p]));
                    }
                }
            } else {
                assert(r[i] == t[i - 1] && r[j] == t[j - 1]);
            }
        }
    }
}

proof fn lemma_first_after_before<T>(t: Seq<T>, x: T, lt: spec_fn(T, T) -> bool)
    ensures
        forall|k: int| 0 <= k < first_after(t, x, lt) ==> !lt(x, #[trigger] t[k]),
        first_after(t, x, lt) < t.len() ==> lt(x, t[first_after(t, x, lt)]),
    decreases t.len(),
{
    if t.len() > 0 && !lt(x, t[0]) {
        lemma_first_after_before(t.drop_first(), x, lt);
        lemma_first_after_bounds(t.drop_first(), x, lt);
        assert forall|k: int| 0 <= k < first_after(t, x, lt) implies !lt(x, #[trigger] t[k]) by {
            if k > 0 {
                assert(t[k] == t.drop_first()[k - 1]);
            }
        }
        if first_after(t, x, lt) < t.len() {
            assert(t[first_after(t, x, lt)] == t.drop_first()[first_after(t.drop_first(), x, lt)]);
        }
    }
}

/// A stable sort keeps every element, as often as it occurs.
pub proof fn lemma_sort_permutes<T>(s: Seq<T>, lt: spec_fn(T, T) -> bool)
    ensures
        stable_sort(s, lt).to_multiset() == s.to_multiset(),
    decreases s.len(),
{
    if s.len() > 0 {
        let t = stable_sort(s.drop_last(), lt);
        lemma_sort_permutes(s.drop_last(), lt);
        lemma_first_after_bounds(t, s.last(), lt);
        let p = first_after(t, s.last(), lt);
        assert(s =~= s.drop_last().push(s.last()));
        vstd::seq_lib::to_multiset_insert(t, p, s.last());
        vstd::seq_lib::to_multiset_build(s.drop_last(), s.last());
    }
}

} // verus!
