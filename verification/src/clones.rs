//! Near-clone retrieval: an index of functions by their shingle hashes, the ranking of
//! candidates by shared shingles, and the choice of the most similar candidate.
use vstd::prelude::*;
use std::collections::HashMap;
use crate::artifact::FunctionRecord;
use crate::config::NearCloneRule;
use crate::measure::{is_number, min_rank, rank_of, value_eq, value_lt};
use crate::order::{lemma_lt_asymmetric, lemma_lt_irreflexive, lemma_lt_total, lemma_lt_transitive};
use crate::sort::{
    in_order, insertion_sort, irreflexive, lemma_sort_in_order, lemma_sort_keeps, lemma_sort_map,
    lemma_sort_permutes, stable_sort, transitive,
};
use crate::text::{seq_lt, str_eq, str_lt};

verus! {

broadcast use vstd::std_specs::hash::group_hash_axioms;

/// How many times `x` occurs in `s`.
pub open spec fn occurrences<T>(s: Seq<T>, x: T) -> nat
    decreases s.len(),
{
    if s.len() == 0 {
        0
    } else {
        occurrences(s.drop_last(), x) + if s.last() == x {
            1nat
        } else {
            0nat
        }
    }
}

/// The number of steps of a sorted merge of `l` and `r` at which their heads are equal: the
/// shared count of two sorted shingle lists.
pub open spec fn merge_shared(l: Seq<u64>, r: Seq<u64>) -> nat
    decreases l.len() + r.len(),
{
    if l.len() == 0 || r.len() == 0 {
        0
    } else if l[0] < r[0] {
        merge_shared(l.drop_first(), r)
    } else if r[0] < l[0] {
        merge_shared(l, r.drop_first())
    } else {
        1 + merge_shared(l.drop_first(), r.drop_first())
    }
}

proof fn lemma_merge_shared_bound(l: Seq<u64>, r: Seq<u64>)
    ensures
        merge_shared(l, r) <= l.len(),
        merge_shared(l, r) <= r.len(),
    decreases l.len() + r.len(),
{
    if l.len() > 0 && r.len() > 0 {
        if l[0] < r[0] {
            lemma_merge_shared_bound(l.drop_first(), r);
        } else if r[0] < l[0] {
            lemma_merge_shared_bound(l, r.drop_first());
        } else {
            lemma_merge_shared_bound(l.drop_first(), r.drop_first());
        }
    }
}

/// The shared count of a sorted merge of two shingle lists and the size of their union.
pub fn jaccard_counts(left: &[u64], right: &[u64]) -> (r: (usize, u128))
    ensures
        r.0 == merge_shared(left@, right@),
        r.1 == left@.len() + right@.len() - merge_shared(left@, right@),
{
    let mut i: usize = 0;
    let mut j: usize = 0;
    let mut shared: usize = 0;
    proof {
        lemma_merge_shared_bound(left@, right@);
        assert(left@.skip(0) =~= left@);
        assert(right@.skip(0) =~= right@);
    }
    while i < left.len() && j < right.len()
        invariant
            i <= left@.len(),
            j <= right@.len(),
            shared + merge_shared(left@.skip(i as int), right@.skip(j as int)) == merge_shared(
                left@,
                right@,
            ),
            merge_shared(left@, right@) <= left@.len(),
        decreases left@.len() + right@.len() - i - j,
    {
        let ghost l = left@.skip(i as int);
        let ghost r = right@.skip(j as int);
        proof {
            assert(l[0] == left@[i as int]);
            assert(r[0] == right@[j as int]);
            assert(l.drop_first() =~= left@.skip(i + 1));
            assert(r.drop_first() =~= right@.skip(j + 1));
            lemma_merge_shared_bound(l, r);
        }
        if left[i] < right[j] {
            i = i + 1;
        } else if right[j] < left[i] {
            j = j + 1;
        } else {
            shared = shared + 1;
            i = i + 1;
            j = j + 1;
        }
    }
    let total: u128 = left.len() as u128 + right.len() as u128;
    (shared, total - shared as u128)
}


proof fn lemma_occurrences_append<T>(a: Seq<T>, b: Seq<T>, x: T)
    ensures
        occurrences(a + b, x) == occurrences(a, x) + occurrences(b, x),
    decreases b.len(),
{
    if b.len() > 0 {
        assert((a + b).drop_last() =~= a + b.drop_last());
        lemma_occurrences_append(a, b.drop_last(), x);
    } else {
        assert(a + b =~= a);
    }
}

proof fn lemma_occurrences_repeat<T>(n: nat, y: T, x: T)
    ensures
        occurrences(Seq::new(n, |k: int| y), x) == if y == x {
            n
        } else {
            0
        },
    decreases n,
{
    if n > 0 {
        assert(Seq::new(n, |k: int| y).drop_last() =~= Seq::new((n - 1) as nat, |k: int| y));
        lemma_occurrences_repeat((n - 1) as nat, y, x);
    }
}

/// The shingle lists of a sequence of functions.
pub open spec fn shingle_lists(c: Seq<FunctionRecord>) -> Seq<Seq<u64>> {
    c.map_values(|f: FunctionRecord| f.shingle_hashes@)
}

/// The positions of the lists that hold `h`, in order, each once per occurrence of `h`.
pub open spec fn posting(lists: Seq<Seq<u64>>, h: u64) -> Seq<usize>
    decreases lists.len(),
{
    if lists.len() == 0 {
        Seq::empty()
    } else {
        posting(lists.drop_last(), h) + Seq::new(
            occurrences(lists.last(), h),
            |k: int| (lists.len() - 1) as usize,
        )
    }
}

/// The positions that a map from hashes holds for `h`; none for a missing key.
pub open spec fn posting_in(m: Map<u64, Vec<usize>>, h: u64) -> Seq<usize> {
    if m.contains_key(h) {
        m[h]@
    } else {
        Seq::empty()
    }
}

proof fn lemma_posting_bounded(lists: Seq<Seq<u64>>, h: u64)
    ensures
        forall|k: int| 0 <= k < posting(lists, h).len() ==> #[trigger] posting(lists, h)[k] < lists.len(),
    decreases lists.len(),
{
    if lists.len() > 0 {
        lemma_posting_bounded(lists.drop_last(), h);
        let a = posting(lists.drop_last(), h);
        let b = Seq::new(occurrences(lists.last(), h), |k: int| (lists.len() - 1) as usize);
        assert forall|k: int| 0 <= k < (a + b).len() implies #[trigger] (a + b)[k] < lists.len() by {
            if k < a.len() {
                assert((a + b)[k] == a[k]);
            } else {
                assert((a + b)[k] == b[k - a.len()]);
            }
        }
    }
}

/// Each list's position occurs in the posting of `h` as often as `h` occurs in the list.
proof fn lemma_posting_occurrences(lists: Seq<Seq<u64>>, h: u64, j: usize)
    requires
        j < lists.len(),
        lists.len() <= usize::MAX,
    ensures
        occurrences(posting(lists, h), j) == occurrences(lists[j as int], h),
    decreases lists.len(),
{
    let a = posting(lists.drop_last(), h);
    let b = Seq::new(occurrences(lists.last(), h), |k: int| (lists.len() - 1) as usize);
    lemma_occurrences_append(a, b, j);
    lemma_occurrences_repeat(occurrences(lists.last(), h), (lists.len() - 1) as usize, j);
    if j < lists.len() - 1 {
        lemma_posting_occurrences(lists.drop_last(), h, j);
    } else {
        lemma_posting_bounded(lists.drop_last(), h);
        lemma_occurrences_absent(a, j);
    }
}

proof fn lemma_occurrences_absent(s: Seq<usize>, x: usize)
    requires
        forall|k: int| 0 <= k < s.len() ==> #[trigger] s[k] < x,
    ensures
        occurrences(s, x) == 0,
    decreases s.len(),
{
    if s.len() > 0 {
        lemma_occurrences_absent(s.drop_last(), x);
    }
}

/// The functions seen so far, and for each shingle hash the positions of the functions that
/// hold it, once per occurrence, in order.
pub struct CloneIndex {
    candidates: Vec<FunctionRecord>,
    by_shingle: HashMap<u64, Vec<usize>>,
}

impl View for CloneIndex {
    type V = Seq<FunctionRecord>;

    closed spec fn view(&self) -> Seq<FunctionRecord> {
        self.candidates@
    }
}

impl CloneIndex {
    /// The hash map holds exactly the postings of the indexed functions.
    #[verifier::type_invariant]
    spec fn wf(&self) -> bool {
        forall|h: u64| #[trigger] posting_in(self.by_shingle@, h) == posting(shingle_lists(self.candidates@), h)
    }

    /// An empty index.
    pub fn new() -> (r: Self)
        ensures
            r@ == Seq::<FunctionRecord>::empty(),
    {
        let candidates: Vec<FunctionRecord> = Vec::new();
        let by_shingle: HashMap<u64, Vec<usize>> = HashMap::new();
        assert forall|h: u64| #[trigger] posting_in(by_shingle@, h) == posting(shingle_lists(candidates@), h) by {
            assert(shingle_lists(candidates@).len() == 0);
        }
        CloneIndex { candidates, by_shingle }
    }

    /// Indexes `functions` in order.
    pub fn from_functions(functions: Vec<FunctionRecord>) -> (r: Self)
        ensures
            r@ == functions@,
    {
        let mut index = Self::new();
        let total = functions.len();
        let mut rest = functions;
        let ghost all = rest@;
        let mut k: usize = 0;
        assert(all.take(0) =~= Seq::<FunctionRecord>::empty());
        assert(all.skip(0) =~= all);
        while rest.len() > 0
            invariant
                total == all.len(),
                k <= all.len(),
                index@ == all.take(k as int),
                rest@ == all.skip(k as int),
            decreases rest@.len(),
        {
            let f = rest.remove(0);
            index.insert(f);
            proof {
                assert(all.take(k + 1) =~= all.take(k as int).push(all[k as int]));
                assert(rest@ =~= all.skip(k + 1));
            }
            k = k + 1;
        }
        assert(all.take(k as int) =~= all);
        index
    }

    /// The number of indexed functions.
    pub fn len(&self) -> (n: usize)
        ensures
            n == self@.len(),
    {
        self.candidates.len()
    }

    /// The indexed function at position `id`.
    pub fn candidate(&self, id: usize) -> (f: &FunctionRecord)
        requires
            id < self@.len(),
        ensures
            *f == self@[id as int],
    {
        &self.candidates[id]
    }

    /// Adds `function` after the indexed ones.
    pub fn insert(&mut self, function: FunctionRecord)
        ensures
            final(self)@ == old(self)@.push(function),
    {
        proof {
            use_type_invariant(&*self);
        }
        let mut taken = CloneIndex::new();
        std::mem::swap(&mut taken, self);
        let CloneIndex { mut candidates, mut by_shingle } = taken;
        let id = candidates.len();
        let ghost lists = shingle_lists(candidates@);
        let ghost f = function.shingle_hashes@;
        let mut k: usize = 0;
        assert forall|h: u64| #[trigger] posting_in(by_shingle@, h) == posting(lists, h) + Seq::new(
            occurrences(f.take(0), h),
            |i: int| id,
        ) by {
            assert(f.take(0).len() == 0);
            assert(posting(lists, h) + Seq::new(occurrences(f.take(0), h), |i: int| id) =~= posting(lists, h));
        }
        while k < function.shingle_hashes.len()
            invariant
                candidates@ == old(self)@,
                lists == shingle_lists(candidates@),
                id == candidates@.len(),
                f == function.shingle_hashes@,
                k <= f.len(),
                forall|h: u64| #[trigger] posting_in(by_shingle@, h) == posting(lists, h) + Seq::new(
                    occurrences(f.take(k as int), h),
                    |i: int| id,
                ),
            decreases f.len() - k,
        {
            let h = function.shingle_hashes[k];
            let ghost before = by_shingle@;
            let mut ids = match by_shingle.remove(&h) {
                Some(v) => v,
                None => Vec::new(),
            };
            assert(ids@ == posting_in(before, h));
            ids.push(id);
            by_shingle.insert(h, ids);
            proof {
                assert(f.take(k + 1).drop_last() =~= f.take(k as int));
                assert forall|g: u64| #[trigger] posting_in(by_shingle@, g) == posting(lists, g) + Seq::new(
                    occurrences(f.take(k + 1), g),
                    |i: int| id,
                ) by {
                    let n = occurrences(f.take(k as int), g);
                    if g == h {
                        assert(Seq::new(n + 1, |i: int| id) =~= Seq::new(n, |i: int| id).push(id));
                        assert(posting_in(before, g) == posting(lists, g) + Seq::new(n, |i: int| id));
                        assert(posting(lists, g) + Seq::new(n + 1, |i: int| id) =~= (posting(lists, g)
                            + Seq::new(n, |i: int| id)).push(id));
                    } else {
                        assert(posting_in(before, g) == posting(lists, g) + Seq::new(n, |i: int| id));
                    }
                }
            }
            k = k + 1;
        }
        candidates.push(function);
        proof {
            assert(f.take(f.len() as int) =~= f);
            let lists2 = shingle_lists(candidates@);
            assert(lists2.drop_last() =~= lists);
            assert(lists2.last() == f);
        }
        *self = CloneIndex { candidates, by_shingle };
    }
}


/// How many of the hashes of `f`, counted once per occurrence in `f`, occur in `c`, counted
/// once per occurrence there: the number of shared shingles that the index finds.
pub open spec fn overlap(f: Seq<u64>, c: Seq<u64>) -> nat
    decreases f.len(),
{
    if f.len() == 0 {
        0
    } else {
        overlap(f.drop_last(), c) + occurrences(c, f.last())
    }
}

/// `n`, or the largest `usize` where `n` does not fit.
pub open spec fn capped(n: nat) -> usize {
    if n < usize::MAX {
        n as usize
    } else {
        usize::MAX
    }
}

/// A candidate that shares shingles with a function, with what orders it.
pub struct RankView {
    pub id: usize,
    pub count: usize,
    pub path: Seq<char>,
    pub line: usize,
    pub name: Seq<char>,
}

/// Path, start line, then qualified name.
pub open spec fn key_lt(a: (Seq<char>, usize, Seq<char>), b: (Seq<char>, usize, Seq<char>)) -> bool {
    if a.0 != b.0 {
        seq_lt(a.0, b.0)
    } else if a.1 != b.1 {
        a.1 < b.1
    } else {
        seq_lt(a.2, b.2)
    }
}

/// The key by which candidates that tie are ordered.
pub open spec fn candidate_key(f: FunctionRecord) -> (Seq<char>, usize, Seq<char>) {
    (f.identity.path@, f.start_line, f.identity.qualified_name@)
}

/// More shared shingles first; among equal counts, by candidate key.
pub open spec fn rank_lt(a: RankView, b: RankView) -> bool {
    a.count > b.count || (a.count == b.count && key_lt(
        (a.path, a.line, a.name),
        (b.path, b.line, b.name),
    ))
}

/// The candidates among the first `n` that share at least one shingle with `f`, in index order.
pub open spec fn rank_list(cands: Seq<FunctionRecord>, f: Seq<u64>, n: int) -> Seq<RankView>
    decreases n,
{
    if n <= 0 {
        Seq::empty()
    } else {
        let prev = rank_list(cands, f, n - 1);
        let c = capped(overlap(f, cands[n - 1].shingle_hashes@));
        if c > 0 {
            prev.push(
                RankView {
                    id: (n - 1) as usize,
                    count: c,
                    path: cands[n - 1].identity.path@,
                    line: cands[n - 1].start_line,
                    name: cands[n - 1].identity.qualified_name@,
                },
            )
        } else {
            prev
        }
    }
}

pub open spec fn rank_view_order() -> spec_fn(RankView, RankView) -> bool {
    |a: RankView, b: RankView| rank_lt(a, b)
}

/// The candidates sharing shingles with `f`, best first.
pub open spec fn ranking(cands: Seq<FunctionRecord>, f: Seq<u64>) -> Seq<RankView> {
    stable_sort(rank_list(cands, f, cands.len() as int), rank_view_order())
}

/// What the index holds for one candidate at `id`, for sorting.
struct Rank {
    id: usize,
    count: usize,
    path: String,
    line: usize,
    name: String,
}

impl View for Rank {
    type V = RankView;

    closed spec fn view(&self) -> RankView {
        RankView { id: self.id, count: self.count, path: self.path@, line: self.line, name: self.name@ }
    }
}

spec fn rank_order() -> spec_fn(Rank, Rank) -> bool {
    |a: Rank, b: Rank| rank_lt(a@, b@)
}

fn rank_less(a: &Rank, b: &Rank) -> (lt: bool)
    ensures
        lt == rank_lt(a@, b@),
{
    if a.count != b.count {
        return a.count > b.count;
    }
    if !str_eq(a.path.as_str(), b.path.as_str()) {
        return str_lt(a.path.as_str(), b.path.as_str());
    }
    if a.line != b.line {
        return a.line < b.line;
    }
    str_lt(a.name.as_str(), b.name.as_str())
}

impl CloneIndex {
    /// For each indexed function, the number of shingles that it shares with `f`.
    fn overlap_counts(&self, f: &Vec<u64>) -> (counts: Vec<usize>)
        requires
            self.wf(),
        ensures
            counts@.len() == self@.len(),
            forall|j: int| 0 <= j < counts@.len() ==> #[trigger] counts@[j] == capped(
                overlap(f@, self@[j].shingle_hashes@),
            ),
    {
        let n = self.candidates.len();
        let ghost lists = shingle_lists(self.candidates@);
        let mut counts: Vec<usize> = Vec::new();
        let mut j: usize = 0;
        while j < n
            invariant
                n == self.candidates@.len(),
                j <= n,
                counts@.len() == j,
                forall|i: int| 0 <= i < j ==> #[trigger] counts@[i] == 0,
            decreases n - j,
        {
            counts.push(0);
            j = j + 1;
        }
        let mut k: usize = 0;
        assert forall|i: int| 0 <= i < n implies #[trigger] counts@[i] == capped(
            overlap(f@.take(0), self@[i].shingle_hashes@),
        ) by {
            assert(f@.take(0).len() == 0);
        }
        while k < f.len()
            invariant
                self.wf(),
                n == self.candidates@.len(),
                lists == shingle_lists(self.candidates@),
                counts@.len() == n,
                k <= f@.len(),
                forall|i: int| 0 <= i < n ==> #[trigger] counts@[i] == capped(
                    overlap(f@.take(k as int), self@[i].shingle_hashes@),
                ),
            decreases f@.len() - k,
        {
            let h = f[k];
            proof {
                assert(f@.take(k + 1).drop_last() =~= f@.take(k as int));
                assert(f@.take(k + 1).last() == h);
                assert(posting_in(self.by_shingle@, h) == posting(lists, h));
                lemma_posting_bounded(lists, h);
            }
            match self.by_shingle.get(&h) {
                Some(ids) => {
                    let mut t: usize = 0;
                    assert forall|i: int| 0 <= i < n implies #[trigger] counts@[i] == capped(
                        overlap(f@.take(k as int), self@[i].shingle_hashes@) + occurrences(
                            ids@.take(0),
                            i as usize,
                        ),
                    ) by {
                        assert(ids@.take(0).len() == 0);
                    }
                    while t < ids.len()
                        invariant
                            n == self.candidates@.len(),
                            ids@ == posting(lists, h),
                            forall|q: int| 0 <= q < ids@.len() ==> #[trigger] ids@[q] < n,
                            counts@.len() == n,
                            t <= ids@.len(),
                            forall|i: int| 0 <= i < n ==> #[trigger] counts@[i] == capped(
                                overlap(f@.take(k as int), self@[i].shingle_hashes@) + occurrences(
                                    ids@.take(t as int),
                                    i as usize,
                                ),
                            ),
                        decreases ids@.len() - t,
                    {
                        let id = ids[t];
                        let c = counts[id];
                        counts.set(id, c.saturating_add(1));
                        proof {
                            assert(ids@.take(t + 1).drop_last() =~= ids@.take(t as int));
                            assert(ids@.take(t + 1).last() == id);
                        }
                        t = t + 1;
                    }
                    proof {
                        assert(ids@.take(ids@.len() as int) =~= ids@);
                        assert forall|i: int| 0 <= i < n implies #[trigger] counts@[i] == capped(
                            overlap(f@.take(k + 1), self@[i].shingle_hashes@),
                        ) by {
                            lemma_posting_occurrences(lists, h, i as usize);
                            assert(lists[i] == self@[i].shingle_hashes@);
                        }
                    }
                },
                None => {
                    proof {
                        assert forall|i: int| 0 <= i < n implies #[trigger] counts@[i] == capped(
                            overlap(f@.take(k + 1), self@[i].shingle_hashes@),
                        ) by {
                            lemma_posting_occurrences(lists, h, i as usize);
                            assert(lists[i] == self@[i].shingle_hashes@);
                        }
                    }
                },
            }
            k = k + 1;
        }
        assert(f@.take(f@.len() as int) =~= f@);
        counts
    }
}

/// How alike two shingle lists are: the functions have the same normalized hash, or a
/// sorted merge of the lists shares `shared` hashes of a union of `union`.
#[derive(Debug, Clone, Copy, PartialEq, Eq, Structural)]
pub enum Overlap {
    Identical,
    Counted { shared: usize, union: u128 },
}

/// One candidate of the shortlist: its position in the index and how alike its token and
/// AST-shape shingles are to those of the function.
#[derive(Debug, Clone, Copy, PartialEq, Eq, Structural)]
pub struct Comparison {
    pub id: usize,
    pub token: Overlap,
    pub ast: Overlap,
}

pub open spec fn overlap_of(same_hash: bool, f: Seq<u64>, c: Seq<u64>) -> Overlap {
    if same_hash {
        Overlap::Identical
    } else {
        Overlap::Counted {
            shared: merge_shared(f, c) as usize,
            union: (f.len() + c.len() - merge_shared(f, c)) as u128,
        }
    }
}

/// A candidate is compared unless it is the function itself or under the size floors.
pub open spec fn eligible(c: FunctionRecord, f: FunctionRecord, p: NearCloneRule) -> bool {
    c.identity@ != f.identity@ && c.sloc >= p.minimum_sloc && c.token_count >= p.minimum_tokens
}

pub open spec fn comparison_of(c: FunctionRecord, f: FunctionRecord, id: usize) -> Comparison {
    Comparison {
        id,
        token: overlap_of(
            c.normalized_hash@ == f.normalized_hash@,
            f.shingle_hashes@,
            c.shingle_hashes@,
        ),
        ast: overlap_of(c.ast_hash@ == f.ast_hash@, f.ast_shingle_hashes@, c.ast_shingle_hashes@),
    }
}

/// The comparisons of the eligible candidates among `ranked`, in order.
pub open spec fn compare_ranked(
    cands: Seq<FunctionRecord>,
    f: FunctionRecord,
    p: NearCloneRule,
    ranked: Seq<RankView>,
) -> Seq<Comparison>
    decreases ranked.len(),
{
    if ranked.len() == 0 {
        Seq::empty()
    } else {
        let prev = compare_ranked(cands, f, p, ranked.drop_last());
        let id = ranked.last().id;
        if eligible(cands[id as int], f, p) {
            prev.push(comparison_of(cands[id as int], f, id))
        } else {
            prev
        }
    }
}

/// The candidates that a function is compared with: none when the function is under the size
/// floors; else the best `max_candidates` of the ranking, without those that are not eligible.
pub open spec fn shortlist_spec(cands: Seq<FunctionRecord>, f: FunctionRecord, p: NearCloneRule) -> Seq<
    Comparison,
> {
    if f.sloc < p.minimum_sloc || f.token_count < p.minimum_tokens {
        Seq::empty()
    } else {
        let r = ranking(cands, f.shingle_hashes@);
        compare_ranked(
            cands,
            f,
            p,
            r.take(
                if p.max_candidates < r.len() {
                    p.max_candidates as int
                } else {
                    r.len() as int
                },
            ),
        )
    }
}

spec fn rank_views(s: Seq<Rank>) -> Seq<RankView> {
    s.map_values(|r: Rank| r@)
}

proof fn lemma_rank_list_bounded(cands: Seq<FunctionRecord>, f: Seq<u64>, n: int)
    requires
        n <= cands.len(),
        cands.len() <= usize::MAX,
    ensures
        forall|k: int| 0 <= k < rank_list(cands, f, n).len() ==> #[trigger] rank_list(cands, f, n)[k].id
            < cands.len(),
    decreases n,
{
    if n > 0 {
        lemma_rank_list_bounded(cands, f, n - 1);
        let prev = rank_list(cands, f, n - 1);
        let all = rank_list(cands, f, n);
        assert forall|k: int| 0 <= k < all.len() implies #[trigger] all[k].id < cands.len() by {
            if k < prev.len() {
                assert(all[k] == prev[k]);
            }
        }
    }
}

fn overlap_between(same_hash: bool, f: &Vec<u64>, c: &Vec<u64>) -> (r: Overlap)
    ensures
        r == overlap_of(same_hash, f@, c@),
{
    if same_hash {
        Overlap::Identical
    } else {
        let (shared, union) = jaccard_counts(f.as_slice(), c.as_slice());
        Overlap::Counted { shared, union }
    }
}

impl CloneIndex {
    /// The candidates that `function` is compared with, best ranked first.
    pub fn shortlist(&self, function: &FunctionRecord, policy: &NearCloneRule) -> (r: Vec<Comparison>)
        ensures
            r@ == shortlist_spec(self@, *function, *policy),
    {
        proof {
            use_type_invariant(self);
        }
        if function.sloc < policy.minimum_sloc || function.token_count < policy.minimum_tokens {
            return Vec::new();
        }
        let ghost cands = self@;
        let ghost f = function.shingle_hashes@;
        let counts = self.overlap_counts(&function.shingle_hashes);
        let mut ranks: Vec<Rank> = Vec::new();
        let mut j: usize = 0;
        while j < counts.len()
            invariant
                cands == self@,
                counts@.len() == cands.len(),
                forall|i: int| 0 <= i < counts@.len() ==> #[trigger] counts@[i] == capped(
                    overlap(f, cands[i].shingle_hashes@),
                ),
                j <= counts@.len(),
                rank_views(ranks@) == rank_list(cands, f, j as int),
            decreases counts@.len() - j,
        {
            if counts[j] > 0 {
                let c = &self.candidates[j];
                let r = Rank {
                    id: j,
                    count: counts[j],
                    path: c.identity.path.clone(),
                    line: c.start_line,
                    name: c.identity.qualified_name.clone(),
                };
                ranks.push(r);
                assert(rank_views(ranks@) =~= rank_list(cands, f, j as int).push(r@));
            }
            j = j + 1;
        }
        let ghost unsorted = ranks@;
        let sorted = insertion_sort(ranks, rank_less, Ghost(rank_order()));
        let ghost ranked = ranking(cands, f);
        proof {
            lemma_sort_map(unsorted, rank_order(), |r: Rank| r@, rank_view_order());
            assert(rank_views(sorted@) == ranked);
            lemma_rank_list_bounded(cands, f, cands.len() as int);
            let p = |v: RankView| v.id < cands.len();
            lemma_sort_keeps(rank_list(cands, f, cands.len() as int), rank_view_order(), p);
            assert forall|k: int| 0 <= k < ranked.len() implies #[trigger] ranked[k].id < cands.len() by {
                assert(p(ranked[k]));
            }
        }
        let limit = if policy.max_candidates < sorted.len() {
            policy.max_candidates
        } else {
            sorted.len()
        };
        let mut out: Vec<Comparison> = Vec::new();
        let mut i: usize = 0;
        assert(ranked.take(0) =~= Seq::<RankView>::empty());
        while i < limit
            invariant
                cands == self@,
                f == function.shingle_hashes@,
                rank_views(sorted@) == ranked,
                ranked.len() == sorted@.len(),
                forall|k: int| 0 <= k < ranked.len() ==> #[trigger] ranked[k].id < cands.len(),
                limit <= sorted@.len(),
                i <= limit,
                out@ == compare_ranked(cands, *function, *policy, ranked.take(i as int)),
            decreases limit - i,
        {
            let id = sorted[i].id;
            assert(ranked[i as int].id == id);
            let c = &self.candidates[id];
            proof {
                assert(ranked.take(i + 1).drop_last() =~= ranked.take(i as int));
                assert(ranked.take(i + 1).last() == ranked[i as int]);
            }
            if !c.identity.same_as(&function.identity) && c.sloc >= policy.minimum_sloc
                && c.token_count >= policy.minimum_tokens {
                let token = overlap_between(
                    str_eq(c.normalized_hash.as_str(), function.normalized_hash.as_str()),
                    &function.shingle_hashes,
                    &c.shingle_hashes,
                );
                let ast = overlap_between(
                    str_eq(c.ast_hash.as_str(), function.ast_hash.as_str()),
                    &function.ast_shingle_hashes,
                    &c.ast_shingle_hashes,
                );
                out.push(Comparison { id, token, ast });
            }
            i = i + 1;
        }
        out
    }
}

/// A shortlisted candidate with the bit patterns of its token and AST-shape similarities.
#[derive(Debug, Clone, Copy, PartialEq, Eq, Structural)]
pub struct Scored {
    pub id: usize,
    pub token: u64,
    pub ast: u64,
}

/// Both similarities reach the threshold.
pub open spec fn passes(e: Scored, threshold: u64) -> bool {
    !(rank_of(e.token) < rank_of(threshold)) && !(rank_of(e.ast) < rank_of(threshold))
}

/// The lesser of the two similarities.
pub open spec fn combined(e: Scored) -> int {
    min_rank(e.token, e.ast)
}

/// `e` replaces the current best `cur`: more similar, or as similar with a lesser key.
pub open spec fn better(cands: Seq<FunctionRecord>, e: Scored, cur: Scored) -> bool {
    combined(e) > combined(cur) || (combined(e) == combined(cur) && key_lt(
        candidate_key(cands[e.id as int]),
        candidate_key(cands[cur.id as int]),
    ))
}

/// The best of the scored candidates that pass the threshold, considered in order.
pub open spec fn best_of(cands: Seq<FunctionRecord>, es: Seq<Scored>, threshold: u64) -> Option<Scored>
    decreases es.len(),
{
    if es.len() == 0 {
        None
    } else {
        let prev = best_of(cands, es.drop_last(), threshold);
        let e = es.last();
        if !passes(e, threshold) {
            prev
        } else {
            match prev {
                None => Some(e),
                Some(c) => if better(cands, e, c) {
                    Some(e)
                } else {
                    prev
                },
            }
        }
    }
}

fn key_less(a: &FunctionRecord, b: &FunctionRecord) -> (lt: bool)
    ensures
        lt == key_lt(candidate_key(*a), candidate_key(*b)),
{
    if !str_eq(a.identity.path.as_str(), b.identity.path.as_str()) {
        return str_lt(a.identity.path.as_str(), b.identity.path.as_str());
    }
    if a.start_line != b.start_line {
        return a.start_line < b.start_line;
    }
    str_lt(a.identity.qualified_name.as_str(), b.identity.qualified_name.as_str())
}

fn combined_of(e: &Scored) -> (r: u64)
    ensures
        rank_of(r) == combined(*e),
{
    if value_lt(e.token, e.ast) {
        e.token
    } else {
        e.ast
    }
}

impl CloneIndex {
    /// The most similar of the scored candidates whose similarities both reach `threshold`;
    /// among equally similar ones, the one with the least key.
    pub fn select_best(&self, scored: &Vec<Scored>, threshold: u64) -> (r: Option<Scored>)
        requires
            forall|k: int| 0 <= k < scored@.len() ==> #[trigger] scored@[k].id < self@.len(),
        ensures
            r == best_of(self@, scored@, threshold),
    {
        let mut best: Option<Scored> = None;
        let mut k: usize = 0;
        assert(scored@.take(0) =~= Seq::<Scored>::empty());
        while k < scored.len()
            invariant
                forall|q: int| 0 <= q < scored@.len() ==> #[trigger] scored@[q].id < self@.len(),
                k <= scored@.len(),
                best == best_of(self@, scored@.take(k as int), threshold),
                best matches Some(b) ==> b.id < self@.len(),
            decreases scored@.len() - k,
        {
            let e = scored[k];
            proof {
                assert(scored@.take(k + 1).drop_last() =~= scored@.take(k as int));
                assert(scored@.take(k + 1).last() == e);
            }
            if !value_lt(e.token, threshold) && !value_lt(e.ast, threshold) {
                let replace = match best {
                    None => true,
                    Some(c) => {
                        let mine = combined_of(&e);
                        let theirs = combined_of(&c);
                        value_lt(theirs, mine) || (value_eq(mine, theirs) && key_less(
                            &self.candidates[e.id],
                            &self.candidates[c.id],
                        ))
                    },
                };
                if replace {
                    best = Some(e);
                }
            }
            k = k + 1;
        }
        assert(scored@.take(scored@.len() as int) =~= scored@);
        best
    }
}

/// Strictly increasing.
pub open spec fn strictly_increasing(s: Seq<u64>) -> bool {
    forall|i: int, j: int| 0 <= i < j < s.len() ==> s[i] < s[j]
}

/// How many elements of `l` occur in `r`.
pub open spec fn common_count(l: Seq<u64>, r: Seq<u64>) -> nat
    decreases l.len(),
{
    if l.len() == 0 {
        0
    } else {
        common_count(l.drop_first(), r) + if r.contains(l[0]) {
            1nat
        } else {
            0nat
        }
    }
}

proof fn lemma_common_count_drop(l: Seq<u64>, r: Seq<u64>)
    requires
        r.len() > 0,
        forall|i: int| 0 <= i < l.len() ==> l[i] != r[0],
    ensures
        common_count(l, r) == common_count(l, r.drop_first()),
    decreases l.len(),
{
    if l.len() > 0 {
        assert forall|i: int| 0 <= i < l.drop_first().len() implies l.drop_first()[i] != r[0] by {
            assert(l.drop_first()[i] == l[i + 1]);
        }
        lemma_common_count_drop(l.drop_first(), r);
        if r.contains(l[0]) {
            let k = choose|k: int| 0 <= k < r.len() && r[k] == l[0];
            assert(k != 0);
            assert(r.drop_first()[k - 1] == l[0]);
        }
        if r.drop_first().contains(l[0]) {
            let k = choose|k: int| 0 <= k < r.drop_first().len() && r.drop_first()[k] == l[0];
            assert(r[k + 1] == l[0]);
        }
    }
}

/// For shingle lists that are sorted without repeats, as the analyzer writes them, the shared
/// count of the merge is the number of shingles of the one list that the other list holds.
pub proof fn lemma_shared_is_common(l: Seq<u64>, r: Seq<u64>)
    requires
        strictly_increasing(l),
        strictly_increasing(r),
    ensures
        merge_shared(l, r) == common_count(l, r),
    decreases l.len() + r.len(),
{
    if l.len() == 0 {
    } else if r.len() == 0 {
        lemma_common_count_empty(l, r);
    } else {
        let dl = l.drop_first();
        let dr = r.drop_first();
        assert(strictly_increasing(dl)) by {
            assert forall|i: int, j: int| 0 <= i < j < dl.len() implies dl[i] < dl[j] by {
                assert(dl[i] == l[i + 1] && dl[j] == l[j + 1]);
            }
        }
        assert(strictly_increasing(dr)) by {
            assert forall|i: int, j: int| 0 <= i < j < dr.len() implies dr[i] < dr[j] by {
                assert(dr[i] == r[i + 1] && dr[j] == r[j + 1]);
            }
        }
        if l[0] < r[0] {
            lemma_shared_is_common(dl, r);
            assert(!r.contains(l[0])) by {
                if r.contains(l[0]) {
                    let k = choose|k: int| 0 <= k < r.len() && r[k] == l[0];
                    if k > 0 {
                        assert(r[0] < r[k]);
                    }
                }
            }
        } else if r[0] < l[0] {
            lemma_shared_is_common(l, dr);
            assert forall|i: int| 0 <= i < l.len() implies l[i] != r[0] by {
                if i > 0 {
                    assert(l[0] < l[i]);
                }
            }
            lemma_common_count_drop(l, r);
        } else {
            lemma_shared_is_common(dl, dr);
            assert forall|i: int| 0 <= i < dl.len() implies dl[i] != r[0] by {
                assert(dl[i] == l[i + 1]);
                assert(l[0] < l[i + 1]);
            }
            lemma_common_count_drop(dl, r);
            assert(r.contains(l[0])) by {
                assert(r[0] == l[0]);
            }
        }
    }
}

proof fn lemma_common_count_empty(l: Seq<u64>, r: Seq<u64>)
    requires
        r.len() == 0,
    ensures
        common_count(l, r) == 0,
    decreases l.len(),
{
    if l.len() > 0 {
        lemma_common_count_empty(l.drop_first(), r);
    }
}

/// The chosen candidate passes the threshold, is one of the scored ones, and none of the
/// scored candidates that pass is more similar; nothing is chosen only when none passes.
pub proof fn lemma_best_is_most_similar(cands: Seq<FunctionRecord>, es: Seq<Scored>, threshold: u64)
    ensures
        match best_of(cands, es, threshold) {
            Some(b) => {
                &&& passes(b, threshold)
                &&& es.contains(b)
                &&& forall|k: int| 0 <= k < es.len() && #[trigger] passes(es[k], threshold) ==> combined(es[k])
                    <= combined(b)
            },
            None => forall|k: int| 0 <= k < es.len() ==> !#[trigger] passes(es[k], threshold),
        },
    decreases es.len(),
{
    if es.len() > 0 {
        let d = es.drop_last();
        lemma_best_is_most_similar(cands, d, threshold);
        assert forall|k: int| 0 <= k < d.len() implies #[trigger] es[k] == d[k] by {}
        match best_of(cands, d, threshold) {
            Some(b) => {
                let k = choose|k: int| 0 <= k < d.len() && d[k] == b;
                assert(es[k] == b);
            },
            None => {},
        }
        assert(es[es.len() - 1] == es.last());
    }
}

proof fn lemma_compare_ranked_facts(
    cands: Seq<FunctionRecord>,
    f: FunctionRecord,
    p: NearCloneRule,
    ranked: Seq<RankView>,
)
    requires
        forall|k: int| 0 <= k < ranked.len() ==> #[trigger] ranked[k].id < cands.len(),
    ensures
        compare_ranked(cands, f, p, ranked).len() <= ranked.len(),
        forall|k: int| 0 <= k < compare_ranked(cands, f, p, ranked).len() ==> {
            let c = #[trigger] compare_ranked(cands, f, p, ranked)[k];
            c.id < cands.len() && eligible(cands[c.id as int], f, p)
        },
    decreases ranked.len(),
{
    if ranked.len() > 0 {
        let d = ranked.drop_last();
        assert forall|k: int| 0 <= k < d.len() implies #[trigger] d[k].id < cands.len() by {
            assert(d[k] == ranked[k]);
        }
        lemma_compare_ranked_facts(cands, f, p, d);
        let prev = compare_ranked(cands, f, p, d);
        let all = compare_ranked(cands, f, p, ranked);
        assert(ranked[ranked.len() - 1] == ranked.last());
        assert forall|k: int| 0 <= k < all.len() implies {
            let c = #[trigger] all[k];
            c.id < cands.len() && eligible(cands[c.id as int], f, p)
        } by {
            if k < prev.len() {
                assert(all[k] == prev[k]);
            }
        }
    }
}

/// A function is compared with at most `max_candidates` candidates, never with itself and
/// never with one under the size floors; and with none at all when it is itself under them.
pub proof fn law_shortlist_bounds(cands: Seq<FunctionRecord>, f: FunctionRecord, p: NearCloneRule)
    requires
        cands.len() <= usize::MAX,
    ensures
        shortlist_spec(cands, f, p).len() <= p.max_candidates,
        f.sloc < p.minimum_sloc || f.token_count < p.minimum_tokens ==> shortlist_spec(cands, f, p).len()
            == 0,
        forall|k: int| 0 <= k < shortlist_spec(cands, f, p).len() ==> {
            let c = #[trigger] shortlist_spec(cands, f, p)[k];
            &&& c.id < cands.len()
            &&& cands[c.id as int].identity@ != f.identity@
            &&& cands[c.id as int].sloc >= p.minimum_sloc
            &&& cands[c.id as int].token_count >= p.minimum_tokens
        },
{
    if !(f.sloc < p.minimum_sloc || f.token_count < p.minimum_tokens) {
        let r = ranking(cands, f.shingle_hashes@);
        let limit = if p.max_candidates < r.len() {
            p.max_candidates as int
        } else {
            r.len() as int
        };
        lemma_rank_list_bounded(cands, f.shingle_hashes@, cands.len() as int);
        let q = |v: RankView| v.id < cands.len();
        lemma_sort_keeps(rank_list(cands, f.shingle_hashes@, cands.len() as int), rank_view_order(), q);
        let t = r.take(limit);
        assert forall|k: int| 0 <= k < t.len() implies #[trigger] t[k].id < cands.len() by {
            assert(t[k] == r[k]);
            assert(q(r[k]));
        }
        lemma_compare_ranked_facts(cands, f, p, t);
    }
}

proof fn lemma_key_lt_transitive(
    a: (Seq<char>, usize, Seq<char>),
    b: (Seq<char>, usize, Seq<char>),
    c: (Seq<char>, usize, Seq<char>),
)
    requires
        key_lt(a, b),
        key_lt(b, c),
    ensures
        key_lt(a, c),
{
    if a.0 != b.0 && b.0 != c.0 {
        lemma_lt_transitive(a.0, b.0, c.0);
        if a.0 == c.0 {
            lemma_lt_asymmetric(a.0, b.0);
        }
    } else if a.0 == b.0 && b.0 == c.0 {
        if a.1 == b.1 && b.1 == c.1 {
            lemma_lt_transitive(a.2, b.2, c.2);
        }
    }
}

/// The ranking order is a strict order.
proof fn lemma_rank_order_strict()
    ensures
        transitive(rank_view_order()),
        irreflexive(rank_view_order()),
{
    assert forall|a: RankView, b: RankView, c: RankView|
        #[trigger] rank_view_order()(a, b) && #[trigger] rank_view_order()(b, c) implies rank_view_order()(
        a,
        c,
    ) by {
        if a.count == b.count && b.count == c.count {
            lemma_key_lt_transitive((a.path, a.line, a.name), (b.path, b.line, b.name), (c.path, c.line, c.name));
        }
    }
    assert forall|a: RankView| !#[trigger] rank_view_order()(a, a) by {
        lemma_lt_irreflexive(a.path);
        lemma_lt_irreflexive(a.name);
    }
}

/// What a ranked entry of a candidate says of it: its position, and how many shingles it
/// shares with the function, at least one.
pub open spec fn ranked_entry(cands: Seq<FunctionRecord>, f: Seq<u64>, v: RankView) -> bool {
    &&& v.id < cands.len()
    &&& v.count == capped(overlap(f, cands[v.id as int].shingle_hashes@))
    &&& v.count > 0
    &&& v.path == cands[v.id as int].identity.path@
    &&& v.line == cands[v.id as int].start_line
    &&& v.name == cands[v.id as int].identity.qualified_name@
}

proof fn lemma_rank_list_entries(cands: Seq<FunctionRecord>, f: Seq<u64>, n: int)
    requires
        0 <= n <= cands.len(),
        cands.len() <= usize::MAX,
    ensures
        forall|k: int| 0 <= k < rank_list(cands, f, n).len() ==> ranked_entry(
            cands,
            f,
            #[trigger] rank_list(cands, f, n)[k],
        ),
    decreases n,
{
    if n > 0 {
        lemma_rank_list_entries(cands, f, n - 1);
        let prev = rank_list(cands, f, n - 1);
        let all = rank_list(cands, f, n);
        assert forall|k: int| 0 <= k < all.len() implies ranked_entry(cands, f, #[trigger] all[k]) by {
            if k < prev.len() {
                assert(all[k] == prev[k]);
            }
        }
    }
}

proof fn lemma_rank_list_has(cands: Seq<FunctionRecord>, f: Seq<u64>, n: int, d: int)
    requires
        0 <= d < n <= cands.len(),
        cands.len() <= usize::MAX,
        capped(overlap(f, cands[d].shingle_hashes@)) > 0,
    ensures
        exists|k: int| 0 <= k < rank_list(cands, f, n).len() && (#[trigger] rank_list(cands, f, n)[k]).id == d,
    decreases n,
{
    let prev = rank_list(cands, f, n - 1);
    let all = rank_list(cands, f, n);
    if d == n - 1 {
        assert(all[prev.len() as int].id == d);
    } else {
        lemma_rank_list_has(cands, f, n - 1, d);
        let k = choose|k: int| 0 <= k < prev.len() && (#[trigger] prev[k]).id == d;
        assert(all[k] == prev[k]);
    }
}

/// Each comparison stands for a ranked candidate, in the ranked order, and every eligible
/// ranked candidate has its comparison.
proof fn lemma_compare_ranked_ids(
    cands: Seq<FunctionRecord>,
    f: FunctionRecord,
    p: NearCloneRule,
    ranked: Seq<RankView>,
)
    ensures
        forall|i: int| 0 <= i < compare_ranked(cands, f, p, ranked).len() ==> exists|m: int|
            0 <= m < ranked.len() && (#[trigger] ranked[m]).id == (#[trigger] compare_ranked(cands, f, p, ranked)[i]).id,
        forall|i: int, j: int| 0 <= i < j < compare_ranked(cands, f, p, ranked).len() ==> exists|a: int, b: int|
            0 <= a < b < ranked.len() && (#[trigger] ranked[a]).id == (#[trigger] compare_ranked(cands, f, p, ranked)[i]).id
                && (#[trigger] ranked[b]).id == (#[trigger] compare_ranked(cands, f, p, ranked)[j]).id,
        forall|m: int| 0 <= m < ranked.len() && eligible(cands[(#[trigger] ranked[m]).id as int], f, p) ==> exists|i: int|
            0 <= i < compare_ranked(cands, f, p, ranked).len() && (#[trigger] compare_ranked(cands, f, p, ranked)[i]).id == ranked[m].id,
    decreases ranked.len(),
{
    if ranked.len() > 0 {
        let d = ranked.drop_last();
        lemma_compare_ranked_ids(cands, f, p, d);
        let prev = compare_ranked(cands, f, p, d);
        let all = compare_ranked(cands, f, p, ranked);
        let last = ranked.len() - 1;
        assert(ranked[last] == ranked.last());
        assert forall|i: int| 0 <= i < all.len() implies exists|m: int|
            0 <= m < ranked.len() && (#[trigger] ranked[m]).id == (#[trigger] all[i]).id by {
            if i < prev.len() {
                assert(all[i] == prev[i]);
                let m = choose|m: int| 0 <= m < d.len() && (#[trigger] d[m]).id == prev[i].id;
                assert(ranked[m] == d[m]);
            } else {
                assert(all[i].id == ranked[last].id);
            }
        }
        assert forall|i: int, j: int| 0 <= i < j < all.len() implies exists|a: int, b: int|
            0 <= a < b < ranked.len() && (#[trigger] ranked[a]).id == (#[trigger] all[i]).id
                && (#[trigger] ranked[b]).id == (#[trigger] all[j]).id by {
            if j < prev.len() {
                assert(all[i] == prev[i] && all[j] == prev[j]);
                let (a, b) = choose|a: int, b: int| 0 <= a < b < d.len() && (#[trigger] d[a]).id == prev[i].id
                    && (#[trigger] d[b]).id == prev[j].id;
                assert(ranked[a] == d[a] && ranked[b] == d[b]);
            } else {
                assert(all[i] == prev[i]);
                assert(all[j].id == ranked[last].id);
                let a = choose|a: int| 0 <= a < d.len() && (#[trigger] d[a]).id == prev[i].id;
                assert(ranked[a] == d[a]);
                assert(ranked[a].id == all[i].id && ranked[last].id == all[j].id);
            }
        }
        assert forall|m: int| 0 <= m < ranked.len() && eligible(cands[(#[trigger] ranked[m]).id as int], f, p) implies exists|i: int|
            0 <= i < all.len() && (#[trigger] all[i]).id == ranked[m].id by {
            if m < d.len() {
                assert(d[m] == ranked[m]);
                let i = choose|i: int| 0 <= i < prev.len() && (#[trigger] prev[i]).id == d[m].id;
                assert(all[i] == prev[i]);
            } else {
                assert(all[prev.len() as int].id == ranked[last].id);
            }
        }
    }
}

/// The facts that both shortlist laws rest on: the ranking is in order, holds exactly the
/// candidates that share a shingle, and says how many each shares.
proof fn lemma_ranking_facts(cands: Seq<FunctionRecord>, f: Seq<u64>)
    requires
        cands.len() <= usize::MAX,
    ensures
        in_order(ranking(cands, f), rank_view_order()),
        forall|k: int| 0 <= k < ranking(cands, f).len() ==> ranked_entry(cands, f, #[trigger] ranking(cands, f)[k]),
{
    let l = rank_list(cands, f, cands.len() as int);
    lemma_rank_order_strict();
    lemma_sort_in_order(l, rank_view_order());
    lemma_rank_list_entries(cands, f, cands.len() as int);
    let pred = |v: RankView| ranked_entry(cands, f, v);
    assert forall|k: int| 0 <= k < l.len() implies #[trigger] pred(l[k]) by {
        assert(ranked_entry(cands, f, l[k]));
    }
    lemma_sort_keeps(l, rank_view_order(), pred);
    let r = ranking(cands, f);
    assert forall|k: int| 0 <= k < r.len() implies ranked_entry(cands, f, #[trigger] r[k]) by {
        assert(pred(r[k]));
    }
}

/// A function is compared with candidates that share more of its shingles before those that
/// share fewer.
pub proof fn law_shortlist_most_shared_first(
    cands: Seq<FunctionRecord>,
    f: FunctionRecord,
    p: NearCloneRule,
    i: int,
    j: int,
)
    requires
        cands.len() <= usize::MAX,
        0 <= i < j < shortlist_spec(cands, f, p).len(),
    ensures
        capped(overlap(f.shingle_hashes@, cands[shortlist_spec(cands, f, p)[i].id as int].shingle_hashes@))
            >= capped(overlap(f.shingle_hashes@, cands[shortlist_spec(cands, f, p)[j].id as int].shingle_hashes@)),
{
    let fs = f.shingle_hashes@;
    let r = ranking(cands, fs);
    let limit = if p.max_candidates < r.len() {
        p.max_candidates as int
    } else {
        r.len() as int
    };
    let t = r.take(limit);
    let sl = shortlist_spec(cands, f, p);
    assert(sl == compare_ranked(cands, f, p, t));
    lemma_ranking_facts(cands, fs);
    lemma_compare_ranked_ids(cands, f, p, t);
    let (a, b) = choose|a: int, b: int| 0 <= a < b < t.len() && (#[trigger] t[a]).id == sl[i].id
        && (#[trigger] t[b]).id == sl[j].id;
    assert(t[a] == r[a] && t[b] == r[b]);
    assert(ranked_entry(cands, fs, r[a]) && ranked_entry(cands, fs, r[b]));
    assert(!rank_view_order()(r[b], r[a]));
}

/// A function is compared with every eligible candidate that shares more of its shingles
/// than one it is compared with: the shortlist never passes over a better-sharing candidate
/// for a worse one.
pub proof fn law_shortlist_keeps_better_sharing(
    cands: Seq<FunctionRecord>,
    f: FunctionRecord,
    p: NearCloneRule,
    k: int,
    d: int,
)
    requires
        cands.len() <= usize::MAX,
        0 <= k < shortlist_spec(cands, f, p).len(),
        0 <= d < cands.len(),
        eligible(cands[d], f, p),
        capped(overlap(f.shingle_hashes@, cands[d].shingle_hashes@)) > capped(
            overlap(f.shingle_hashes@, cands[shortlist_spec(cands, f, p)[k].id as int].shingle_hashes@),
        ),
    ensures
        exists|i: int| 0 <= i < shortlist_spec(cands, f, p).len() && (#[trigger] shortlist_spec(cands, f, p)[i]).id == d,
{
    let fs = f.shingle_hashes@;
    let l = rank_list(cands, fs, cands.len() as int);
    let r = ranking(cands, fs);
    let limit = if p.max_candidates < r.len() {
        p.max_candidates as int
    } else {
        r.len() as int
    };
    let t = r.take(limit);
    let sl = shortlist_spec(cands, f, p);
    assert(sl == compare_ranked(cands, f, p, t));
    lemma_ranking_facts(cands, fs);
    lemma_compare_ranked_ids(cands, f, p, t);
    let mk = choose|m: int| 0 <= m < t.len() && (#[trigger] t[m]).id == sl[k].id;
    assert(t[mk] == r[mk]);
    assert(ranked_entry(cands, fs, r[mk]));
    lemma_rank_list_has(cands, fs, cands.len() as int, d);
    let q = choose|q: int| 0 <= q < l.len() && (#[trigger] l[q]).id == d;
    let v = l[q];
    assert(l.contains(v));
    lemma_sort_permutes(l, rank_view_order());
    vstd::seq_lib::to_multiset_contains(l, v);
    vstd::seq_lib::to_multiset_contains(r, v);
    assert(r.contains(v));
    let md = choose|m: int| 0 <= m < r.len() && r[m] == v;
    lemma_rank_list_entries(cands, fs, cands.len() as int);
    assert(ranked_entry(cands, fs, l[q]));
    if md >= limit {
        assert(rank_view_order()(r[md], r[mk]));
        assert(!rank_view_order()(r[md], r[mk]));
    }
    assert(t[md] == r[md]);
    assert(eligible(cands[t[md].id as int], f, p));
}

/// Candidates that share as many shingles are compared in the order of their path, then
/// start line, then qualified name.
pub proof fn law_shortlist_ties_by_location(
    cands: Seq<FunctionRecord>,
    f: FunctionRecord,
    p: NearCloneRule,
    i: int,
    j: int,
)
    requires
        cands.len() <= usize::MAX,
        0 <= i < j < shortlist_spec(cands, f, p).len(),
        capped(overlap(f.shingle_hashes@, cands[shortlist_spec(cands, f, p)[i].id as int].shingle_hashes@))
            == capped(overlap(f.shingle_hashes@, cands[shortlist_spec(cands, f, p)[j].id as int].shingle_hashes@)),
    ensures
        ({
            let a = cands[shortlist_spec(cands, f, p)[i].id as int];
            let b = cands[shortlist_spec(cands, f, p)[j].id as int];
            &&& a.identity.path@ != b.identity.path@ ==> seq_lt(a.identity.path@, b.identity.path@)
            &&& a.identity.path@ == b.identity.path@ ==> a.start_line <= b.start_line
            &&& a.identity.path@ == b.identity.path@ && a.start_line == b.start_line
                && a.identity.qualified_name@ != b.identity.qualified_name@ ==> seq_lt(
                a.identity.qualified_name@,
                b.identity.qualified_name@,
            )
        }),
{
    let fs = f.shingle_hashes@;
    let r = ranking(cands, fs);
    let limit = if p.max_candidates < r.len() {
        p.max_candidates as int
    } else {
        r.len() as int
    };
    let t = r.take(limit);
    let sl = shortlist_spec(cands, f, p);
    assert(sl == compare_ranked(cands, f, p, t));
    lemma_ranking_facts(cands, fs);
    lemma_compare_ranked_ids(cands, f, p, t);
    let (x, y) = choose|x: int, y: int| 0 <= x < y < t.len() && (#[trigger] t[x]).id == sl[i].id
        && (#[trigger] t[y]).id == sl[j].id;
    assert(t[x] == r[x] && t[y] == r[y]);
    assert(ranked_entry(cands, fs, r[x]) && ranked_entry(cands, fs, r[y]));
    assert(!rank_view_order()(r[y], r[x]));
    let u = r[x];
    let w = r[y];
    if u.path != w.path {
        lemma_lt_total(u.path, w.path);
    } else if u.line == w.line && u.name != w.name {
        lemma_lt_total(u.name, w.name);
    }
}

} // verus!
