use std::collections::BTreeMap;
use vstd::prelude::*;
use vstd::std_specs::cmp::OrdSpec;
use vstd::std_specs::iter::IteratorSpec;

verus! {

pub type Identity = usize;

/// A symbol: a namespace identity and an identity local to that namespace.
#[derive(Clone, Copy, PartialEq, Eq, Structural, Hash, Debug)]
pub struct Symbol(pub Identity, pub Identity);

/// A run of free identities: `length` identities from `begin` on.
#[derive(Clone, Copy, PartialEq, Eq, Structural, Debug)]
pub struct IdentityRange {
    pub begin: Identity,
    pub length: usize,
}

/// The identities a finite range holds.
pub open spec fn range_set(r: IdentityRange) -> Set<int> {
    Set::new(|x: int| r.begin <= x < r.begin + r.length)
}

/// The identities a sequence of finite ranges holds.
pub open spec fn ranges_set(s: Seq<IdentityRange>) -> Set<int>
    decreases s.len(),
{
    if s.len() == 0 {
        Set::empty()
    } else {
        ranges_set(s.drop_last()).union(range_set(s.last()))
    }
}

/// The identities of the trailing run: all from `begin` on, `usize::MAX` excepted.
pub open spec fn tail_set(begin: int) -> Set<int> {
    Set::new(|x: int| begin <= x < usize::MAX)
}

/// A well-formed free list: sorted by `begin`, every range separated from the next by at
/// least one identity in use, finite ranges non-empty, and a last entry that stands for the
/// unbounded run (its `length` is unused and kept at 0).
pub open spec fn ranges_wf(s: Seq<IdentityRange>) -> bool {
    &&& s.len() >= 1
    &&& forall|i: int| 0 <= i < s.len() - 1 ==> #[trigger] s[i].length >= 1
    &&& forall|i: int, j: int|
        #![trigger s[i], s[j]]
        0 <= i < j < s.len() ==> s[i].begin + s[i].length < s[j].begin
    &&& s.last().length == 0
}

/// The free identities a well-formed free list describes.
pub open spec fn ranges_free(s: Seq<IdentityRange>) -> Set<int> {
    ranges_set(s.drop_last()).union(tail_set(s.last().begin as int))
}

proof fn lemma_ranges_set_concat(a: Seq<IdentityRange>, b: Seq<IdentityRange>)
    ensures
        ranges_set(a + b) == ranges_set(a).union(ranges_set(b)),
    decreases b.len(),
{
    if b.len() == 0 {
        assert(a + b =~= a);
        assert(ranges_set(a).union(ranges_set(b)) =~= ranges_set(a));
    } else {
        lemma_ranges_set_concat(a, b.drop_last());
        assert((a + b).drop_last() =~= a + b.drop_last());
        assert((a + b).last() == b.last());
        assert(ranges_set(a + b) =~= ranges_set(a).union(ranges_set(b)));
    }
}

proof fn lemma_ranges_set_single(r: IdentityRange)
    ensures
        ranges_set(seq![r]) == range_set(r),
{
    assert(seq![r].drop_last() =~= Seq::<IdentityRange>::empty());
    assert(ranges_set(Seq::<IdentityRange>::empty()) == Set::<int>::empty());
    assert(seq![r].last() == r);
    assert(ranges_set(seq![r]) =~= range_set(r));
}

/// Every identity of a sequence of ranges lies in one of them.
proof fn lemma_ranges_set_member(s: Seq<IdentityRange>, x: int)
    ensures
        ranges_set(s).contains(x) <==> exists|i: int|
            0 <= i < s.len() && #[trigger] s[i].begin <= x < s[i].begin + s[i].length,
    decreases s.len(),
{
    if s.len() > 0 {
        lemma_ranges_set_member(s.drop_last(), x);
        if ranges_set(s).contains(x) {
            if ranges_set(s.drop_last()).contains(x) {
                let i = choose|i: int|
                    0 <= i < s.drop_last().len() && #[trigger] s.drop_last()[i].begin <= x
                        < s.drop_last()[i].begin + s.drop_last()[i].length;
                assert(s[i] == s.drop_last()[i]);
            } else {
                assert(s[s.len() - 1] == s.last());
            }
        }
        if exists|i: int| 0 <= i < s.len() && #[trigger] s[i].begin <= x < s[i].begin + s[i].length {
            let i = choose|i: int|
                0 <= i < s.len() && #[trigger] s[i].begin <= x < s[i].begin + s[i].length;
            if i < s.len() - 1 {
                assert(s.drop_last()[i] == s[i]);
            }
        }
    }
}

/// The free list `s` split at `k - 1`: the ranges before, the range itself and the rest.
proof fn lemma_split_at(s: Seq<IdentityRange>, k: int)
    requires
        0 < k <= s.len(),
    ensures
        s == s.subrange(0, k - 1) + seq![s[k - 1]] + s.subrange(k, s.len() as int),
{
    assert(s =~= s.subrange(0, k - 1) + seq![s[k - 1]] + s.subrange(k, s.len() as int));
}

/// No identity of the ranges before index `k - 1` reaches `s[k - 1].begin`, and none of the
/// finite ranges from `k` on starts at or below `x`.
proof fn lemma_outside(s: Seq<IdentityRange>, k: int, x: int)
    requires
        ranges_wf(s),
        0 <= k <= s.len(),
        forall|i: int| 0 <= i < k ==> #[trigger] s[i].begin <= x,
        forall|i: int| k <= i < s.len() ==> #[trigger] s[i].begin > x,
    ensures
        k > 0 ==> !ranges_set(s.subrange(0, k - 1)).contains(x),
        k > 0 ==> forall|y: int| #[trigger] ranges_set(s.subrange(0, k - 1)).contains(y) ==> y < s[k - 1].begin,
        k < s.len() ==> forall|y: int|
            #[trigger] ranges_set(s.subrange(k, s.len() - 1)).contains(y) ==> y > x && y > s[k].begin - 1,
        k < s.len() ==> forall|y: int|
            #[trigger] tail_set(s.last().begin as int).contains(y) ==> y > x,
        k < s.len() - 1 ==> forall|y: int|
            #[trigger] ranges_set(s.subrange(k, s.len() - 1)).contains(y) ==> y >= s[k].begin,
{
    if k > 0 {
        let p = s.subrange(0, k - 1);
        assert forall|y: int| #[trigger] ranges_set(p).contains(y) implies y < s[k - 1].begin by {
            lemma_ranges_set_member(p, y);
            let i = choose|i: int| 0 <= i < p.len() && #[trigger] p[i].begin <= y < p[i].begin + p[i].length;
            assert(p[i] == s[i]);
            assert(s[i].begin + s[i].length < s[k - 1].begin);
        }
    }
    if k < s.len() {
        let q = s.subrange(k, s.len() - 1);
        assert forall|y: int| #[trigger] ranges_set(q).contains(y) implies y > x && y > s[k].begin - 1 by {
            lemma_ranges_set_member(q, y);
            let i = choose|i: int| 0 <= i < q.len() && #[trigger] q[i].begin <= y < q[i].begin + q[i].length;
            assert(q[i] == s[k + i]);
            if i > 0 {
                assert(s[k].begin + s[k].length < s[k + i].begin);
            }
        }
        assert(s.last() == s[s.len() - 1]);
    }
}

/// Finite ranges that are non-empty, sorted and separated from each other.
pub open spec fn finite_run_wf(m: Seq<IdentityRange>) -> bool {
    &&& forall|i: int| 0 <= i < m.len() ==> #[trigger] m[i].length >= 1
    &&& forall|i: int, j: int|
        #![trigger m[i], m[j]]
        0 <= i < j < m.len() ==> m[i].begin + m[i].length < m[j].begin
}

/// Every range of `m` lies strictly between the identities `lo` and `hi`.
pub open spec fn run_between(m: Seq<IdentityRange>, lo: int, hi: int) -> bool {
    forall|i: int| 0 <= i < m.len() ==> lo < #[trigger] m[i].begin && m[i].begin + m[i].length < hi
}

/// The end (one past the last identity) of the range before index `lo`, or -1.
pub open spec fn end_before(s: Seq<IdentityRange>, lo: int) -> int {
    if lo > 0 {
        s[lo - 1].begin + s[lo - 1].length
    } else {
        -1
    }
}

/// Replacing the finite ranges `s[lo..hi]` by another run of finite ranges that fits in
/// the same gap keeps the free list well formed; its free set changes by that run alone.
proof fn lemma_splice_finite(s: Seq<IdentityRange>, t: Seq<IdentityRange>, lo: int, hi: int, m: Seq<IdentityRange>)
    requires
        ranges_wf(s),
        0 <= lo <= hi < s.len(),
        t == s.subrange(0, lo) + m + s.subrange(hi, s.len() as int),
        finite_run_wf(m),
        run_between(m, end_before(s, lo), s[hi].begin as int),
    ensures
        ranges_wf(t),
        t.last() == s.last(),
        ranges_free(t) == ranges_set(s.subrange(0, lo)).union(ranges_set(m)).union(
            ranges_set(s.subrange(hi, s.len() - 1)),
        ).union(tail_set(s.last().begin as int)),
{
    let p = s.subrange(0, lo);
    let q = s.subrange(hi, s.len() as int);
    let n = s.len() as int;
    let ml = m.len() as int;
    assert forall|i: int| 0 <= i < t.len() - 1 implies #[trigger] t[i].length >= 1 by {
        if i < lo {
            assert(t[i] == s[i]);
        } else if i < lo + ml {
            assert(t[i] == m[i - lo]);
        } else {
            assert(t[i] == s[i - lo - ml + hi]);
        }
    }
    assert forall|i: int, j: int| 0 <= i < j < t.len() implies #[trigger] t[i].begin + t[i].length
        < #[trigger] t[j].begin by {
        if i < lo {
            assert(t[i] == s[i]);
            if j < lo {
                assert(t[j] == s[j]);
            } else if j < lo + ml {
                assert(t[j] == m[j - lo]);
                if i < lo - 1 {
                    assert(s[i].begin + s[i].length < s[lo - 1].begin);
                }
            } else {
                assert(t[j] == s[j - lo - ml + hi]);
            }
        } else if i < lo + ml {
            assert(t[i] == m[i - lo]);
            if j < lo + ml {
                assert(t[j] == m[j - lo]);
            } else {
                assert(t[j] == s[j - lo - ml + hi]);
                if j - lo - ml + hi > hi {
                    assert(s[hi].begin + s[hi].length < s[j - lo - ml + hi].begin);
                }
            }
        } else {
            assert(t[i] == s[i - lo - ml + hi]);
            assert(t[j] == s[j - lo - ml + hi]);
        }
    }
    assert(t.last() == s.last());
    assert(t.drop_last() =~= p + m + q.drop_last());
    assert(q.drop_last() =~= s.subrange(hi, n - 1));
    lemma_ranges_set_concat(p + m, q.drop_last());
    lemma_ranges_set_concat(p, m);
}

/// Replacing the ranges from `lo` on, the unbounded run included, by a run of finite ranges
/// and a new unbounded run keeps the free list well formed.
proof fn lemma_splice_tail(s: Seq<IdentityRange>, t: Seq<IdentityRange>, lo: int, m: Seq<IdentityRange>, last: IdentityRange)
    requires
        ranges_wf(s),
        0 <= lo < s.len(),
        t == s.subrange(0, lo) + m + seq![last],
        finite_run_wf(m),
        run_between(m, end_before(s, lo), last.begin as int),
        end_before(s, lo) < last.begin,
        last.length == 0,
    ensures
        ranges_wf(t),
        ranges_free(t) == ranges_set(s.subrange(0, lo)).union(ranges_set(m)).union(
            tail_set(last.begin as int),
        ),
{
    let p = s.subrange(0, lo);
    let ml = m.len() as int;
    assert forall|i: int| 0 <= i < t.len() - 1 implies #[trigger] t[i].length >= 1 by {
        if i < lo {
            assert(t[i] == s[i]);
        } else {
            assert(t[i] == m[i - lo]);
        }
    }
    assert forall|i: int, j: int| 0 <= i < j < t.len() implies #[trigger] t[i].begin + t[i].length
        < #[trigger] t[j].begin by {
        if i < lo {
            assert(t[i] == s[i]);
            if i < lo - 1 {
                assert(s[i].begin + s[i].length < s[lo - 1].begin);
            }
            if j < lo {
                assert(t[j] == s[j]);
            } else if j < lo + ml {
                assert(t[j] == m[j - lo]);
            } else {
                assert(t[j] == last);
            }
        } else if i < lo + ml {
            assert(t[i] == m[i - lo]);
            if j < lo + ml {
                assert(t[j] == m[j - lo]);
            } else {
                assert(t[j] == last);
            }
        }
    }
    assert(t.drop_last() =~= p + m);
    lemma_ranges_set_concat(p, m);
}

/// What the splice lemmas give for the free list as it stands.
proof fn lemma_free_split(s: Seq<IdentityRange>, k: int)
    requires
        ranges_wf(s),
        0 < k <= s.len(),
    ensures
        k < s.len() ==> ranges_free(s) == ranges_set(s.subrange(0, k - 1)).union(range_set(s[k - 1])).union(
            ranges_set(s.subrange(k, s.len() - 1)),
        ).union(tail_set(s.last().begin as int)),
        k == s.len() ==> ranges_free(s) == ranges_set(s.subrange(0, k - 1)).union(tail_set(s.last().begin as int)),
{
    if k < s.len() {
        let m = seq![s[k - 1]];
        lemma_split_at(s, k);
        lemma_splice_finite(s, s, k - 1, k, m);
        lemma_ranges_set_single(s[k - 1]);
    } else {
        assert(s.drop_last() =~= s.subrange(0, k - 1));
    }
}

proof fn lemma_union_remove(a: Set<int>, r: Set<int>, m: Set<int>, b: Set<int>, x: int)
    requires
        m == r.remove(x),
        !a.contains(x),
        !b.contains(x),
    ensures
        a.union(m).union(b) == a.union(r).union(b).remove(x),
{
    assert(a.union(m).union(b) =~= a.union(r).union(b).remove(x));
}

proof fn lemma_union_insert(a: Set<int>, r: Set<int>, m: Set<int>, b: Set<int>, x: int)
    requires
        m == r.insert(x),
    ensures
        a.union(m).union(b) == a.union(r).union(b).insert(x),
{
    assert(a.union(m).union(b) =~= a.union(r).union(b).insert(x));
}

/// The identities of a run of at most two ranges.
proof fn lemma_short_run_set(m: Seq<IdentityRange>)
    requires
        m.len() <= 2,
    ensures
        m.len() == 0 ==> ranges_set(m) == Set::<int>::empty(),
        m.len() == 1 ==> ranges_set(m) == range_set(m[0]),
        m.len() == 2 ==> ranges_set(m) == range_set(m[0]).union(range_set(m[1])),
{
    if m.len() == 2 {
        assert(m =~= seq![m[0]] + seq![m[1]]);
        lemma_ranges_set_concat(seq![m[0]], seq![m[1]]);
        lemma_ranges_set_single(m[0]);
        lemma_ranges_set_single(m[1]);
    } else if m.len() == 1 {
        assert(m =~= seq![m[0]]);
        lemma_ranges_set_single(m[0]);
    } else {
        assert(ranges_set(m) == Set::<int>::empty());
    }
}

/// The free set of a free list, cut at `lo` and `hi`.
proof fn lemma_free_decomp(s: Seq<IdentityRange>, lo: int, hi: int)
    requires
        ranges_wf(s),
        0 <= lo <= hi < s.len(),
    ensures
        ranges_free(s) == ranges_set(s.subrange(0, lo)).union(ranges_set(s.subrange(lo, hi))).union(
            ranges_set(s.subrange(hi, s.len() - 1)),
        ).union(tail_set(s.last().begin as int)),
{
    let m = s.subrange(lo, hi);
    assert(s =~= s.subrange(0, lo) + m + s.subrange(hi, s.len() as int));
    assert forall|i: int| 0 <= i < m.len() implies end_before(s, lo) < #[trigger] m[i].begin
        && m[i].begin + m[i].length < s[hi].begin by {
        assert(m[i] == s[lo + i]);
        if lo > 0 {
            assert(s[lo - 1].begin + s[lo - 1].length < s[lo + i].begin);
        }
        assert(s[lo + i].begin + s[lo + i].length < s[hi].begin);
    }
    assert forall|i: int, j: int| 0 <= i < j < m.len() implies #[trigger] m[i].begin + m[i].length
        < #[trigger] m[j].begin by {
        assert(m[i] == s[lo + i] && m[j] == s[lo + j]);
    }
    assert forall|i: int| 0 <= i < m.len() implies #[trigger] m[i].length >= 1 by {
        assert(m[i] == s[lo + i]);
    }
    lemma_splice_finite(s, s, lo, hi, m);
}

/// Replacing `s[lo..hi]` by the run `m`, which holds the same identities and `x`, adds `x`
/// to the free identities.
proof fn lemma_insert_splice(s: Seq<IdentityRange>, t: Seq<IdentityRange>, lo: int, hi: int, m: Seq<IdentityRange>, x: int)
    requires
        ranges_wf(s),
        0 <= lo <= hi < s.len(),
        hi - lo <= 2,
        m.len() <= 2,
        t == s.subrange(0, lo) + m + s.subrange(hi, s.len() as int),
        finite_run_wf(m),
        run_between(m, end_before(s, lo), s[hi].begin as int),
        ranges_set(m) == ranges_set(s.subrange(lo, hi)).insert(x),
    ensures
        ranges_wf(t),
        ranges_free(t) == ranges_free(s).insert(x),
{
    let n = s.len() as int;
    lemma_splice_finite(s, t, lo, hi, m);
    lemma_free_decomp(s, lo, hi);
    lemma_union_insert(
        ranges_set(s.subrange(0, lo)),
        ranges_set(s.subrange(lo, hi)),
        ranges_set(m),
        ranges_set(s.subrange(hi, n - 1)).union(tail_set(s.last().begin as int)),
        x,
    );
    assert(ranges_free(t) =~= ranges_free(s).insert(x));
}

/// A free list holding the free identities of a namespace.
pub struct VecIdentityPool {
    collection: Vec<IdentityRange>,
}

pub type IdentityPool = VecIdentityPool;

impl View for VecIdentityPool {
    type V = Set<int>;

    /// The free identities.
    closed spec fn view(&self) -> Set<int> {
        ranges_free(self.collection@)
    }
}

impl VecIdentityPool {
    /// The free list itself.
    pub closed spec fn ranges(&self) -> Seq<IdentityRange> {
        self.collection@
    }

    pub closed spec fn wf(&self) -> bool {
        ranges_wf(self.collection@)
    }

    /// The first identity of the unbounded free run, which was never handed out.
    pub closed spec fn next_fresh(&self) -> int {
        self.collection@.last().begin as int
    }

    /// What the pool's invariant gives its users.
    pub proof fn lemma_wf(&self)
        requires
            self.wf(),
        ensures
            ranges_wf(self.ranges()),
            self@ == ranges_free(self.ranges()),
            self.next_fresh() == self.ranges().last().begin,
            forall|x: int| #[trigger] self@.contains(x) ==> 0 <= x < usize::MAX,
            forall|x: int| self.next_fresh() <= x < usize::MAX ==> #[trigger] self@.contains(x),
            self.next_fresh() > 0 ==> !self@.contains(self.next_fresh() - 1),
            0 <= self.next_fresh() <= usize::MAX,
    {
        let s = self.collection@;
        let n = s.len() as int;
        assert forall|x: int| #[trigger] self@.contains(x) implies 0 <= x < usize::MAX by {
            if ranges_set(s.drop_last()).contains(x) {
                lemma_ranges_set_member(s.drop_last(), x);
                let i = choose|i: int|
                    0 <= i < s.drop_last().len() && #[trigger] s.drop_last()[i].begin <= x
                        < s.drop_last()[i].begin + s.drop_last()[i].length;
                assert(s[i] == s.drop_last()[i]);
                assert(s[i].begin + s[i].length < s[n - 1].begin);
            }
        }
        if self.next_fresh() > 0 {
            let y = self.next_fresh() - 1;
            if ranges_set(s.drop_last()).contains(y) {
                lemma_ranges_set_member(s.drop_last(), y);
                let i = choose|i: int|
                    0 <= i < s.drop_last().len() && #[trigger] s.drop_last()[i].begin <= y
                        < s.drop_last()[i].begin + s.drop_last()[i].length;
                assert(s[i] == s.drop_last()[i]);
                assert(s[i].begin + s[i].length < s[n - 1].begin);
            }
        }
    }

    pub fn new() -> (r: Self)
        ensures
            r.wf(),
            r.ranges() == seq![IdentityRange { begin: 0, length: 0 }],
            forall|x: int| #[trigger] r@.contains(x) <==> 0 <= x < usize::MAX,
    {
        let r = VecIdentityPool { collection: vec![IdentityRange { begin: 0, length: 0 }] };
        proof {
            assert(r.collection@.drop_last() =~= Seq::<IdentityRange>::empty());
        }
        r
    }

    /// The free list: sorted, disjoint ranges, the unbounded run last.
    pub fn get_ranges(&self) -> (r: &Vec<IdentityRange>)
        requires
            self.wf(),
        ensures
            r@ == self.ranges(),
            ranges_wf(r@),
    {
        &self.collection
    }

    /// The lowest identity from which on every identity is free.
    pub fn get(&self) -> (r: Identity)
        requires
            self.wf(),
        ensures
            r == self.next_fresh(),
            forall|x: int| r <= x < usize::MAX ==> #[trigger] self@.contains(x),
            r > 0 ==> !self@.contains(r - 1),
    {
        proof {
            self.lemma_wf();
        }
        self.collection[self.collection.len() - 1].begin
    }

    /// Whether no identity is in use.
    pub fn is_full(&self) -> (r: bool)
        requires
            self.wf(),
        ensures
            r == forall|x: int| 0 <= x < usize::MAX ==> #[trigger] self@.contains(x),
    {
        let ghost s = self.collection@;
        let r = self.collection.len() == 1 && self.get() == 0;
        proof {
            self.lemma_wf();
            if self.collection@.len() == 1 {
                if s.last().begin > 0 {
                    assert(!self@.contains(s.last().begin - 1));
                }
            } else {
                let e = s[0].begin + s[0].length;
                assert(s[0].begin + s[0].length < s[s.len() - 1].begin);
                if self@.contains(e) {
                    if ranges_set(s.drop_last()).contains(e) {
                        lemma_ranges_set_member(s.drop_last(), e);
                        let i = choose|i: int|
                            0 <= i < s.drop_last().len() && #[trigger] s.drop_last()[i].begin <= e
                                < s.drop_last()[i].begin + s.drop_last()[i].length;
                        assert(s[i] == s.drop_last()[i]);
                        if i > 0 {
                            assert(s[0].begin + s[0].length < s[i].begin);
                        }
                    }
                }
                assert(!self@.contains(e));
            }
        }
        r
    }

    /// The number of ranges whose `begin` is at most `identity`.
    fn find(&self, identity: Identity) -> (k: usize)
        requires
            self.wf(),
        ensures
            k <= self.ranges().len(),
            forall|i: int| 0 <= i < k ==> #[trigger] self.ranges()[i].begin <= identity,
            forall|i: int| k <= i < self.ranges().len() ==> #[trigger] self.ranges()[i].begin > identity,
    {
        let ghost s = self.collection@;
        let mut low: usize = 0;
        let mut high: usize = self.collection.len();
        while low < high
            invariant
                s == self.collection@,
                ranges_wf(s),
                low <= high <= s.len(),
                forall|i: int| 0 <= i < low ==> #[trigger] s[i].begin <= identity,
                forall|i: int| high <= i < s.len() ==> #[trigger] s[i].begin > identity,
            decreases high - low,
        {
            let mid = low + (high - low) / 2;
            if self.collection[mid].begin <= identity {
                proof {
                    assert forall|i: int| 0 <= i <= mid implies #[trigger] s[i].begin <= identity by {
                        if i < mid {
                            assert(s[i].begin + s[i].length < s[mid as int].begin);
                        }
                    }
                }
                low = mid + 1;
            } else {
                proof {
                    assert forall|i: int| mid <= i < s.len() implies #[trigger] s[i].begin > identity by {
                        if i > mid {
                            assert(s[mid as int].begin + s[mid as int].length < s[i].begin);
                        }
                    }
                }
                high = mid;
            }
        }
        low
    }

    /// `remove` where `identity` lies in the finite range `k - 1`.
    #[verifier::rlimit(80)]
    fn remove_finite(&mut self, k: usize, identity: Identity)
        requires
            old(self).wf(),
            0 < k < old(self).ranges().len(),
            old(self).ranges()[k - 1].begin <= identity < old(self).ranges()[k - 1].begin
                + old(self).ranges()[k - 1].length,
        ensures
            final(self).wf(),
            final(self)@ == old(self)@.remove(identity as int),
    {
        let ghost s = self.collection@;
        let ghost n = s.len() as int;
        let ghost x = identity as int;
        let ghost old_free = self@;
        let ghost p = s.subrange(0, k - 1);
        let ghost m: Seq<IdentityRange>;
        let range = self.collection[k - 1];
        proof {
            assert(range.begin + range.length < s[n - 1].begin);
        }
        if range.length == 1 {
            self.collection.remove(k - 1);
            proof {
                m = Seq::empty();
            }
        } else if identity == range.begin {
            self.collection.set(k - 1, IdentityRange { begin: range.begin + 1, length: range.length - 1 });
            proof {
                m = seq![IdentityRange { begin: (range.begin + 1) as usize, length: (range.length - 1) as usize }];
            }
        } else if identity == range.begin + range.length - 1 {
            self.collection.set(k - 1, IdentityRange { begin: range.begin, length: range.length - 1 });
            proof {
                m = seq![IdentityRange { begin: range.begin, length: (range.length - 1) as usize }];
            }
        } else {
            let count = identity - range.begin;
            self.collection.set(k - 1, IdentityRange { begin: identity + 1, length: range.length - 1 - count });
            self.collection.insert(k - 1, IdentityRange { begin: range.begin, length: count });
            proof {
                m = seq![
                    IdentityRange { begin: range.begin, length: count },
                    IdentityRange { begin: (identity + 1) as usize, length: (range.length - 1 - count) as usize },
                ];
            }
        }
        proof {
            let t = self.collection@;
            assert(t =~= p + m + s.subrange(k as int, n));
            lemma_short_run_set(m);
            assert(ranges_set(m) =~= range_set(range).remove(x));
            lemma_splice_finite(s, t, k - 1, k as int, m);
            lemma_free_split(s, k as int);
            lemma_outside(s, k as int, x);
            lemma_union_remove(
                ranges_set(p),
                range_set(range),
                ranges_set(m),
                ranges_set(s.subrange(k as int, n - 1)).union(tail_set(s.last().begin as int)),
                x,
            );
            assert(ranges_set(p).union(ranges_set(m)).union(ranges_set(s.subrange(k as int, n - 1))).union(
                tail_set(s.last().begin as int)) =~= ranges_set(p).union(ranges_set(m)).union(
                ranges_set(s.subrange(k as int, n - 1)).union(tail_set(s.last().begin as int))));
            assert(ranges_set(p).union(range_set(range)).union(ranges_set(s.subrange(k as int, n - 1))).union(
                tail_set(s.last().begin as int)) =~= ranges_set(p).union(range_set(range)).union(
                ranges_set(s.subrange(k as int, n - 1)).union(tail_set(s.last().begin as int))));
        }
    }

    /// `remove` where `identity` lies in the unbounded run, the last entry `k - 1`.
    fn remove_tail(&mut self, k: usize, identity: Identity)
        requires
            old(self).wf(),
            k == old(self).ranges().len(),
            old(self).ranges()[k - 1].begin <= identity < usize::MAX,
        ensures
            final(self).wf(),
            final(self)@ == old(self)@.remove(identity as int),
    {
        let ghost s = self.collection@;
        let ghost n = s.len() as int;
        let ghost x = identity as int;
        let ghost old_free = self@;
        let ghost p = s.subrange(0, k - 1);
        let ghost m: Seq<IdentityRange>;
        let ghost last: IdentityRange;
        let range = self.collection[k - 1];
        if identity == range.begin {
            self.collection.set(k - 1, IdentityRange { begin: range.begin + 1, length: 0 });
            proof {
                m = Seq::empty();
                last = IdentityRange { begin: (range.begin + 1) as usize, length: 0 };
            }
        } else {
            let count = identity - range.begin;
            self.collection.set(k - 1, IdentityRange { begin: identity + 1, length: 0 });
            self.collection.insert(k - 1, IdentityRange { begin: range.begin, length: count });
            proof {
                m = seq![IdentityRange { begin: range.begin, length: count }];
                last = IdentityRange { begin: (identity + 1) as usize, length: 0 };
            }
        }
        proof {
            let t = self.collection@;
            assert(t =~= p + m + seq![last]);
            lemma_short_run_set(m);
            lemma_splice_tail(s, t, k - 1, m, last);
            lemma_free_split(s, k as int);
            lemma_outside(s, k as int, x);
            assert(self@ =~= old_free.remove(x));
        }
    }

    /// Marks `identity` as in use; false (and nothing changes) where it was not free.
    pub fn remove(&mut self, identity: Identity) -> (r: bool)
        requires
            old(self).wf(),
        ensures
            final(self).wf(),
            r == old(self)@.contains(identity as int),
            final(self)@ == old(self)@.remove(identity as int),
    {
        proof {
            self.lemma_wf();
        }
        let ghost s = self.collection@;
        let ghost n = s.len() as int;
        let ghost x = identity as int;
        if identity == usize::MAX {
            proof {
                assert(self@.remove(x) =~= self@);
            }
            return false;
        }
        let k = self.find(identity);
        proof {
            lemma_outside(s, k as int, x);
        }
        if k == 0 {
            proof {
                assert(s.subrange(0, n - 1) =~= s.drop_last());
                assert(!self@.contains(x));
                assert(self@.remove(x) =~= self@);
            }
            return false;
        }
        let len = self.collection.len();
        let range = self.collection[k - 1];
        proof {
            lemma_free_split(s, k as int);
        }
        if k < len {
            if identity >= range.begin + range.length {
                proof {
                    assert(!self@.contains(x));
                    assert(self@.remove(x) =~= self@);
                }
                return false;
            }
            self.remove_finite(k, identity);
        } else {
            self.remove_tail(k, identity);
        }
        proof {
            assert(old(self)@.contains(x));
        }
        true
    }

    /// `insert` where the range after the gap holding `identity` is the finite range `k`.
    #[verifier::rlimit(60)]
    fn insert_before_finite(&mut self, k: usize, identity: Identity)
        requires
            old(self).wf(),
            k + 1 < old(self).ranges().len(),
            identity < old(self).ranges()[k as int].begin,
            k > 0 ==> old(self).ranges()[k - 1].begin + old(self).ranges()[k - 1].length <= identity,
        ensures
            final(self).wf(),
            final(self)@ == old(self)@.insert(identity as int),
    {
        let ghost s = self.collection@;
        let ghost n = s.len() as int;
        let ghost x = identity as int;
        let ghost old_free = self@;
        let ghost lo: int;
        let ghost hi: int;
        let ghost m: Seq<IdentityRange>;
        let next = self.collection[k];
        let merge_prev = k > 0 && self.collection[k - 1].begin + self.collection[k - 1].length == identity;
        let merge_next = identity + 1 == next.begin;
        proof {
            assert(next.begin + next.length < s[n - 1].begin);
            if k > 0 {
                assert(s[k - 1].begin + s[k - 1].length < s[k as int].begin);
            }
        }
        if merge_prev && merge_next {
            let prev = self.collection[k - 1];
            self.collection.set(k, IdentityRange { begin: prev.begin, length: next.length + 1 + prev.length });
            self.collection.remove(k - 1);
            proof {
                lo = k - 1;
                hi = k + 1;
                m = seq![IdentityRange { begin: prev.begin, length: (next.length + 1 + prev.length) as usize }];
                assert(s.subrange(lo, hi) =~= seq![prev, next]);
            }
        } else if merge_prev {
            let prev = self.collection[k - 1];
            self.collection.set(k - 1, IdentityRange { begin: prev.begin, length: prev.length + 1 });
            proof {
                lo = k - 1;
                hi = k as int;
                m = seq![IdentityRange { begin: prev.begin, length: (prev.length + 1) as usize }];
                assert(s.subrange(lo, hi) =~= seq![prev]);
            }
        } else if merge_next {
            self.collection.set(k, IdentityRange { begin: identity, length: next.length + 1 });
            proof {
                lo = k as int;
                hi = k + 1;
                m = seq![IdentityRange { begin: identity, length: (next.length + 1) as usize }];
                assert(s.subrange(lo, hi) =~= seq![next]);
            }
        } else {
            self.collection.insert(k, IdentityRange { begin: identity, length: 1 });
            proof {
                lo = k as int;
                hi = k as int;
                m = seq![IdentityRange { begin: identity, length: 1 }];
                assert(s.subrange(lo, hi) =~= Seq::<IdentityRange>::empty());
            }
        }
        proof {
            let t = self.collection@;
            assert(t =~= s.subrange(0, lo) + m + s.subrange(hi, n));
            lemma_short_run_set(m);
            lemma_short_run_set(s.subrange(lo, hi));
            assert(ranges_set(m) =~= ranges_set(s.subrange(lo, hi)).insert(x));
            if hi < n - 1 {
                assert(s[hi].begin + s[hi].length < s[n - 1].begin);
            }
            lemma_insert_splice(s, t, lo, hi, m, x);
            assert(self@ == old_free.insert(x));
        }
    }

    /// `insert` where the range after the gap holding `identity` is the unbounded run.
    fn insert_before_tail(&mut self, k: usize, identity: Identity)
        requires
            old(self).wf(),
            k + 1 == old(self).ranges().len(),
            identity < old(self).ranges()[k as int].begin,
            k > 0 ==> old(self).ranges()[k - 1].begin + old(self).ranges()[k - 1].length <= identity,
        ensures
            final(self).wf(),
            final(self)@ == old(self)@.insert(identity as int),
    {
        let ghost s = self.collection@;
        let ghost n = s.len() as int;
        let ghost x = identity as int;
        let ghost old_free = self@;
        let next = self.collection[k];
        let merge_prev = k > 0 && self.collection[k - 1].begin + self.collection[k - 1].length == identity;
        let merge_next = identity + 1 == next.begin;
        if merge_next {
            let ghost lo: int;
            let ghost last: IdentityRange;
            if merge_prev {
                let prev = self.collection[k - 1];
                self.collection.set(k, IdentityRange { begin: prev.begin, length: 0 });
                self.collection.remove(k - 1);
                proof {
                    lo = k - 1;
                    last = IdentityRange { begin: prev.begin, length: 0 };
                    lemma_free_decomp(s, lo, k as int);
                    assert(s.subrange(lo, k as int) =~= seq![prev]);
                    lemma_short_run_set(seq![prev]);
                }
            } else {
                self.collection.set(k, IdentityRange { begin: identity, length: 0 });
                proof {
                    lo = k as int;
                    last = IdentityRange { begin: identity, length: 0 };
                    lemma_free_decomp(s, lo, k as int);
                    assert(s.subrange(lo, k as int) =~= Seq::<IdentityRange>::empty());
                    lemma_short_run_set(Seq::<IdentityRange>::empty());
                }
            }
            proof {
                let t = self.collection@;
                assert(t =~= s.subrange(0, lo) + Seq::<IdentityRange>::empty() + seq![last]);
                lemma_short_run_set(Seq::<IdentityRange>::empty());
                if lo > 0 {
                    assert(s[lo - 1].begin + s[lo - 1].length < s[k as int].begin);
                }
                lemma_splice_tail(s, t, lo, Seq::<IdentityRange>::empty(), last);
                assert(s.subrange(k as int, n - 1) =~= Seq::<IdentityRange>::empty());
                assert(self@ =~= old_free.insert(x));
            }
        } else {
            self.insert_before_finite_tail(k, identity, merge_prev);
        }
    }

    /// `insert` next to the unbounded run without touching it.
    fn insert_before_finite_tail(&mut self, k: usize, identity: Identity, merge_prev: bool)
        requires
            old(self).wf(),
            k + 1 == old(self).ranges().len(),
            identity + 1 < old(self).ranges()[k as int].begin,
            k > 0 ==> old(self).ranges()[k - 1].begin + old(self).ranges()[k - 1].length <= identity,
            merge_prev == (k > 0 && old(self).ranges()[k - 1].begin + old(self).ranges()[k - 1].length
                == identity),
        ensures
            final(self).wf(),
            final(self)@ == old(self)@.insert(identity as int),
    {
        let ghost s = self.collection@;
        let ghost n = s.len() as int;
        let ghost x = identity as int;
        let ghost old_free = self@;
        let ghost lo: int;
        let ghost m: Seq<IdentityRange>;
        if merge_prev {
            let prev = self.collection[k - 1];
            self.collection.set(k - 1, IdentityRange { begin: prev.begin, length: prev.length + 1 });
            proof {
                lo = k - 1;
                m = seq![IdentityRange { begin: prev.begin, length: (prev.length + 1) as usize }];
                assert(s.subrange(lo, k as int) =~= seq![prev]);
            }
        } else {
            self.collection.insert(k, IdentityRange { begin: identity, length: 1 });
            proof {
                lo = k as int;
                m = seq![IdentityRange { begin: identity, length: 1 }];
                assert(s.subrange(lo, k as int) =~= Seq::<IdentityRange>::empty());
            }
        }
        proof {
            let t = self.collection@;
            assert(t =~= s.subrange(0, lo) + m + s.subrange(k as int, n));
            lemma_short_run_set(m);
            lemma_short_run_set(s.subrange(lo, k as int));
            assert(ranges_set(m) =~= ranges_set(s.subrange(lo, k as int)).insert(x));
            if k > 0 {
                assert(s[k - 1].begin + s[k - 1].length < s[k as int].begin);
            }
            lemma_insert_splice(s, t, lo, k as int, m, x);
            assert(self@ == old_free.insert(x));
        }
    }

    /// Returns `identity` to the free identities; false (and nothing changes) where it was
    /// free already, or is `usize::MAX`, which the pool never holds.
    pub fn insert(&mut self, identity: Identity) -> (r: bool)
        requires
            old(self).wf(),
        ensures
            final(self).wf(),
            r == (identity < usize::MAX && !old(self)@.contains(identity as int)),
            final(self)@ == if r {
                old(self)@.insert(identity as int)
            } else {
                old(self)@
            },
    {
        proof {
            self.lemma_wf();
        }
        let ghost s = self.collection@;
        let ghost n = s.len() as int;
        let ghost x = identity as int;
        if identity == usize::MAX {
            return false;
        }
        let k = self.find(identity);
        proof {
            lemma_outside(s, k as int, x);
            if k > 0 {
                lemma_free_split(s, k as int);
            }
        }
        let len = self.collection.len();
        if k > 0 {
            let prev = self.collection[k - 1];
            if k == len || identity < prev.begin + prev.length {
                proof {
                    assert(self@.contains(x));
                }
                return false;
            }
        }
        proof {
            if k == 0 {
                assert(s.subrange(0, n - 1) =~= s.subrange(0, n - 1));
                lemma_free_decomp(s, 0, 0);
                assert(s.subrange(0, 0) =~= Seq::<IdentityRange>::empty());
                assert(ranges_set(Seq::<IdentityRange>::empty()) == Set::<int>::empty());
            }
            assert(!self@.contains(x));
        }
        if k + 1 < len {
            self.insert_before_finite(k, identity);
        } else {
            self.insert_before_tail(k, identity);
        }
        true
    }
}

/// The map from `begin` to `length` that a free list stands for.
pub open spec fn ranges_map(s: Seq<IdentityRange>) -> Map<Identity, usize>
    decreases s.len(),
{
    if s.len() == 0 {
        Map::empty()
    } else {
        ranges_map(s.drop_last()).insert(s.last().begin, s.last().length)
    }
}

/// Ranges sorted strictly by `begin`.
pub open spec fn strictly_sorted(s: Seq<IdentityRange>) -> bool {
    forall|i: int, j: int| #![trigger s[i], s[j]] 0 <= i < j < s.len() ==> s[i].begin < s[j].begin
}

proof fn lemma_ranges_map_pairs(s: Seq<IdentityRange>)
    requires
        strictly_sorted(s),
    ensures
        forall|r: IdentityRange| #[trigger] s.contains(r) <==> (ranges_map(s).contains_key(r.begin) && ranges_map(s)[r.begin]
            == r.length),
    decreases s.len(),
{
    if s.len() > 0 {
        let d = s.drop_last();
        assert(strictly_sorted(d)) by {
            assert forall|i: int, j: int| 0 <= i < j < d.len() implies #[trigger] d[i].begin < #[trigger] d[j].begin by {
                assert(d[i] == s[i] && d[j] == s[j]);
            }
        }
        lemma_ranges_map_pairs(d);
        assert forall|r: IdentityRange| #[trigger] s.contains(r) <==> (ranges_map(s).contains_key(r.begin)
            && ranges_map(s)[r.begin] == r.length) by {
            let k = r.begin;
            let v = r.length;
            assert(d.contains(r) <==> (ranges_map(d).contains_key(r.begin) && ranges_map(d)[r.begin] == r.length));
            if s.contains(r) {
                let i = choose|i: int| 0 <= i < s.len() && s[i] == r;
                if i < s.len() - 1 {
                    assert(d[i] == r);
                    assert(s[i].begin < s[s.len() - 1].begin);
                }
            }
            if ranges_map(s).contains_key(k) && ranges_map(s)[k] == v {
                if k == s.last().begin {
                    assert(s[s.len() - 1] == r);
                } else {
                    assert(d.contains(r));
                    let i = choose|i: int| 0 <= i < d.len() && d[i] == r;
                    assert(s[i] == r);
                }
            }
        }
    }
}

/// Two strictly sorted lists of ranges with the same ranges are the same list.
proof fn lemma_sorted_unique(a: Seq<IdentityRange>, b: Seq<IdentityRange>)
    requires
        strictly_sorted(a),
        strictly_sorted(b),
        forall|r: IdentityRange| a.contains(r) <==> b.contains(r),
    ensures
        a == b,
    decreases a.len(),
{
    if a.len() == 0 {
        if b.len() > 0 {
            assert(b.contains(b[0]));
        }
        assert(a =~= b);
    } else {
        assert(a.contains(a[0]));
        assert(b.len() > 0);
        assert(b.contains(b[0]));
        let i = choose|i: int| 0 <= i < b.len() && b[i] == a[0];
        let j = choose|j: int| 0 <= j < a.len() && a[j] == b[0];
        if i > 0 {
            assert(b[0].begin < b[i].begin);
            assert(a[0].begin <= a[j].begin);
        }
        assert(a[0] == b[0]);
        let a1 = a.drop_first();
        let b1 = b.drop_first();
        assert(strictly_sorted(a1)) by {
            assert forall|x: int, y: int| 0 <= x < y < a1.len() implies #[trigger] a1[x].begin < #[trigger] a1[y].begin by {
                assert(a1[x] == a[x + 1] && a1[y] == a[y + 1]);
            }
        }
        assert(strictly_sorted(b1)) by {
            assert forall|x: int, y: int| 0 <= x < y < b1.len() implies #[trigger] b1[x].begin < #[trigger] b1[y].begin by {
                assert(b1[x] == b[x + 1] && b1[y] == b[y + 1]);
            }
        }
        assert forall|r: IdentityRange| a1.contains(r) <==> b1.contains(r) by {
            if a1.contains(r) {
                let x = choose|x: int| 0 <= x < a1.len() && a1[x] == r;
                assert(a[x + 1] == r);
                assert(a[0].begin < a[x + 1].begin);
                assert(b.contains(r));
                let y = choose|y: int| 0 <= y < b.len() && b[y] == r;
                assert(y != 0);
                assert(b1[y - 1] == r);
            }
            if b1.contains(r) {
                let x = choose|x: int| 0 <= x < b1.len() && b1[x] == r;
                assert(b[x + 1] == r);
                assert(b[0].begin < b[x + 1].begin);
                assert(a.contains(r));
                let y = choose|y: int| 0 <= y < a.len() && a[y] == r;
                assert(y != 0);
                assert(a1[y - 1] == r);
            }
        }
        lemma_sorted_unique(a1, b1);
        assert(a =~= seq![a[0]] + a1);
        assert(b =~= seq![b[0]] + b1);
    }
}

proof fn lemma_wf_sorted(s: Seq<IdentityRange>)
    requires
        ranges_wf(s),
    ensures
        strictly_sorted(s),
{
    assert forall|i: int, j: int| 0 <= i < j < s.len() implies #[trigger] s[i].begin < #[trigger] s[j].begin by {
        assert(s[i].begin + s[i].length < s[j].begin);
    }
}

/// A free list held as an ordered map from `begin` to `length`; its decisions are those of
/// the vector representation, so both pools behave alike.
pub struct BTreeIdentityPool {
    collection: BTreeMap<Identity, usize>,
    ranges: Ghost<Seq<IdentityRange>>,
}

impl View for BTreeIdentityPool {
    type V = Set<int>;

    /// The free identities.
    closed spec fn view(&self) -> Set<int> {
        ranges_free(self.ranges@)
    }
}

impl BTreeIdentityPool {
    /// The free list, in order of `begin`.
    pub closed spec fn ranges(&self) -> Seq<IdentityRange> {
        self.ranges@
    }

    pub closed spec fn wf(&self) -> bool {
        &&& ranges_wf(self.ranges@)
        &&& self.collection@ == ranges_map(self.ranges@)
    }

    /// The map holding exactly the ranges of `list`.
    fn from_ranges(list: &Vec<IdentityRange>) -> (r: Self)
        requires
            ranges_wf(list@),
        ensures
            r.wf(),
            r.ranges() == list@,
    {
        broadcast use vstd::std_specs::btree::group_btree_axioms, vstd::laws_cmp::group_laws_cmp;

        let mut collection: BTreeMap<Identity, usize> = BTreeMap::new();
        let mut j: usize = 0;
        while j < list.len()
            invariant
                j <= list@.len(),
                collection@ == ranges_map(list@.take(j as int)),
            decreases list@.len() - j,
        {
            collection.insert(list[j].begin, list[j].length);
            j = j + 1;
            proof {
                assert(list@.take(j as int).drop_last() =~= list@.take(j - 1));
            }
        }
        proof {
            assert(list@.take(list@.len() as int) =~= list@);
        }
        BTreeIdentityPool { collection, ranges: Ghost(list@) }
    }

    pub fn new() -> (r: Self)
        ensures
            r.wf(),
            r.ranges() == seq![IdentityRange { begin: 0, length: 0 }],
            forall|x: int| #[trigger] r@.contains(x) <==> 0 <= x < usize::MAX,
    {
        let list = vec![IdentityRange { begin: 0, length: 0 }];
        proof {
            assert(list@.drop_last() =~= Seq::<IdentityRange>::empty());
        }
        Self::from_ranges(&list)
    }

    /// The free list: sorted, disjoint ranges, the unbounded run last.
    pub fn get_ranges(&self) -> (r: Vec<IdentityRange>)
        requires
            self.wf(),
        ensures
            r@ == self.ranges(),
            ranges_wf(r@),
    {
        broadcast use vstd::std_specs::btree::group_btree_axioms, vstd::laws_cmp::group_laws_cmp;

        let mut result: Vec<IdentityRange> = Vec::new();
        let ghost kvs = self.collection.iter().remaining();
        for (begin, length) in it: self.collection.iter()
            invariant
                it.seq() == kvs,
                result@ == kvs.take(it.index() as int).map_values(
                    |kv: (&Identity, &usize)| IdentityRange { begin: *kv.0, length: *kv.1 },
                ),
        {
            result.push(IdentityRange { begin: *begin, length: *length });
        }
        proof {
            let g = self.ranges@;
            assert(kvs.take(kvs.len() as int) =~= kvs);
            let keys = kvs.map_values(|kv: (&Identity, &usize)| *kv.0);
            assert(vstd::std_specs::btree::increasing_seq(keys));
            assert(strictly_sorted(result@)) by {
                assert forall|i: int, j: int| 0 <= i < j < result@.len() implies #[trigger] result@[i].begin
                    < #[trigger] result@[j].begin by {
                    assert(keys[i] == result@[i].begin && keys[j] == result@[j].begin);
                    assert(keys[i].cmp_spec(&keys[j]) is Less);
                }
            }
            lemma_wf_sorted(g);
            lemma_ranges_map_pairs(g);
            assert forall|r: IdentityRange| result@.contains(r) <==> g.contains(r) by {
                if result@.contains(r) {
                    let i = choose|i: int| 0 <= i < result@.len() && result@[i] == r;
                    assert(kvs.unref().to_set().contains(kvs.unref()[i]));
                    assert(self.collection@.kv_pairs().contains((r.begin, r.length)));
                }
                if g.contains(r) {
                    assert(self.collection@.kv_pairs().contains((r.begin, r.length)));
                    assert(kvs.unref().to_set().contains((r.begin, r.length)));
                    let i = choose|i: int| 0 <= i < kvs.len() && kvs.unref()[i] == (r.begin, r.length);
                    assert(result@[i] == r);
                }
            }
            lemma_sorted_unique(result@, g);
        }
        result
    }

    /// The lowest identity from which on every identity is free.
    pub fn get(&self) -> (r: Identity)
        requires
            self.wf(),
        ensures
            r == self.ranges().last().begin,
            forall|x: int| r <= x < usize::MAX ==> #[trigger] self@.contains(x),
            r > 0 ==> !self@.contains(r - 1),
    {
        let list = self.get_ranges();
        let pool = VecIdentityPool { collection: list };
        proof {
            assert(pool@ == self@);
        }
        pool.get()
    }

    /// Whether no identity is in use.
    pub fn is_full(&self) -> (r: bool)
        requires
            self.wf(),
        ensures
            r == forall|x: int| 0 <= x < usize::MAX ==> #[trigger] self@.contains(x),
    {
        let list = self.get_ranges();
        let pool = VecIdentityPool { collection: list };
        proof {
            assert(pool@ == self@);
        }
        pool.is_full()
    }

    /// Marks `identity` as in use; false (and nothing changes) where it was not free.
    pub fn remove(&mut self, identity: Identity) -> (r: bool)
        requires
            old(self).wf(),
        ensures
            final(self).wf(),
            r == old(self)@.contains(identity as int),
            final(self)@ == old(self)@.remove(identity as int),
    {
        let list = self.get_ranges();
        let mut pool = VecIdentityPool { collection: list };
        let r = pool.remove(identity);
        *self = Self::from_ranges(&pool.collection);
        r
    }

    /// Returns `identity` to the free identities; false (and nothing changes) where it was
    /// free already, or is `usize::MAX`, which the pool never holds.
    pub fn insert(&mut self, identity: Identity) -> (r: bool)
        requires
            old(self).wf(),
        ensures
            final(self).wf(),
            r == (identity < usize::MAX && !old(self)@.contains(identity as int)),
            final(self)@ == if r {
                old(self)@.insert(identity as int)
            } else {
                old(self)@
            },
    {
        let list = self.get_ranges();
        let mut pool = VecIdentityPool { collection: list };
        let r = pool.insert(identity);
        *self = Self::from_ranges(&pool.collection);
        r
    }
}

/// A free list splits into its first range and the rest.
proof fn lemma_free_first(s: Seq<IdentityRange>)
    requires
        ranges_wf(s),
        s.len() > 1,
    ensures
        ranges_wf(s.drop_first()),
        ranges_free(s) == range_set(s[0]).union(ranges_free(s.drop_first())),
        forall|x: int| #[trigger] ranges_free(s.drop_first()).contains(x) ==> x > s[0].begin + s[0].length,
{
    let r = s.drop_first();
    assert forall|i: int, j: int| 0 <= i < j < r.len() implies #[trigger] r[i].begin + r[i].length < #[trigger] r[j].begin by {
        assert(r[i] == s[i + 1] && r[j] == s[j + 1]);
    }
    assert forall|i: int| 0 <= i < r.len() - 1 implies #[trigger] r[i].length >= 1 by {
        assert(r[i] == s[i + 1]);
    }
    assert(s.drop_last() =~= seq![s[0]] + r.drop_last());
    lemma_ranges_set_concat(seq![s[0]], r.drop_last());
    lemma_ranges_set_single(s[0]);
    assert(r.last() == s.last());
    assert forall|x: int| #[trigger] ranges_free(r).contains(x) implies x > s[0].begin + s[0].length by {
        if ranges_set(r.drop_last()).contains(x) {
            lemma_ranges_set_member(r.drop_last(), x);
            let i = choose|i: int| 0 <= i < r.drop_last().len() && #[trigger] r.drop_last()[i].begin <= x
                < r.drop_last()[i].begin + r.drop_last()[i].length;
            assert(r.drop_last()[i] == s[i + 1]);
        } else {
            assert(s[0].begin + s[0].length < s[s.len() - 1].begin);
        }
    }
    assert(ranges_free(s) =~= range_set(s[0]).union(ranges_free(r)));
}

/// Two well-formed free lists with the same free identities are the same list.
pub proof fn lemma_free_list_canonical(s: Seq<IdentityRange>, t: Seq<IdentityRange>)
    requires
        ranges_wf(s),
        ranges_wf(t),
        ranges_free(s) == ranges_free(t),
    ensures
        s == t,
    decreases s.len() + t.len(),
{
    let f = ranges_free(s);
    if s.len() > 1 {
        lemma_free_first(s);
    }
    if t.len() > 1 {
        lemma_free_first(t);
    }
    if s.len() == 1 {
        assert(s.drop_last() =~= Seq::<IdentityRange>::empty());
        assert(ranges_set(Seq::<IdentityRange>::empty()) == Set::<int>::empty());
    }
    if t.len() == 1 {
        assert(t.drop_last() =~= Seq::<IdentityRange>::empty());
        assert(ranges_set(Seq::<IdentityRange>::empty()) == Set::<int>::empty());
    }
    // the first ranges start at the lowest free identity
    assert(s[0].begin == t[0].begin) by {
        if s[0].begin < t[0].begin {
            if s.len() > 1 {
                assert(range_set(s[0]).contains(s[0].begin as int));
            } else {
                assert(s[0] == s.last());
            }
            if s.len() > 1 || s[0].begin < usize::MAX {
                assert(f.contains(s[0].begin as int));
                if t.len() > 1 {
                    assert(!range_set(t[0]).contains(s[0].begin as int));
                } else {
                    assert(t[0] == t.last());
                }
            } else {
                assert(t[0] == t.last());
                assert(t.len() == 1 || t[0].begin < usize::MAX);
                assert(t[0].begin > usize::MAX);
            }
        }
        if t[0].begin < s[0].begin {
            if t.len() > 1 {
                assert(range_set(t[0]).contains(t[0].begin as int));
            } else {
                assert(t[0] == t.last());
            }
            if t.len() > 1 || t[0].begin < usize::MAX {
                assert(f.contains(t[0].begin as int));
                if s.len() > 1 {
                    assert(!range_set(s[0]).contains(t[0].begin as int));
                } else {
                    assert(s[0] == s.last());
                }
            } else {
                assert(s[0] == s.last());
                assert(s[0].begin > usize::MAX);
            }
        }
    }
    if s.len() == 1 && t.len() == 1 {
        assert(s[0] == s.last() && t[0] == t.last());
        assert(s =~= t);
    } else if s.len() > 1 && t.len() == 1 {
        let e = s[0].begin + s[0].length;
        assert(s[0].begin + s[0].length < s[s.len() - 1].begin);
        assert(!f.contains(e));
        assert(t[0] == t.last());
        assert(tail_set(t[0].begin as int).contains(e));
    } else if s.len() == 1 && t.len() > 1 {
        let e = t[0].begin + t[0].length;
        assert(t[0].begin + t[0].length < t[t.len() - 1].begin);
        assert(!f.contains(e));
        assert(s[0] == s.last());
        assert(tail_set(s[0].begin as int).contains(e));
    } else {
        let es = s[0].begin + s[0].length;
        let et = t[0].begin + t[0].length;
        assert(es == et) by {
            if es < et {
                assert(range_set(t[0]).contains(es));
                assert(!range_set(s[0]).contains(es));
                assert(!ranges_free(s.drop_first()).contains(es));
                assert(f.contains(es));
            }
            if et < es {
                assert(range_set(s[0]).contains(et));
                assert(!range_set(t[0]).contains(et));
                assert(!ranges_free(t.drop_first()).contains(et));
                assert(f.contains(et));
            }
        }
        assert(s[0] == t[0]);
        assert(ranges_free(s.drop_first()) =~= ranges_free(t.drop_first())) by {
            assert forall|x: int| ranges_free(s.drop_first()).contains(x) == ranges_free(t.drop_first()).contains(x) by {
                if ranges_free(s.drop_first()).contains(x) {
                    assert(f.contains(x));
                    assert(!range_set(t[0]).contains(x));
                }
                if ranges_free(t.drop_first()).contains(x) {
                    assert(f.contains(x));
                    assert(!range_set(s[0]).contains(x));
                }
            }
        }
        lemma_free_list_canonical(s.drop_first(), t.drop_first());
        assert(s =~= seq![s[0]] + s.drop_first());
        assert(t =~= seq![t[0]] + t.drop_first());
    }
}

/// Marking a free identity as in use and returning it gives back the pool as it was:
/// the same free identities, and so the same free list.
pub proof fn lemma_remove_insert_restores(before: &VecIdentityPool, after: &VecIdentityPool, id: int)
    requires
        before.wf(),
        after.wf(),
        before@.contains(id),
        after@ == before@.remove(id).insert(id),
    ensures
        after@ == before@,
        after.ranges() == before.ranges(),
{
    assert(before@.remove(id).insert(id) =~= before@);
    lemma_free_list_canonical(after.ranges(), before.ranges());
}

} // verus!
