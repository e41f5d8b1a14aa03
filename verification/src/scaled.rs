//! Real-valued occurrence statistics, held exactly: every map carries
//! integer numerators over one shared denominator, so weighted sums and
//! normalization are exact rational arithmetic with no rounding and no
//! division by zero. The value of an entry is `num / den`.

use vstd::prelude::*;

use crate::analysis::{EntrySeq, NOccurrences, OccurrenceAnalysis};
use crate::countable::Countable;
use crate::occurrence::CountMap;

verus! {

/// Saturating addition on `u128`, the additive operation of numerators.
pub open spec fn sat_add128(a: u128, b: u128) -> u128 {
    if a + b > u128::MAX {
        u128::MAX
    } else {
        (a + b) as u128
    }
}

/// The numerator sequences of scaled maps.
pub type ScaledSeq = Seq<(Seq<char>, u128)>;

/// Whether some entry of `s` has key `k`.
pub open spec fn scaled_has_key(s: ScaledSeq, k: Seq<char>) -> bool {
    exists|i: int| 0 <= i < s.len() && s[i].0 == k
}

/// Pairwise-distinct keys.
pub open spec fn wf_scaled_seq(s: ScaledSeq) -> bool {
    forall|i: int, j: int| 0 <= i < j < s.len() ==> s[i].0 != s[j].0
}

/// Adding `t` to the numerator of key `k`: the existing entry grows by
/// saturating addition, or a new entry is appended.
pub open spec fn add_num_seq(s: ScaledSeq, k: Seq<char>, t: u128) -> ScaledSeq {
    if scaled_has_key(s, k) {
        s.map(
            |i: int, e: (Seq<char>, u128)|
                if e.0 == k {
                    (e.0, sat_add128(e.1, t))
                } else {
                    e
                },
        )
    } else {
        s.push((k, t))
    }
}

/// Scaling a count sequence by weight `w` and adding it entry by entry:
/// each count contributes `count * w` to its key's numerator. With
/// counts below 2^64 and weights below 2^32 each product is exact.
pub open spec fn scale_fold(acc: ScaledSeq, src: EntrySeq, w: u32) -> ScaledSeq {
    src.fold_left(
        acc,
        |a: ScaledSeq, e: (Seq<char>, u64)| add_num_seq(a, e.0, (e.1 * w) as u128),
    )
}

/// Descending order by numerator.
pub open spec fn scaled_sorted_desc(s: ScaledSeq) -> bool {
    forall|i: int, j: int| 0 <= i < j < s.len() ==> s[i].1 >= s[j].1
}

/// The saturating sum of all numerators.
pub open spec fn sum_nums(s: ScaledSeq) -> u128 {
    s.fold_left(0u128, |acc: u128, e: (Seq<char>, u128)| sat_add128(acc, e.1))
}

/// The exact (unbounded) sum of all numerators.
pub open spec fn sum_nums_exact(s: ScaledSeq) -> int
    decreases s.len(),
{
    if s.len() == 0 {
        0
    } else {
        sum_nums_exact(s.drop_last()) + s.last().1
    }
}

/// Where the exact sum fits, the saturating sum equals it.
pub proof fn lemma_sum_nums_exact(s: ScaledSeq)
    requires
        sum_nums_exact(s) <= u128::MAX,
    ensures
        sum_nums(s) == sum_nums_exact(s),
    decreases s.len(),
{
    if s.len() == 0 {
    } else {
        assert(sum_nums_exact(s.drop_last()) <= sum_nums_exact(s));
        lemma_sum_nums_exact(s.drop_last());
    }
}

/// The denominator after normalizing entries `s` under denominator
/// `den`: the sum of the numerators, unless that sum is zero (an empty
/// or all-zero map), in which case nothing changes.
pub open spec fn normalize_den(s: ScaledSeq, den: u128) -> u128 {
    if sum_nums(s) == 0 {
        den
    } else {
        sum_nums(s)
    }
}

/// Normalize is idempotent: normalizing twice yields the same
/// denominator (and entries never change) as normalizing once.
pub proof fn lemma_normalize_idempotent(s: ScaledSeq, den: u128)
    ensures
        normalize_den(s, normalize_den(s, den)) == normalize_den(s, den),
{
}

/// After normalizing a map whose numerators have a non-zero exact sum
/// within range, the denominator equals that sum exactly: the values
/// `num / den` sum to exactly one.
pub proof fn lemma_normalize_sums_to_one(s: ScaledSeq, den: u128)
    requires
        0 < sum_nums_exact(s) <= u128::MAX,
    ensures
        normalize_den(s, den) == sum_nums_exact(s),
{
    lemma_sum_nums_exact(s);
}

/// Equality of the rationals `a / b` and `c / d`.
pub open spec fn frac_eq(a: int, b: int, c: int, d: int) -> bool {
    a * d == c * b
}

/// Scale-folding onto the empty map lays the source's keys out in
/// order, each numerator the exact product of count and weight.
pub proof fn lemma_scale_fold_fresh(s: EntrySeq, w: u32)
    requires
        crate::occurrence::wf_entry_seq(s),
    ensures
        scale_fold(Seq::empty(), s, w).len() == s.len(),
        forall|i: int|
            0 <= i < s.len() ==> #[trigger] scale_fold(Seq::empty(), s, w)[i] == (
                s[i].0,
                (s[i].1 * w) as u128,
            ),
    decreases s.len(),
{
    if s.len() == 0 {
    } else {
        let s2 = s.drop_last();
        let e = s.last();
        assert(crate::occurrence::wf_entry_seq(s2)) by {
            assert(forall|x: int, y: int| 0 <= x < y < s2.len() ==> s[x].0 != s[y].0);
        }
        lemma_scale_fold_fresh(s2, w);
        let mid = scale_fold(Seq::empty(), s2, w);
        assert(scale_fold(Seq::empty(), s, w) == add_num_seq(mid, e.0, (e.1 * w) as u128));
        assert(!scaled_has_key(mid, e.0)) by {
            if scaled_has_key(mid, e.0) {
                let i = choose|i: int| 0 <= i < mid.len() && mid[i].0 == e.0;
                assert(mid[i] == (s2[i].0, (s2[i].1 * w) as u128));
                assert(s[i].0 == s[s.len() - 1].0);
            }
        }
        assert(add_num_seq(mid, e.0, (e.1 * w) as u128) == mid.push((e.0, (e.1 * w) as u128)));
    }
}

/// Scale-folding a source whose keys already stand at the same
/// positions adds each product onto the numerator in place.
pub proof fn lemma_scale_fold_again(acc: ScaledSeq, s: EntrySeq, w: u32)
    requires
        crate::occurrence::wf_entry_seq(s),
        wf_scaled_seq(acc),
        s.len() <= acc.len(),
        forall|i: int| 0 <= i < s.len() ==> (#[trigger] acc[i]).0 == s[i].0,
    ensures
        scale_fold(acc, s, w).len() == acc.len(),
        forall|i: int|
            0 <= i < acc.len() ==> #[trigger] scale_fold(acc, s, w)[i] == (if i < s.len() {
                (acc[i].0, sat_add128(acc[i].1, (s[i].1 * w) as u128))
            } else {
                acc[i]
            }),
    decreases s.len(),
{
    if s.len() == 0 {
    } else {
        let s2 = s.drop_last();
        let e = s.last();
        let last: int = s.len() - 1;
        assert(crate::occurrence::wf_entry_seq(s2)) by {
            assert(forall|x: int, y: int| 0 <= x < y < s2.len() ==> s[x].0 != s[y].0);
        }
        lemma_scale_fold_again(acc, s2, w);
        let mid = scale_fold(acc, s2, w);
        assert(scale_fold(acc, s, w) == add_num_seq(mid, e.0, (e.1 * w) as u128));
        assert(mid[last].0 == e.0) by {
            assert(mid[last] == acc[last]);
        }
        assert(scaled_has_key(mid, e.0));
        assert forall|i: int| 0 <= i < acc.len() implies #[trigger] add_num_seq(
            mid,
            e.0,
            (e.1 * w) as u128,
        )[i] == (if i < s.len() {
            (acc[i].0, sat_add128(acc[i].1, (s[i].1 * w) as u128))
        } else {
            acc[i]
        }) by {
            assert(add_num_seq(mid, e.0, (e.1 * w) as u128)[i] == (if mid[i].0 == e.0 {
                (mid[i].0, sat_add128(mid[i].1, (e.1 * w) as u128))
            } else {
                mid[i]
            }));
            if i != last {
                assert(acc[i].0 != acc[last].0);
                assert(mid[i].0 == acc[i].0);
            }
        }
    }
}

/// Two equal-weight contributions of one occurrence map cancel exactly:
/// each resulting entry's value `num / den` equals the original count.
pub proof fn lemma_equal_weight_pair(s: EntrySeq, w: u32)
    requires
        crate::occurrence::wf_entry_seq(s),
        w >= 1,
    ensures
        scale_fold(scale_fold(Seq::empty(), s, w), s, w).len() == s.len(),
        forall|i: int|
            0 <= i < s.len() ==> (#[trigger] scale_fold(scale_fold(Seq::empty(), s, w), s, w)[i]).0
                == s[i].0 && frac_eq(
                scale_fold(scale_fold(Seq::empty(), s, w), s, w)[i].1 as int,
                2 * (w as int),
                s[i].1 as int,
                1,
            ),
{
    lemma_scale_fold_fresh(s, w);
    let first = scale_fold(Seq::empty(), s, w);
    assert(wf_scaled_seq(first)) by {
        assert forall|x: int, y: int| 0 <= x < y < first.len() implies first[x].0
            != first[y].0 by {
            assert(first[x].0 == s[x].0 && first[y].0 == s[y].0);
        }
    }
    lemma_scale_fold_again(first, s, w);
    let r = scale_fold(first, s, w);
    assert forall|i: int| 0 <= i < s.len() implies (#[trigger] r[i]).0 == s[i].0 && frac_eq(
        r[i].1 as int,
        2 * (w as int),
        s[i].1 as int,
        1,
    ) by {
        let v = s[i].1;
        assert(first[i] == (s[i].0, (v * w) as u128));
        assert(r[i] == (s[i].0, sat_add128((v * w) as u128, (v * w) as u128)));
        assert((v * w) as int == (v as int) * (w as int) && (v as int) * (w as int) + (v as int) * (
        w as int) < u128::MAX && (v as int) * (w as int) * 2 == (v as int) * (2 * (w as int)))
            by (nonlinear_arith)
            requires
                v <= u64::MAX,
                1 <= w <= u32::MAX,
        {}
        assert(r[i].1 as int == (v as int) * (w as int) + (v as int) * (w as int));
    }
}

/// One real-valued occurrence map: numerators over one denominator.
#[derive(Debug)]
pub struct ScaledEntry {
    pub gram: Countable,
    pub num: u128,
}

/// An ordered mapping gram -> numerator, with the map's denominator.
/// The value of an entry is `num / den`.
#[derive(Debug)]
pub struct ScaledMap {
    entries: Vec<ScaledEntry>,
    den: u128,
}

impl View for ScaledMap {
    type V = (ScaledSeq, u128);

    closed spec fn view(&self) -> (ScaledSeq, u128) {
        (self.entries@.map_values(|e: ScaledEntry| (e.gram@, e.num)), self.den)
    }
}

impl ScaledMap {
    /// Distinct keys and a positive denominator.
    pub open spec fn wf(&self) -> bool {
        wf_scaled_seq(self@.0) && self@.1 >= 1
    }

    /// A new, empty map under denominator `den`.
    pub fn new(den: u128) -> (r: ScaledMap)
        requires
            den >= 1,
        ensures
            r@.0 == Seq::<(Seq<char>, u128)>::empty(),
            r@.1 == den,
            r.wf(),
    {
        let r = ScaledMap { entries: Vec::new(), den };
        proof {
            assert(r@.0 =~= Seq::<(Seq<char>, u128)>::empty());
        }
        r
    }

    /// Number of entries.
    pub fn len(&self) -> (r: usize)
        ensures
            r == self@.0.len(),
    {
        self.entries.len()
    }

    /// The gram at position `i`.
    pub fn gram_at(&self, i: usize) -> (r: &Countable)
        requires
            i < self@.0.len(),
        ensures
            r@ == self@.0[i as int].0,
    {
        &self.entries[i].gram
    }

    /// The numerator at position `i`.
    pub fn num_at(&self, i: usize) -> (r: u128)
        requires
            i < self@.0.len(),
        ensures
            r == self@.0[i as int].1,
    {
        self.entries[i].num
    }

    /// The denominator.
    pub fn den(&self) -> (r: u128)
        ensures
            r == self@.1,
    {
        self.den
    }

    /// The position of the entry whose key equals `g`, if any.
    fn find_key(&self, g: &Countable) -> (r: Option<usize>)
        ensures
            match r {
                Some(i) => i < self@.0.len() && self@.0[i as int].0 == g@,
                None => !scaled_has_key(self@.0, g@),
            },
    {
        let n: usize = self.entries.len();
        for i in 0..n
            invariant
                n == self@.0.len(),
                forall|j: int| 0 <= j < i ==> self@.0[j].0 != g@,
        {
            if self.entries[i].gram.eq_gram(g) {
                return Some(i);
            }
        }
        None
    }

    /// The numerator recorded for `g`, zero when absent.
    pub fn get_num(&self, g: &Countable) -> (r: u128)
        ensures
            (exists|i: int| 0 <= i < self@.0.len() && self@.0[i].0 == g@ && self@.0[i].1 == r)
                || (!scaled_has_key(self@.0, g@) && r == 0),
    {
        match self.find_key(g) {
            Some(i) => self.entries[i].num,
            None => 0,
        }
    }

    /// Adds `t` to the numerator of gram `g`.
    fn add_num(&mut self, g: Countable, t: u128)
        requires
            old(self).wf(),
        ensures
            final(self)@.0 == add_num_seq(old(self)@.0, g@, t),
            final(self)@.1 == old(self)@.1,
            final(self).wf(),
    {
        match self.find_key(&g) {
            Some(i) => {
                let c = self.entries[i].num;
                self.entries[i].num = c.saturating_add(t);
                proof {
                    let updated = add_num_seq(old(self)@.0, g@, t);
                    assert forall|j: int| 0 <= j < self@.0.len() implies self@.0[j]
                        == updated[j] by {
                        if j != i {
                            assert(old(self)@.0[j].0 != g@);
                        }
                    }
                    assert(self@.0 =~= updated);
                    assert forall|x: int, y: int|
                        0 <= x < y < self@.0.len() implies self@.0[x].0 != self@.0[y].0 by {
                        assert(self@.0[x].0 == old(self)@.0[x].0);
                        assert(self@.0[y].0 == old(self)@.0[y].0);
                    }
                }
            },
            None => {
                self.entries.push(ScaledEntry { gram: g, num: t });
                proof {
                    assert(self@.0 =~= old(self)@.0.push((g@, t)));
                    assert forall|x: int, y: int|
                        0 <= x < y < self@.0.len() implies self@.0[x].0 != self@.0[y].0 by {
                        if y < self@.0.len() - 1 {
                            assert(old(self)@.0[x].0 != old(self)@.0[y].0);
                        } else {
                            assert(!scaled_has_key(old(self)@.0, g@));
                            assert(self@.0[x].0 == old(self)@.0[x].0);
                        }
                    }
                }
            },
        }
    }

    /// Adds `w` times every count of `src` to the numerators: the
    /// weighted contribution of one source to this map.
    pub fn scale_add(&mut self, src: &CountMap, w: u32)
        requires
            old(self).wf(),
        ensures
            final(self)@.0 == scale_fold(old(self)@.0, src@, w),
            final(self)@.1 == old(self)@.1,
            final(self).wf(),
    {
        let n: usize = src.len();
        for i in 0..n
            invariant
                n == src@.len(),
                self.wf(),
                self@.1 == old(self)@.1,
                self@.0 == src@.subrange(0, i as int).fold_left(
                    old(self)@.0,
                    |a: ScaledSeq, e: (Seq<char>, u64)| add_num_seq(a, e.0, (e.1 * w) as u128),
                ),
        {
            let g = src.gram_at(i).duplicate();
            let v = src.count_at(i);
            proof {
                assert((v as u128) * (w as u128) <= u128::MAX) by (nonlinear_arith)
                    requires
                        v <= u64::MAX,
                        w <= u32::MAX,
                {}
            }
            let t: u128 = (v as u128) * (w as u128);
            proof {
                assert(t == (src@[i as int].1 * w) as u128) by (nonlinear_arith)
                    requires
                        v == src@[i as int].1,
                        t == (v as u128) * (w as u128),
                        v <= u64::MAX,
                        w <= u32::MAX,
                {}
            }
            self.add_num(g, t);
            proof {
                let f = |a: ScaledSeq, e: (Seq<char>, u64)| add_num_seq(a, e.0, (e.1 * w) as u128);
                let pre = src@.subrange(0, i as int);
                let post = src@.subrange(0, i + 1);
                assert(post.drop_last() =~= pre);
                assert(post.last() == src@[i as int]);
                assert(self@.0 == f(pre.fold_left(old(self)@.0, f), src@[i as int]));
            }
        }
        proof {
            assert(src@.subrange(0, n as int) =~= src@);
        }
    }

    /// Divides every value by the sum of all values: the entries keep
    /// their numerators and the denominator becomes their sum, after
    /// which the values sum to exactly one. An empty or all-zero map is
    /// left unchanged rather than divided by zero.
    pub fn normalize(&mut self)
        requires
            old(self).wf(),
        ensures
            final(self)@.0 == old(self)@.0,
            final(self)@.1 == normalize_den(old(self)@.0, old(self)@.1),
            final(self).wf(),
    {
        let mut total: u128 = 0;
        let n: usize = self.entries.len();
        for i in 0..n
            invariant
                n == self@.0.len(),
                self@ == old(self)@,
                total == sum_nums(self@.0.subrange(0, i as int)),
        {
            total = total.saturating_add(self.entries[i].num);
            proof {
                let pre = self@.0.subrange(0, i as int);
                let post = self@.0.subrange(0, i + 1);
                assert(post.drop_last() =~= pre);
                assert(post.last() == self@.0[i as int]);
            }
        }
        proof {
            assert(self@.0.subrange(0, n as int) =~= self@.0);
        }
        if total != 0 {
            self.den = total;
        }
    }

    /// Sorts the entries in place, descending by numerator; ties keep
    /// their previous relative order.
    #[verifier::loop_isolation(false)]
    pub fn sort_desc(&mut self)
        requires
            old(self).wf(),
        ensures
            final(self).wf(),
            final(self)@.0.to_multiset() == old(self)@.0.to_multiset(),
            final(self)@.1 == old(self)@.1,
            scaled_sorted_desc(final(self)@.0),
    {
        broadcast use vstd::seq_lib::group_to_multiset_ensures;
        broadcast use vstd::seq_lib::to_multiset_insert;

        let n: usize = self.entries.len();
        let mut sorted: Vec<ScaledEntry> = Vec::new();
        let ghost view_of = |x: ScaledEntry| (x.gram@, x.num);
        for i in 0..n
            invariant
                n == self.entries@.len(),
                self@ == old(self)@,
                sorted@.map_values(view_of).to_multiset() == self@.0.subrange(
                    0,
                    i as int,
                ).to_multiset(),
                scaled_sorted_desc(sorted@.map_values(view_of)),
                wf_scaled_seq(sorted@.map_values(view_of)),
                forall|x: int|
                    0 <= x < sorted@.len() ==> scaled_has_key(
                        self@.0.subrange(0, i as int),
                        sorted@.map_values(view_of)[x].0,
                    ),
        {
            let ghost ei = old(self)@.0[i as int];
            let ghost pre = sorted@.map_values(view_of);
            let e = ScaledEntry {
                gram: self.entries[i].gram.duplicate(),
                num: self.entries[i].num,
            };
            let mut j: usize = 0;
            while j < sorted.len() && sorted[j].num >= e.num
                invariant
                    j <= sorted@.len(),
                    (e.gram@, e.num) == ei,
                    pre == sorted@.map_values(view_of),
                    forall|m: int| 0 <= m < j ==> pre[m].1 >= ei.1,
                decreases sorted@.len() - j,
            {
                j += 1;
            }
            proof {
                if (j as int) < pre.len() {
                    assert(pre[j as int].1 < ei.1);
                }
            }
            sorted.insert(j, e);
            proof {
                let prev = old(self)@.0.subrange(0, i as int);
                let cur = old(self)@.0.subrange(0, i + 1);
                assert(cur.drop_last() =~= prev);
                assert(cur =~= prev.push(ei));
                let sv = sorted@.map_values(view_of);
                assert(sv =~= pre.insert(j as int, ei));
                assert(pre.insert(j as int, ei).to_multiset() == pre.to_multiset().insert(ei));
                assert(prev.push(ei).to_multiset() == prev.to_multiset().insert(ei));
                assert(sv.to_multiset() == cur.to_multiset());
                assert(!scaled_has_key(prev, ei.0)) by {
                    if scaled_has_key(prev, ei.0) {
                        let x = choose|x: int| 0 <= x < prev.len() && prev[x].0 == ei.0;
                        assert(old(self)@.0[x].0 == old(self)@.0[i as int].0);
                    }
                }
                assert forall|x: int, y: int| 0 <= x < y < sv.len() implies sv[x].0 != sv[y].0 by {
                    if x == j as int {
                        assert(sv[y] == pre[y - 1]);
                        assert(scaled_has_key(prev, pre[y - 1].0));
                    } else if y == j as int {
                        assert(sv[x] == pre[x]);
                        assert(scaled_has_key(prev, pre[x].0));
                    } else {
                        let x2: int = if x < j as int { x } else { x - 1 };
                        let y2: int = if y < j as int { y } else { y - 1 };
                        assert(sv[x] == pre[x2] && sv[y] == pre[y2]);
                        assert(pre[x2].0 != pre[y2].0);
                    }
                }
                assert forall|x: int, y: int| 0 <= x < y < sv.len() implies sv[x].1 >= sv[y].1 by {
                    if x == j as int {
                        assert(sv[y] == pre[y - 1]);
                        assert(pre[y - 1].1 < ei.1);
                    } else if y == j as int {
                        assert(sv[x] == pre[x]);
                        assert(pre[x].1 >= ei.1);
                    } else {
                        let x2: int = if x < j as int { x } else { x - 1 };
                        let y2: int = if y < j as int { y } else { y - 1 };
                        assert(sv[x] == pre[x2] && sv[y] == pre[y2]);
                        assert(pre[x2].1 >= pre[y2].1);
                    }
                }
                assert forall|x: int| 0 <= x < sv.len() implies scaled_has_key(cur, sv[x].0) by {
                    if x == j as int {
                        assert(cur[i as int].0 == sv[x].0);
                    } else {
                        let x2: int = if x < j as int { x } else { x - 1 };
                        assert(sv[x] == pre[x2]);
                        assert(scaled_has_key(prev, pre[x2].0));
                        let m = choose|m: int| 0 <= m < prev.len() && prev[m].0 == pre[x2].0;
                        assert(cur[m].0 == sv[x].0);
                    }
                }
            }
        }
        proof {
            assert(old(self)@.0.subrange(0, n as int) =~= old(self)@.0);
        }
        self.entries = sorted;
    }
}

impl ScaledMap {
    /// A copy with the same entries and denominator.
    pub fn duplicate(&self) -> (r: ScaledMap)
        ensures
            r@ == self@,
    {
        let mut entries: Vec<ScaledEntry> = Vec::new();
        let n: usize = self.entries.len();
        for i in 0..n
            invariant
                n == self.entries@.len(),
                entries@.len() == i,
                forall|j: int|
                    0 <= j < i ==> (#[trigger] entries@[j]).gram@ == self.entries@[j].gram@
                        && entries@[j].num == self.entries@[j].num,
        {
            let e = ScaledEntry {
                gram: self.entries[i].gram.duplicate(),
                num: self.entries[i].num,
            };
            entries.push(e);
        }
        let r = ScaledMap { entries, den: self.den };
        proof {
            assert(r@.0 =~= self@.0);
        }
        r
    }
}

/// The view of one scaled family: ordinate, numerators, denominator.
pub type ScaledFamSeq = Seq<(usize, (ScaledSeq, u128))>;

/// One scaled family member.
#[derive(Debug)]
pub struct ScaledNEntry {
    pub n: usize,
    pub map: ScaledMap,
}

/// A family of scaled maps indexed by ordinate.
#[derive(Debug)]
pub struct ScaledFam {
    entries: Vec<ScaledNEntry>,
}

impl View for ScaledFam {
    type V = ScaledFamSeq;

    closed spec fn view(&self) -> ScaledFamSeq {
        self.entries@.map_values(|e: ScaledNEntry| (e.n, e.map@))
    }
}

/// Whether some member has ordinate `n`.
pub open spec fn scaled_fam_has_ord(s: ScaledFamSeq, n: usize) -> bool {
    exists|i: int| 0 <= i < s.len() && s[i].0 == n
}

/// Distinct ordinates, each member well-formed.
pub open spec fn wf_scaled_fam(s: ScaledFamSeq) -> bool {
    &&& forall|i: int, j: int| 0 <= i < j < s.len() ==> s[i].0 != s[j].0
    &&& forall|i: int|
        0 <= i < s.len() ==> wf_scaled_seq((#[trigger] s[i]).1.0) && s[i].1.1 >= 1
}

/// The family after adding the weighted counts of one source map to
/// ordinate `n`; a missing ordinate is created under denominator `den`.
pub open spec fn fam_scale_add(
    s: ScaledFamSeq,
    n: usize,
    src: EntrySeq,
    w: u32,
    den: u128,
) -> ScaledFamSeq {
    if scaled_fam_has_ord(s, n) {
        s.map(
            |i: int, p: (usize, (ScaledSeq, u128))|
                if p.0 == n {
                    (p.0, (scale_fold(p.1.0, src, w), p.1.1))
                } else {
                    p
                },
        )
    } else {
        s.push((n, (scale_fold(Seq::empty(), src, w), den)))
    }
}

/// Adding a whole family of sources, member by member.
pub open spec fn fam_scale_add_all(
    s: ScaledFamSeq,
    src: Seq<(usize, EntrySeq)>,
    w: u32,
    den: u128,
) -> ScaledFamSeq {
    src.fold_left(
        s,
        |acc: ScaledFamSeq, p: (usize, EntrySeq)| fam_scale_add(acc, p.0, p.1, w, den),
    )
}

/// Scale-folding keeps keys distinct.
pub proof fn lemma_scale_fold_wf(acc: ScaledSeq, src: EntrySeq, w: u32)
    requires
        wf_scaled_seq(acc),
    ensures
        wf_scaled_seq(scale_fold(acc, src, w)),
    decreases src.len(),
{
    if src.len() == 0 {
    } else {
        lemma_scale_fold_wf(acc, src.drop_last(), w);
        let m = scale_fold(acc, src.drop_last(), w);
        let e = src.last();
        let a = add_num_seq(m, e.0, (e.1 * w) as u128);
        assert(scale_fold(acc, src, w) == a);
        if scaled_has_key(m, e.0) {
            assert forall|x: int, y: int| 0 <= x < y < a.len() implies a[x].0 != a[y].0 by {
                assert(a[x].0 == m[x].0);
                assert(a[y].0 == m[y].0);
            }
        } else {
            assert forall|x: int, y: int| 0 <= x < y < a.len() implies a[x].0 != a[y].0 by {
                if y < a.len() - 1 {
                    assert(m[x].0 != m[y].0);
                } else {
                    assert(a[x].0 == m[x].0);
                }
            }
        }
    }
}

impl ScaledFam {
    /// Distinct ordinates, each member well-formed.
    pub open spec fn wf(&self) -> bool {
        wf_scaled_fam(self@)
    }

    /// A new, empty family.
    pub fn new() -> (r: ScaledFam)
        ensures
            r@ == Seq::<(usize, (ScaledSeq, u128))>::empty(),
            r.wf(),
    {
        let r = ScaledFam { entries: Vec::new() };
        proof {
            assert(r@ =~= Seq::<(usize, (ScaledSeq, u128))>::empty());
        }
        r
    }

    /// Number of ordinates present.
    pub fn len(&self) -> (r: usize)
        ensures
            r == self@.len(),
    {
        self.entries.len()
    }

    /// The ordinate at position `i`.
    pub fn ordinate_at(&self, i: usize) -> (r: usize)
        requires
            i < self@.len(),
        ensures
            r == self@[i as int].0,
    {
        self.entries[i].n
    }

    /// The scaled map at position `i`.
    pub fn map_at(&self, i: usize) -> (r: &ScaledMap)
        requires
            i < self@.len(),
        ensures
            r@ == self@[i as int].1,
    {
        &self.entries[i].map
    }

    /// The position of ordinate `n`, if present.
    fn find_ord(&self, n: usize) -> (r: Option<usize>)
        ensures
            match r {
                Some(i) => i < self@.len() && self@[i as int].0 == n,
                None => !scaled_fam_has_ord(self@, n),
            },
    {
        let len: usize = self.entries.len();
        for i in 0..len
            invariant
                len == self@.len(),
                forall|j: int| 0 <= j < i ==> self@[j].0 != n,
        {
            if self.entries[i].n == n {
                return Some(i);
            }
        }
        None
    }

    /// The scaled map of ordinate `n`, if present.
    pub fn get(&self, n: usize) -> (r: Option<&ScaledMap>)
        ensures
            match r {
                Some(m) => scaled_fam_has_ord(self@, n) && (exists|i: int|
                    0 <= i < self@.len() && self@[i].0 == n && m@ == self@[i].1),
                None => !scaled_fam_has_ord(self@, n),
            },
    {
        match self.find_ord(n) {
            Some(i) => Some(&self.entries[i].map),
            None => None,
        }
    }

    /// Adds the weighted counts of one source map into ordinate `n`,
    /// creating the member under denominator `den` when absent.
    pub fn scale_add_member(&mut self, n: usize, src: &CountMap, w: u32, den: u128)
        requires
            old(self).wf(),
            den >= 1,
        ensures
            final(self)@ == fam_scale_add(old(self)@, n, src@, w, den),
            final(self).wf(),
    {
        proof {
            lemma_scale_fold_wf(Seq::empty(), src@, w);
        }
        match self.find_ord(n) {
            Some(i) => {
                proof {
                    assert(wf_scaled_seq(self@[i as int].1.0));
                    assert(self@[i as int].1 == self.entries@[i as int].map@);
                }
                let m = &mut self.entries[i].map;
                m.scale_add(src, w);
                proof {
                    let updated = fam_scale_add(old(self)@, n, src@, w, den);
                    assert forall|j: int| 0 <= j < self@.len() implies self@[j] == updated[j] by {
                        if j != i {
                            assert(old(self)@[j].0 != n);
                        }
                    }
                    assert(self@ =~= updated);
                    assert forall|x: int, y: int|
                        0 <= x < y < self@.len() implies self@[x].0 != self@[y].0 by {
                        assert(self@[x].0 == old(self)@[x].0);
                        assert(self@[y].0 == old(self)@[y].0);
                    }
                    assert forall|x: int|
                        0 <= x < self@.len() implies wf_scaled_seq((#[trigger] self@[x]).1.0)
                        && self@[x].1.1 >= 1 by {
                        if x != i {
                            assert(self@[x] == old(self)@[x]);
                        } else {
                            lemma_scale_fold_wf(old(self)@[x].1.0, src@, w);
                        }
                    }
                }
            },
            None => {
                let mut m = ScaledMap::new(den);
                m.scale_add(src, w);
                self.entries.push(ScaledNEntry { n, map: m });
                proof {
                    let updated = fam_scale_add(old(self)@, n, src@, w, den);
                    assert(self@ =~= old(self)@.push((n, (scale_fold(
                        Seq::empty(),
                        src@,
                        w,
                    ), den))));
                    assert(self@ =~= updated);
                    assert forall|x: int, y: int|
                        0 <= x < y < self@.len() implies self@[x].0 != self@[y].0 by {
                        if y < self@.len() - 1 {
                            assert(old(self)@[x].0 != old(self)@[y].0);
                        } else {
                            assert(!scaled_fam_has_ord(old(self)@, n));
                            assert(self@[x].0 == old(self)@[x].0);
                        }
                    }
                    assert forall|x: int|
                        0 <= x < self@.len() implies wf_scaled_seq((#[trigger] self@[x]).1.0)
                        && self@[x].1.1 >= 1 by {
                        if x < self@.len() - 1 {
                            assert(self@[x] == old(self)@[x]);
                        }
                    }
                }
            },
        }
    }

    /// Adds the weighted counts of a whole source family.
    pub fn scale_add_family(&mut self, src: &NOccurrences, w: u32, den: u128)
        requires
            old(self).wf(),
            den >= 1,
        ensures
            final(self)@ == fam_scale_add_all(old(self)@, src@, w, den),
            final(self).wf(),
    {
        let len: usize = src.len();
        for i in 0..len
            invariant
                len == src@.len(),
                den >= 1,
                self.wf(),
                self@ == src@.subrange(0, i as int).fold_left(
                    old(self)@,
                    |acc: ScaledFamSeq, p: (usize, EntrySeq)| fam_scale_add(acc, p.0, p.1, w, den),
                ),
        {
            let n = src.ordinate_at(i);
            self.scale_add_member(n, src.map_at(i), w, den);
            proof {
                let f = |acc: ScaledFamSeq, p: (usize, EntrySeq)| fam_scale_add(
                    acc,
                    p.0,
                    p.1,
                    w,
                    den,
                );
                let pre = src@.subrange(0, i as int);
                let post = src@.subrange(0, i + 1);
                assert(post.drop_last() =~= pre);
                assert(post.last() == src@[i as int]);
                assert(self@ == f(pre.fold_left(old(self)@, f), src@[i as int]));
            }
        }
        proof {
            assert(src@.subrange(0, len as int) =~= src@);
        }
    }

    /// Normalizes every member map.
    #[verifier::loop_isolation(false)]
    pub fn normalize_all(&mut self)
        requires
            old(self).wf(),
        ensures
            final(self).wf(),
            final(self)@.len() == old(self)@.len(),
            forall|i: int|
                0 <= i < old(self)@.len() ==> #[trigger] final(self)@[i] == (
                    old(self)@[i].0,
                    (old(self)@[i].1.0, normalize_den(old(self)@[i].1.0, old(self)@[i].1.1)),
                ),
    {
        let len: usize = self.len();
        let mut out = ScaledFam::new();
        for i in 0..len
            invariant
                len == self@.len(),
                self@ == old(self)@,
                out@.len() == i,
                forall|j: int|
                    0 <= j < i ==> #[trigger] out@[j] == (
                        self@[j].0,
                        (self@[j].1.0, normalize_den(self@[j].1.0, self@[j].1.1)),
                    ),
        {
            proof {
                assert(wf_scaled_seq(self@[i as int].1.0) && self@[i as int].1.1 >= 1);
                assert(self@[i as int].1 == self.entries@[i as int].map@);
            }
            let mut m = self.entries[i].map.duplicate();
            m.normalize();
            let ghost pre_out = out@;
            out.entries.push(ScaledNEntry { n: self.entries[i].n, map: m });
            proof {
                assert(out@ =~= pre_out.push((self.entries@[i as int].n, m@)));
            }
        }
        proof {
            assert forall|x: int, y: int| 0 <= x < y < out@.len() implies out@[x].0
                != out@[y].0 by {
                assert(old(self)@[x].0 != old(self)@[y].0);
            }
            assert forall|x: int|
                0 <= x < out@.len() implies wf_scaled_seq((#[trigger] out@[x]).1.0)
                && out@[x].1.1 >= 1 by {
                assert(wf_scaled_seq(old(self)@[x].1.0) && old(self)@[x].1.1 >= 1);
            }
        }
        *self = out;
    }

    /// A copy with the same members in the same order.
    #[verifier::loop_isolation(false)]
    pub fn duplicate(&self) -> (r: ScaledFam)
        ensures
            r@ == self@,
    {
        let len: usize = self.len();
        let mut out = ScaledFam::new();
        for i in 0..len
            invariant
                len == self@.len(),
                out@.len() == i,
                forall|j: int| 0 <= j < i ==> #[trigger] out@[j] == self@[j],
        {
            let m = self.entries[i].map.duplicate();
            let ghost pre_out = out@;
            out.entries.push(ScaledNEntry { n: self.entries[i].n, map: m });
            proof {
                assert(out@ =~= pre_out.push((self.entries@[i as int].n, m@)));
            }
        }
        proof {
            assert(out@ =~= self@);
        }
        out
    }

    /// Sorts every member map descending by numerator.
    #[verifier::loop_isolation(false)]
    pub fn sort_all(&mut self)
        requires
            old(self).wf(),
        ensures
            final(self).wf(),
            final(self)@.len() == old(self)@.len(),
            forall|i: int|
                0 <= i < old(self)@.len() ==> (#[trigger] final(self)@[i]).0 == old(self)@[i].0
                    && final(self)@[i].1.0.to_multiset() == old(self)@[i].1.0.to_multiset()
                    && final(self)@[i].1.1 == old(self)@[i].1.1 && scaled_sorted_desc(
                    final(self)@[i].1.0,
                ),
    {
        let len: usize = self.len();
        let mut out = ScaledFam::new();
        for i in 0..len
            invariant
                len == self@.len(),
                self@ == old(self)@,
                out@.len() == i,
                forall|j: int|
                    0 <= j < i ==> (#[trigger] out@[j]).0 == self@[j].0 && out@[j].1.0.to_multiset()
                        == self@[j].1.0.to_multiset() && out@[j].1.1 == self@[j].1.1
                        && scaled_sorted_desc(out@[j].1.0) && wf_scaled_seq(out@[j].1.0)
                        && out@[j].1.1 >= 1,
        {
            proof {
                assert(wf_scaled_seq(self@[i as int].1.0) && self@[i as int].1.1 >= 1);
                assert(self@[i as int].1 == self.entries@[i as int].map@);
            }
            let mut m = self.entries[i].map.duplicate();
            m.sort_desc();
            let ghost pre_out = out@;
            out.entries.push(ScaledNEntry { n: self.entries[i].n, map: m });
            proof {
                assert(out@ =~= pre_out.push((self.entries@[i as int].n, m@)));
            }
        }
        proof {
            assert forall|x: int, y: int| 0 <= x < y < out@.len() implies out@[x].0
                != out@[y].0 by {
                assert(old(self)@[x].0 != old(self)@[y].0);
            }
        }
        *self = out;
    }
}

/// Scale-adding a family onto the empty family lays its ordinates out
/// in order, each member freshly scaled.
pub proof fn lemma_fam_scale_fresh(fam: Seq<(usize, EntrySeq)>, w: u32, den: u128)
    requires
        forall|x: int, y: int| 0 <= x < y < fam.len() ==> fam[x].0 != fam[y].0,
    ensures
        fam_scale_add_all(Seq::empty(), fam, w, den).len() == fam.len(),
        forall|i: int|
            0 <= i < fam.len() ==> #[trigger] fam_scale_add_all(Seq::empty(), fam, w, den)[i] == (
                fam[i].0,
                (scale_fold(Seq::empty(), fam[i].1, w), den),
            ),
    decreases fam.len(),
{
    if fam.len() == 0 {
    } else {
        let f2 = fam.drop_last();
        let e = fam.last();
        assert(forall|x: int, y: int| 0 <= x < y < f2.len() ==> fam[x].0 != fam[y].0);
        lemma_fam_scale_fresh(f2, w, den);
        let mid = fam_scale_add_all(Seq::empty(), f2, w, den);
        assert(fam_scale_add_all(Seq::empty(), fam, w, den) == fam_scale_add(mid, e.0, e.1, w, den));
        assert(!scaled_fam_has_ord(mid, e.0)) by {
            if scaled_fam_has_ord(mid, e.0) {
                let i = choose|i: int| 0 <= i < mid.len() && mid[i].0 == e.0;
                assert(mid[i] == (f2[i].0, (scale_fold(Seq::empty(), f2[i].1, w), den)));
                assert(fam[i].0 == fam[fam.len() - 1].0);
            }
        }
    }
}

/// Scale-adding a family whose ordinates already stand at the same
/// positions folds each member onto its scaled map in place.
pub proof fn lemma_fam_scale_again(
    acc: ScaledFamSeq,
    fam: Seq<(usize, EntrySeq)>,
    w: u32,
    den: u128,
)
    requires
        forall|x: int, y: int| 0 <= x < y < acc.len() ==> acc[x].0 != acc[y].0,
        fam.len() <= acc.len(),
        forall|i: int| 0 <= i < fam.len() ==> (#[trigger] acc[i]).0 == fam[i].0,
    ensures
        fam_scale_add_all(acc, fam, w, den).len() == acc.len(),
        forall|i: int|
            0 <= i < acc.len() ==> #[trigger] fam_scale_add_all(acc, fam, w, den)[i] == (if i
                < fam.len() {
                (acc[i].0, (scale_fold(acc[i].1.0, fam[i].1, w), acc[i].1.1))
            } else {
                acc[i]
            }),
    decreases fam.len(),
{
    if fam.len() == 0 {
    } else {
        let f2 = fam.drop_last();
        let e = fam.last();
        let last: int = fam.len() - 1;
        assert(forall|i: int| 0 <= i < f2.len() ==> (#[trigger] acc[i]).0 == f2[i].0) by {
            assert(forall|i: int| 0 <= i < f2.len() ==> f2[i] == fam[i]);
        }
        lemma_fam_scale_again(acc, f2, w, den);
        let mid = fam_scale_add_all(acc, f2, w, den);
        assert(fam_scale_add_all(acc, fam, w, den) == fam_scale_add(mid, e.0, e.1, w, den));
        assert(mid[last].0 == e.0) by {
            assert(mid[last] == acc[last]);
        }
        assert(scaled_fam_has_ord(mid, e.0));
        assert forall|i: int| 0 <= i < acc.len() implies #[trigger] fam_scale_add(
            mid,
            e.0,
            e.1,
            w,
            den,
        )[i] == (if i < fam.len() {
            (acc[i].0, (scale_fold(acc[i].1.0, fam[i].1, w), acc[i].1.1))
        } else {
            acc[i]
        }) by {
            assert(fam_scale_add(mid, e.0, e.1, w, den)[i] == (if mid[i].0 == e.0 {
                (mid[i].0, (scale_fold(mid[i].1.0, e.1, w), mid[i].1.1))
            } else {
                mid[i]
            }));
            if i != last {
                assert(acc[i].0 != acc[last].0);
                assert(mid[i].0 == acc[i].0);
            }
        }
    }
}

/// The view of a whole real-valued analysis.
#[verifier::ext_equal]
pub struct ScaledAnalysisView {
    pub ngrams: ScaledFamSeq,
    pub skipgrams: ScaledFamSeq,
    pub words: (ScaledSeq, u128),
}

/// A real-valued analysis: one scaled family per gram family and one
/// scaled word map, all sharing one denominator until normalization.
#[derive(Debug)]
pub struct ScaledAnalysis {
    pub ngrams: ScaledFam,
    pub skipgrams: ScaledFam,
    pub words: ScaledMap,
}

impl View for ScaledAnalysis {
    type V = ScaledAnalysisView;

    open spec fn view(&self) -> ScaledAnalysisView {
        ScaledAnalysisView {
            ngrams: self.ngrams@,
            skipgrams: self.skipgrams@,
            words: self.words@,
        }
    }
}

impl ScaledAnalysis {
    /// Families and words well-formed.
    pub open spec fn wf(&self) -> bool {
        &&& self.ngrams.wf()
        &&& self.skipgrams.wf()
        &&& self.words.wf()
    }

    /// A new, empty analysis under denominator `den`.
    pub fn new(den: u128) -> (r: ScaledAnalysis)
        requires
            den >= 1,
        ensures
            r@.ngrams == Seq::<(usize, (ScaledSeq, u128))>::empty(),
            r@.skipgrams == Seq::<(usize, (ScaledSeq, u128))>::empty(),
            r@.words.0 == Seq::<(Seq<char>, u128)>::empty(),
            r@.words.1 == den,
            r.wf(),
    {
        ScaledAnalysis {
            ngrams: ScaledFam::new(),
            skipgrams: ScaledFam::new(),
            words: ScaledMap::new(den),
        }
    }

    /// Adds `w` times every count of `src`, family by family.
    pub fn scale_add(&mut self, src: &OccurrenceAnalysis, w: u32, den: u128)
        requires
            old(self).wf(),
            den >= 1,
        ensures
            final(self)@.ngrams == fam_scale_add_all(old(self)@.ngrams, src@.ngrams, w, den),
            final(self)@.skipgrams == fam_scale_add_all(
                old(self)@.skipgrams,
                src@.skipgrams,
                w,
                den,
            ),
            final(self)@.words.0 == scale_fold(old(self)@.words.0, src@.words, w),
            final(self)@.words.1 == old(self)@.words.1,
            final(self).wf(),
    {
        self.ngrams.scale_add_family(&src.ngrams, w, den);
        self.skipgrams.scale_add_family(&src.skipgrams, w, den);
        self.words.scale_add(&src.words, w);
    }

    /// Normalizes every map of every family, and the word map: each
    /// map's values then sum to one unless the map was all zero.
    pub fn normalize(&mut self)
        requires
            old(self).wf(),
        ensures
            final(self).wf(),
            final(self)@.ngrams.len() == old(self)@.ngrams.len(),
            forall|i: int|
                0 <= i < old(self)@.ngrams.len() ==> #[trigger] final(self)@.ngrams[i] == (
                    old(self)@.ngrams[i].0,
                    (
                        old(self)@.ngrams[i].1.0,
                        normalize_den(old(self)@.ngrams[i].1.0, old(self)@.ngrams[i].1.1),
                    ),
                ),
            final(self)@.skipgrams.len() == old(self)@.skipgrams.len(),
            forall|i: int|
                0 <= i < old(self)@.skipgrams.len() ==> #[trigger] final(self)@.skipgrams[i] == (
                    old(self)@.skipgrams[i].0,
                    (
                        old(self)@.skipgrams[i].1.0,
                        normalize_den(old(self)@.skipgrams[i].1.0, old(self)@.skipgrams[i].1.1),
                    ),
                ),
            final(self)@.words.0 == old(self)@.words.0,
            final(self)@.words.1 == normalize_den(old(self)@.words.0, old(self)@.words.1),
    {
        self.ngrams.normalize_all();
        self.skipgrams.normalize_all();
        self.words.normalize();
    }

    /// A copy with the same members in the same order.
    pub fn duplicate(&self) -> (r: ScaledAnalysis)
        ensures
            r@ == self@,
    {
        let r = ScaledAnalysis {
            ngrams: self.ngrams.duplicate(),
            skipgrams: self.skipgrams.duplicate(),
            words: self.words.duplicate(),
        };
        proof {
            assert(r@ =~= self@);
        }
        r
    }

    /// Sorts every map descending by numerator.
    pub fn sort(&mut self)
        requires
            old(self).wf(),
        ensures
            final(self).wf(),
            final(self)@.ngrams.len() == old(self)@.ngrams.len(),
            forall|i: int|
                0 <= i < old(self)@.ngrams.len() ==> (#[trigger] final(self)@.ngrams[i]).0 == old(
                    self,
                )@.ngrams[i].0 && final(self)@.ngrams[i].1.0.to_multiset()
                    == old(self)@.ngrams[i].1.0.to_multiset() && final(self)@.ngrams[i].1.1 == old(
                    self,
                )@.ngrams[i].1.1 && scaled_sorted_desc(final(self)@.ngrams[i].1.0),
            final(self)@.skipgrams.len() == old(self)@.skipgrams.len(),
            forall|i: int|
                0 <= i < old(self)@.skipgrams.len() ==> (#[trigger] final(self)@.skipgrams[i]).0
                    == old(self)@.skipgrams[i].0 && final(self)@.skipgrams[i].1.0.to_multiset()
                    == old(self)@.skipgrams[i].1.0.to_multiset() && final(self)@.skipgrams[i].1.1
                    == old(self)@.skipgrams[i].1.1 && scaled_sorted_desc(
                    final(self)@.skipgrams[i].1.0,
                ),
            final(self)@.words.0.to_multiset() == old(self)@.words.0.to_multiset(),
            final(self)@.words.1 == old(self)@.words.1,
            scaled_sorted_desc(final(self)@.words.0),
    {
        self.ngrams.sort_all();
        self.skipgrams.sort_all();
        self.words.sort_desc();
    }
}

} // verus!
