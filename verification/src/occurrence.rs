//! Occurrence maps: ordered mappings from gram to a non-negative count,
//! supporting entry-wise saturating merge, sum, and a stable descending
//! sort by count.

use vstd::prelude::*;

use crate::countable::Countable;
use crate::sat_add64;

verus! {

/// One gram together with how often it occurred.
#[derive(Debug)]
pub struct CountEntry {
    pub gram: Countable,
    pub count: u64,
}

impl View for CountEntry {
    type V = (Seq<char>, u64);

    open spec fn view(&self) -> (Seq<char>, u64) {
        (self.gram@, self.count)
    }
}

/// An ordered mapping gram -> count. Keys are unique; insertion order is
/// preserved by every operation except the explicit sort.
#[derive(Debug)]
pub struct CountMap {
    entries: Vec<CountEntry>,
}

impl View for CountMap {
    type V = Seq<(Seq<char>, u64)>;

    closed spec fn view(&self) -> Seq<(Seq<char>, u64)> {
        self.entries@.map_values(|e: CountEntry| e@)
    }
}

/// Entry sequences with pairwise-distinct keys: the well-formedness of
/// every occurrence map.
pub open spec fn wf_entry_seq(s: Seq<(Seq<char>, u64)>) -> bool {
    forall|i: int, j: int| 0 <= i < j < s.len() ==> s[i].0 != s[j].0
}

/// Whether some entry of `s` has key `k`.
pub open spec fn seq_has_key(s: Seq<(Seq<char>, u64)>, k: Seq<char>) -> bool {
    exists|i: int| 0 <= i < s.len() && s[i].0 == k
}

/// The entry sequence after adding `v` occurrences of key `k`: the
/// existing entry grows by saturating addition, or a new entry is
/// appended at the end.
pub open spec fn add_entry_seq(
    s: Seq<(Seq<char>, u64)>,
    k: Seq<char>,
    v: u64,
) -> Seq<(Seq<char>, u64)> {
    if seq_has_key(s, k) {
        s.map(
            |i: int, e: (Seq<char>, u64)|
                if e.0 == k {
                    (e.0, sat_add64(e.1, v))
                } else {
                    e
                },
        )
    } else {
        s.push((k, v))
    }
}

/// Merging `b` into `a`: every entry of `b` added in order.
pub open spec fn merge_entry_seq(
    a: Seq<(Seq<char>, u64)>,
    b: Seq<(Seq<char>, u64)>,
) -> Seq<(Seq<char>, u64)> {
    b.fold_left(a, |acc: Seq<(Seq<char>, u64)>, e: (Seq<char>, u64)| add_entry_seq(acc, e.0, e.1))
}

/// The (unordered) mapping that an entry sequence denotes.
pub open spec fn map_of_seq(s: Seq<(Seq<char>, u64)>) -> Map<Seq<char>, u64>
    decreases s.len(),
{
    if s.len() == 0 {
        Map::empty()
    } else {
        map_of_seq(s.drop_last()).insert(s.last().0, s.last().1)
    }
}

/// The count of `k` in `m`, absent keys counting zero.
pub open spec fn get_or_zero(m: Map<Seq<char>, u64>, k: Seq<char>) -> u64 {
    if m.contains_key(k) {
        m[k]
    } else {
        0
    }
}

/// Entry-wise saturating addition of two count mappings: the merge of the
/// data model. Absent keys take count zero.
pub open spec fn merge_maps(a: Map<Seq<char>, u64>, b: Map<Seq<char>, u64>) -> Map<
    Seq<char>,
    u64,
> {
    Map::new(
        |k: Seq<char>| a.contains_key(k) || b.contains_key(k),
        |k: Seq<char>| sat_add64(get_or_zero(a, k), get_or_zero(b, k)),
    )
}

/// Descending order by count.
pub open spec fn sorted_desc(s: Seq<(Seq<char>, u64)>) -> bool {
    forall|i: int, j: int| 0 <= i < j < s.len() ==> s[i].1 >= s[j].1
}

/// The domain of `map_of_seq(s)` is exactly the keys of `s`.
pub proof fn lemma_map_of_seq_dom(s: Seq<(Seq<char>, u64)>)
    ensures
        forall|k: Seq<char>| #[trigger] map_of_seq(s).contains_key(k) <==> seq_has_key(s, k),
    decreases s.len(),
{
    if s.len() == 0 {
    } else {
        lemma_map_of_seq_dom(s.drop_last());
        assert forall|k: Seq<char>| #[trigger] map_of_seq(s).contains_key(k) <==> seq_has_key(s, k) by {
            if map_of_seq(s).contains_key(k) {
                if k == s.last().0 {
                    assert(s[s.len() - 1].0 == k);
                    assert(seq_has_key(s, k));
                } else {
                    assert(map_of_seq(s.drop_last()).contains_key(k));
                    assert(seq_has_key(s.drop_last(), k));
                    let i = choose|i: int| 0 <= i < s.drop_last().len() && s.drop_last()[i].0 == k;
                    assert(s[i].0 == k);
                    assert(seq_has_key(s, k));
                }
            }
            if seq_has_key(s, k) {
                let i = choose|i: int| 0 <= i < s.len() && s[i].0 == k;
                if i < s.len() - 1 {
                    assert(s.drop_last()[i].0 == k);
                    assert(seq_has_key(s.drop_last(), k));
                    assert(map_of_seq(s.drop_last()).contains_key(k));
                    assert(map_of_seq(s).contains_key(k));
                } else {
                    assert(k == s.last().0);
                    assert(map_of_seq(s).contains_key(k));
                }
            }
        }
    }
}

/// In a well-formed entry sequence, each entry's key maps to its count.
pub proof fn lemma_map_of_seq_index(s: Seq<(Seq<char>, u64)>, i: int)
    requires
        wf_entry_seq(s),
        0 <= i < s.len(),
    ensures
        map_of_seq(s).contains_key(s[i].0),
        map_of_seq(s)[s[i].0] == s[i].1,
    decreases s.len(),
{
    lemma_map_of_seq_dom(s);
    if i == s.len() - 1 {
    } else {
        assert(wf_entry_seq(s.drop_last())) by {
            assert(forall|x: int, y: int|
                0 <= x < y < s.drop_last().len() ==> s.drop_last()[x].0 != s.drop_last()[y].0);
        }
        lemma_map_of_seq_index(s.drop_last(), i);
        assert(s[i].0 != s.last().0);
        assert(s.drop_last()[i] == s[i]);
    }
}

impl CountMap {
    /// Every public operation preserves this: keys are pairwise distinct.
    pub open spec fn wf(&self) -> bool {
        wf_entry_seq(self@)
    }

    /// The mapping this occurrence map denotes, ignoring order.
    pub open spec fn to_map(&self) -> Map<Seq<char>, u64> {
        map_of_seq(self@)
    }

    /// A new, empty occurrence map.
    pub fn new() -> (r: CountMap)
        ensures
            r@ == Seq::<(Seq<char>, u64)>::empty(),
            r.wf(),
    {
        let r = CountMap { entries: Vec::new() };
        proof {
            assert(r@ =~= Seq::<(Seq<char>, u64)>::empty());
        }
        r
    }

    /// Number of distinct grams.
    pub fn len(&self) -> (r: usize)
        ensures
            r == self@.len(),
    {
        self.entries.len()
    }

    /// The gram and count at position `i`.
    pub fn gram_at(&self, i: usize) -> (r: &Countable)
        requires
            i < self@.len(),
        ensures
            r@ == self@[i as int].0,
    {
        &self.entries[i].gram
    }

    /// The count at position `i`.
    pub fn count_at(&self, i: usize) -> (r: u64)
        requires
            i < self@.len(),
        ensures
            r == self@[i as int].1,
    {
        self.entries[i].count
    }

    /// The position of the entry whose key equals `g`, if any.
    fn find_key(&self, g: &Countable) -> (r: Option<usize>)
        ensures
            match r {
                Some(i) => i < self@.len() && self@[i as int].0 == g@,
                None => !seq_has_key(self@, g@),
            },
    {
        let n: usize = self.entries.len();
        for i in 0..n
            invariant
                n == self@.len(),
                forall|j: int| 0 <= j < i ==> self@[j].0 != g@,
        {
            if self.entries[i].gram.eq_gram(g) {
                return Some(i);
            }
        }
        None
    }

    /// The count recorded for `g`, zero when absent.
    pub fn get_count(&self, g: &Countable) -> (r: u64)
        requires
            self.wf(),
        ensures
            r == get_or_zero(self.to_map(), g@),
    {
        proof {
            lemma_map_of_seq_dom(self@);
        }
        match self.find_key(g) {
            Some(i) => {
                proof {
                    lemma_map_of_seq_index(self@, i as int);
                }
                self.entries[i].count
            },
            None => 0,
        }
    }

    /// Whether `g` occurs in the map.
    pub fn contains_gram(&self, g: &Countable) -> (r: bool)
        ensures
            r == seq_has_key(self@, g@),
    {
        self.find_key(g).is_some()
    }

    /// Adds `v` occurrences of gram `g`: the existing count grows by
    /// saturating addition, or a new entry is appended.
    pub fn add_count(&mut self, g: Countable, v: u64)
        requires
            old(self).wf(),
        ensures
            final(self)@ == add_entry_seq(old(self)@, g@, v),
            final(self).wf(),
    {
        match self.find_key(&g) {
            Some(i) => {
                let c = self.entries[i].count;
                self.entries[i].count = c.saturating_add(v);
                proof {
                    let updated = add_entry_seq(old(self)@, g@, v);
                    assert forall|j: int| 0 <= j < self@.len() implies self@[j] == updated[j] by {
                        if j != i {
                            assert(old(self)@[j].0 != g@);
                        }
                    }
                    assert(self@ =~= updated);
                    assert forall|x: int, y: int|
                        0 <= x < y < self@.len() implies self@[x].0 != self@[y].0 by {
                        assert(self@[x].0 == old(self)@[x].0);
                        assert(self@[y].0 == old(self)@[y].0);
                    }
                }
            },
            None => {
                self.entries.push(CountEntry { gram: g, count: v });
                proof {
                    assert(self@ =~= old(self)@.push((g@, v)));
                    assert forall|x: int, y: int|
                        0 <= x < y < self@.len() implies self@[x].0 != self@[y].0 by {
                        if y < self@.len() - 1 {
                            assert(old(self)@[x].0 != old(self)@[y].0);
                        } else {
                            assert(!seq_has_key(old(self)@, g@));
                            assert(old(self)@[x].0 != g@);
                        }
                    }
                }
            },
        }
    }

    /// Appends one entry at the end, whatever its key.
    pub(crate) fn push_entry_raw(&mut self, g: Countable, v: u64)
        ensures
            final(self)@ == old(self)@.push((g@, v)),
    {
        self.entries.push(CountEntry { gram: g, count: v });
        proof {
            assert(self@ =~= old(self)@.push((g@, v)));
        }
    }

    /// Inserts one entry at the front, whatever its key.
    pub(crate) fn insert_entry_front(&mut self, g: Countable, v: u64)
        ensures
            final(self)@ == seq![(g@, v)] + old(self)@,
    {
        self.entries.insert(0, CountEntry { gram: g, count: v });
        proof {
            assert(self@ =~= seq![(g@, v)] + old(self)@);
        }
    }

    /// Merges `other` into `self`: entry-wise saturating addition, new
    /// keys appended in `other`'s order.
    pub fn merge_from(&mut self, other: &CountMap)
        requires
            old(self).wf(),
        ensures
            final(self)@ == merge_entry_seq(old(self)@, other@),
            final(self).wf(),
    {
        let n: usize = other.entries.len();
        for i in 0..n
            invariant
                n == other@.len(),
                self.wf(),
                self@ == other@.subrange(0, i as int).fold_left(
                    old(self)@,
                    |acc: Seq<(Seq<char>, u64)>, e: (Seq<char>, u64)| add_entry_seq(acc, e.0, e.1),
                ),
        {
            let g = other.entries[i].gram.duplicate();
            let v = other.entries[i].count;
            self.add_count(g, v);
            proof {
                let f = |acc: Seq<(Seq<char>, u64)>, e: (Seq<char>, u64)|
                    add_entry_seq(acc, e.0, e.1);
                let pre = other@.subrange(0, i as int);
                let post = other@.subrange(0, i + 1);
                assert(post.drop_last() =~= pre);
                assert(post.last() == other@[i as int]);
                assert(self@ == f(pre.fold_left(old(self)@, f), other@[i as int]));
            }
        }
        proof {
            assert(other@.subrange(0, n as int) =~= other@);
        }
    }

    /// A copy with the same entries in the same order.
    pub fn duplicate(&self) -> (r: CountMap)
        ensures
            r@ == self@,
    {
        let mut entries: Vec<CountEntry> = Vec::new();
        let n: usize = self.entries.len();
        for i in 0..n
            invariant
                n == self.entries@.len(),
                entries@.len() == i,
                forall|j: int| 0 <= j < i ==> entries@[j]@ == self.entries@[j]@,
        {
            let e = CountEntry { gram: self.entries[i].gram.duplicate(), count: self.entries[i].count };
            entries.push(e);
        }
        let r = CountMap { entries };
        proof {
            assert(r@ =~= self@);
        }
        r
    }

    /// Whether two well-formed occurrence maps denote the same mapping,
    /// whatever their entry order.
    pub fn map_equal(&self, other: &CountMap) -> (r: bool)
        requires
            self.wf(),
            other.wf(),
        ensures
            r == (self.to_map() == other.to_map()),
    {
        proof {
            lemma_map_of_seq_dom(self@);
            lemma_map_of_seq_dom(other@);
        }
        let n: usize = self.entries.len();
        for i in 0..n
            invariant
                n == self@.len(),
                self.wf() && other.wf(),
                forall|j: int|
                    0 <= j < i ==> seq_has_key(other@, (#[trigger] self@[j]).0) && get_or_zero(
                        map_of_seq(other@),
                        self@[j].0,
                    ) == self@[j].1,
        {
            let g = &self.entries[i].gram;
            if !other.contains_gram(g) {
                proof {
                    lemma_map_of_seq_index(self@, i as int);
                    lemma_map_of_seq_dom(other@);
                    assert(self.to_map().contains_key(self@[i as int].0));
                    assert(!other.to_map().contains_key(self@[i as int].0));
                }
                return false;
            }
            if other.get_count(g) != self.entries[i].count {
                proof {
                    lemma_map_of_seq_index(self@, i as int);
                    lemma_map_of_seq_dom(other@);
                }
                return false;
            }
        }
        let m: usize = other.entries.len();
        for i in 0..m
            invariant
                m == other@.len(),
                self.wf() && other.wf(),
                forall|j: int|
                    0 <= j < self@.len() ==> seq_has_key(other@, (#[trigger] self@[j]).0)
                        && get_or_zero(map_of_seq(other@), self@[j].0) == self@[j].1,
                forall|j: int| 0 <= j < i ==> seq_has_key(self@, (#[trigger] other@[j]).0),
        {
            let g = &other.entries[i].gram;
            if !self.contains_gram(g) {
                proof {
                    lemma_map_of_seq_index(other@, i as int);
                    lemma_map_of_seq_dom(self@);
                    assert(other.to_map().contains_key(other@[i as int].0));
                    assert(!self.to_map().contains_key(other@[i as int].0));
                }
                return false;
            }
        }
        proof {
            assert forall|k: Seq<char>|
                #[trigger] self.to_map().contains_key(k) || other.to_map().contains_key(
                    k,
                ) implies self.to_map().contains_key(k) == other.to_map().contains_key(k)
                && get_or_zero(self.to_map(), k) == get_or_zero(other.to_map(), k) by {
                if self.to_map().contains_key(k) {
                    let j = choose|j: int| 0 <= j < self@.len() && self@[j].0 == k;
                    lemma_map_of_seq_index(self@, j);
                }
                if other.to_map().contains_key(k) {
                    let j = choose|j: int| 0 <= j < other@.len() && other@[j].0 == k;
                    lemma_map_of_seq_index(other@, j);
                    assert(seq_has_key(self@, k));
                }
            }
            assert(self.to_map() =~= other.to_map());
        }
        true
    }

    /// The saturating sum of all counts.
    pub fn total(&self) -> (r: u64)
        ensures
            r == sum_counts(self@),
    {
        let mut acc: u64 = 0;
        let n: usize = self.entries.len();
        for i in 0..n
            invariant
                n == self@.len(),
                acc == sum_counts(self@.subrange(0, i as int)),
        {
            acc = acc.saturating_add(self.entries[i].count);
            proof {
                let pre = self@.subrange(0, i as int);
                let post = self@.subrange(0, i + 1);
                assert(post.drop_last() =~= pre);
                assert(post.last() == self@[i as int]);
            }
        }
        proof {
            assert(self@.subrange(0, n as int) =~= self@);
        }
        acc
    }
}

impl CountMap {
    /// Sorts the entries in place, descending by count. Ties keep their
    /// previous relative order (a deterministic tie-break, which callers
    /// must not rely on). The denoted mapping is unchanged.
    #[verifier::loop_isolation(false)]
    pub fn sort_desc(&mut self)
        requires
            old(self).wf(),
        ensures
            final(self).wf(),
            final(self)@.to_multiset() == old(self)@.to_multiset(),
            sorted_desc(final(self)@),
            final(self).to_map() == old(self).to_map(),
    {
        broadcast use vstd::seq_lib::group_to_multiset_ensures;
        broadcast use vstd::seq_lib::to_multiset_insert;

        let n: usize = self.entries.len();
        let mut sorted: Vec<CountEntry> = Vec::new();
        let ghost view_of = |x: CountEntry| x@;
        for i in 0..n
            invariant
                n == self.entries@.len(),
                self@ == old(self)@,
                self.wf(),
                sorted@.map_values(view_of).to_multiset() == self@.subrange(
                    0,
                    i as int,
                ).to_multiset(),
                sorted_desc(sorted@.map_values(view_of)),
                wf_entry_seq(sorted@.map_values(view_of)),
                forall|x: int|
                    0 <= x < sorted@.len() ==> seq_has_key(
                        self@.subrange(0, i as int),
                        sorted@.map_values(view_of)[x].0,
                    ),
        {
            let ghost ei = old(self)@[i as int];
            let ghost pre = sorted@.map_values(view_of);
            let e = CountEntry {
                gram: self.entries[i].gram.duplicate(),
                count: self.entries[i].count,
            };
            let mut j: usize = 0;
            while j < sorted.len() && sorted[j].count >= e.count
                invariant
                    j <= sorted@.len(),
                    e@ == ei,
                    pre == sorted@.map_values(view_of),
                    forall|m: int| 0 <= m < j ==> pre[m].1 >= ei.1,
                decreases sorted@.len() - j,
            {
                j += 1;
            }
            proof {
                if (j as int) < pre.len() {
                    assert(pre[j as int].1 < ei.1);
                }
            }
            sorted.insert(j, e);
            proof {
                let prev = old(self)@.subrange(0, i as int);
                let cur = old(self)@.subrange(0, i + 1);
                assert(cur.drop_last() =~= prev);
                assert(cur =~= prev.push(ei));
                let sv = sorted@.map_values(view_of);
                assert(sv =~= pre.insert(j as int, ei));
                assert(pre.insert(j as int, ei).to_multiset() == pre.to_multiset().insert(ei));
                assert(prev.push(ei).to_multiset() == prev.to_multiset().insert(ei));
                assert(sv.to_multiset() == cur.to_multiset());
                // the inserted key is fresh among sorted's keys
                assert(!seq_has_key(prev, ei.0)) by {
                    if seq_has_key(prev, ei.0) {
                        let x = choose|x: int| 0 <= x < prev.len() && prev[x].0 == ei.0;
                        assert(old(self)@[x].0 == old(self)@[i as int].0);
                    }
                }
                assert forall|x: int, y: int| 0 <= x < y < sv.len() implies sv[x].0 != sv[y].0 by {
                    if x == j as int {
                        assert(sv[y] == pre[y - 1]);
                        assert(seq_has_key(prev, pre[y - 1].0));
                    } else if y == j as int {
                        assert(sv[x] == pre[x]);
                        assert(seq_has_key(prev, pre[x].0));
                    } else {
                        let x2: int = if x < j as int { x } else { x - 1 };
                        let y2: int = if y < j as int { y } else { y - 1 };
                        assert(sv[x] == pre[x2] && sv[y] == pre[y2]);
                        assert(pre[x2].0 != pre[y2].0);
                    }
                }
                assert forall|x: int, y: int| 0 <= x < y < sv.len() implies sv[x].1 >= sv[y].1 by {
                    if x == j as int {
                        assert(sv[y] == pre[y - 1]);
                        assert(pre[y - 1].1 < ei.1);
                    } else if y == j as int {
                        assert(sv[x] == pre[x]);
                        assert(pre[x].1 >= ei.1);
                    } else {
                        let x2: int = if x < j as int { x } else { x - 1 };
                        let y2: int = if y < j as int { y } else { y - 1 };
                        assert(sv[x] == pre[x2] && sv[y] == pre[y2]);
                        assert(pre[x2].1 >= pre[y2].1);
                    }
                }
                assert forall|x: int| 0 <= x < sv.len() implies seq_has_key(cur, sv[x].0) by {
                    if x == j as int {
                        assert(cur[i as int].0 == sv[x].0);
                    } else {
                        let x2: int = if x < j as int { x } else { x - 1 };
                        assert(sv[x] == pre[x2]);
                        assert(seq_has_key(prev, pre[x2].0));
                        let m = choose|m: int| 0 <= m < prev.len() && prev[m].0 == pre[x2].0;
                        assert(cur[m].0 == sv[x].0);
                    }
                }
            }
        }
        proof {
            assert(old(self)@.subrange(0, n as int) =~= old(self)@);
        }
        self.entries = sorted;
        proof {
            lemma_map_from_multiset(old(self)@, self@);
        }
    }
}

/// Well-formed entry sequences with the same entries (as a multiset)
/// denote the same mapping.
pub proof fn lemma_map_from_multiset(a: Seq<(Seq<char>, u64)>, b: Seq<(Seq<char>, u64)>)
    requires
        wf_entry_seq(a),
        wf_entry_seq(b),
        a.to_multiset() == b.to_multiset(),
    ensures
        map_of_seq(a) == map_of_seq(b),
{
    broadcast use vstd::seq_lib::group_to_multiset_ensures;

    lemma_map_of_seq_dom(a);
    lemma_map_of_seq_dom(b);
    assert forall|k: Seq<char>|
        #[trigger] map_of_seq(a).contains_key(k) || map_of_seq(b).contains_key(
            k,
        ) implies map_of_seq(a).contains_key(k) == map_of_seq(b).contains_key(k) && get_or_zero(
        map_of_seq(a),
        k,
    ) == get_or_zero(map_of_seq(b), k) by {
        if map_of_seq(a).contains_key(k) {
            let i = choose|i: int| 0 <= i < a.len() && a[i].0 == k;
            lemma_map_of_seq_index(a, i);
            assert(a.contains(a[i]));
            assert(a.to_multiset().count(a[i]) > 0);
            assert(b.contains(a[i]));
            let m = choose|m: int| 0 <= m < b.len() && b[m] == a[i];
            lemma_map_of_seq_index(b, m);
        }
        if map_of_seq(b).contains_key(k) {
            let i = choose|i: int| 0 <= i < b.len() && b[i].0 == k;
            lemma_map_of_seq_index(b, i);
            assert(b.contains(b[i]));
            assert(b.to_multiset().count(b[i]) > 0);
            assert(a.contains(b[i]));
            let m = choose|m: int| 0 <= m < a.len() && a[m] == b[i];
            lemma_map_of_seq_index(a, m);
        }
    }
    assert(map_of_seq(a) =~= map_of_seq(b));
}

/// The saturating sum of the counts of an entry sequence.
pub open spec fn sum_counts(s: Seq<(Seq<char>, u64)>) -> u64 {
    s.fold_left(0u64, |acc: u64, e: (Seq<char>, u64)| sat_add64(acc, e.1))
}

impl Clone for CountMap {
    fn clone(&self) -> (r: CountMap)
        ensures
            r@ == self@,
    {
        self.duplicate()
    }
}

/// Saturating addition is associative.
pub proof fn lemma_sat_add64_assoc(a: u64, b: u64, c: u64)
    ensures
        sat_add64(sat_add64(a, b), c) == sat_add64(a, sat_add64(b, c)),
{
}

/// Adding one key to a well-formed entry sequence inserts the saturated
/// count into its mapping and keeps the sequence well-formed.
pub proof fn lemma_add_entry_map(s: Seq<(Seq<char>, u64)>, k: Seq<char>, v: u64)
    requires
        wf_entry_seq(s),
    ensures
        wf_entry_seq(add_entry_seq(s, k, v)),
        map_of_seq(add_entry_seq(s, k, v)) == map_of_seq(s).insert(
            k,
            sat_add64(get_or_zero(map_of_seq(s), k), v),
        ),
    decreases s.len(),
{
    lemma_map_of_seq_dom(s);
    let a = add_entry_seq(s, k, v);
    if !seq_has_key(s, k) {
        assert(a == s.push((k, v)));
        assert(a.drop_last() =~= s);
        assert(!map_of_seq(s).contains_key(k));
        assert(map_of_seq(a) == map_of_seq(s).insert(k, v));
        assert(sat_add64(0, v) == v);
        assert forall|x: int, y: int| 0 <= x < y < a.len() implies a[x].0 != a[y].0 by {
            if y < a.len() - 1 {
                assert(s[x].0 != s[y].0);
            } else {
                assert(a[x].0 == s[x].0);
            }
        }
    } else {
        let s2 = s.drop_last();
        let e = s.last();
        assert(wf_entry_seq(s2)) by {
            assert(forall|x: int, y: int| 0 <= x < y < s2.len() ==> s[x].0 != s[y].0);
        }
        assert forall|x: int, y: int| 0 <= x < y < a.len() implies a[x].0 != a[y].0 by {
            assert(a[x].0 == s[x].0);
            assert(a[y].0 == s[y].0);
        }
        if e.0 == k {
            assert(!seq_has_key(s2, k)) by {
                if seq_has_key(s2, k) {
                    let i = choose|i: int| 0 <= i < s2.len() && s2[i].0 == k;
                    assert(s[i].0 == s[s.len() - 1].0);
                }
            }
            lemma_map_of_seq_dom(s2);
            assert(a.drop_last() =~= s2) by {
                assert forall|i: int| 0 <= i < s2.len() implies a.drop_last()[i] == s2[i] by {
                    assert(s[i].0 != k);
                }
            }
            assert(a.last() == (k, sat_add64(e.1, v)));
            assert(map_of_seq(a) == map_of_seq(s2).insert(k, sat_add64(e.1, v)));
            lemma_map_of_seq_index(s, s.len() - 1);
            assert(get_or_zero(map_of_seq(s), k) == e.1);
            assert(map_of_seq(s2).insert(k, sat_add64(e.1, v)) =~= map_of_seq(s2).insert(
                k,
                e.1,
            ).insert(k, sat_add64(e.1, v)));
        } else {
            assert(seq_has_key(s2, k)) by {
                let i = choose|i: int| 0 <= i < s.len() && s[i].0 == k;
                assert(i < s.len() - 1);
                assert(s2[i].0 == k);
            }
            lemma_add_entry_map(s2, k, v);
            assert(a.drop_last() =~= add_entry_seq(s2, k, v)) by {
                assert forall|i: int| 0 <= i < s2.len() implies a.drop_last()[i] == add_entry_seq(
                    s2,
                    k,
                    v,
                )[i] by {
                    assert(a[i] == (if s[i].0 == k {
                        (s[i].0, sat_add64(s[i].1, v))
                    } else {
                        s[i]
                    }));
                }
            }
            assert(a.last() == e);
            lemma_map_of_seq_dom(s2);
            assert(get_or_zero(map_of_seq(s2), k) == get_or_zero(map_of_seq(s), k)) by {
                assert(map_of_seq(s) == map_of_seq(s2).insert(e.0, e.1));
            }
            assert(map_of_seq(a) == map_of_seq(s2).insert(
                k,
                sat_add64(get_or_zero(map_of_seq(s), k), v),
            ).insert(e.0, e.1));
            assert(map_of_seq(a) =~= map_of_seq(s).insert(
                k,
                sat_add64(get_or_zero(map_of_seq(s), k), v),
            ));
        }
    }
}

/// Merging well-formed entry sequences realises the entry-wise saturating
/// merge of their mappings.
pub proof fn lemma_merge_entry_seq_maps(a: Seq<(Seq<char>, u64)>, b: Seq<(Seq<char>, u64)>)
    requires
        wf_entry_seq(a),
        wf_entry_seq(b),
    ensures
        wf_entry_seq(merge_entry_seq(a, b)),
        map_of_seq(merge_entry_seq(a, b)) == merge_maps(map_of_seq(a), map_of_seq(b)),
    decreases b.len(),
{
    let f = |acc: Seq<(Seq<char>, u64)>, e: (Seq<char>, u64)| add_entry_seq(acc, e.0, e.1);
    let ma = map_of_seq(a);
    lemma_map_of_seq_dom(a);
    lemma_map_of_seq_dom(b);
    if b.len() == 0 {
        assert(merge_entry_seq(a, b) == a);
        assert(map_of_seq(b) == Map::<Seq<char>, u64>::empty());
        assert(ma =~= merge_maps(ma, map_of_seq(b))) by {
            assert forall|k: Seq<char>| #[trigger] ma.contains_key(k) implies sat_add64(
                get_or_zero(ma, k),
                0,
            ) == ma[k] by {}
        }
    } else {
        let b2 = b.drop_last();
        let e = b.last();
        assert(wf_entry_seq(b2)) by {
            assert(forall|x: int, y: int| 0 <= x < y < b2.len() ==> b[x].0 != b[y].0);
        }
        lemma_merge_entry_seq_maps(a, b2);
        let m1 = merge_entry_seq(a, b2);
        assert(merge_entry_seq(a, b) == f(m1, e));
        lemma_add_entry_map(m1, e.0, e.1);
        lemma_map_of_seq_dom(b2);
        let mb2 = map_of_seq(b2);
        let mb = map_of_seq(b);
        assert(mb == mb2.insert(e.0, e.1));
        assert(!seq_has_key(b2, e.0)) by {
            if seq_has_key(b2, e.0) {
                let i = choose|i: int| 0 <= i < b2.len() && b2[i].0 == e.0;
                assert(b[i].0 == b[b.len() - 1].0);
            }
        }
        assert(!mb2.contains_key(e.0));
        assert(get_or_zero(merge_maps(ma, mb2), e.0) == get_or_zero(ma, e.0)) by {
            if ma.contains_key(e.0) {
                assert(merge_maps(ma, mb2).contains_key(e.0));
                assert(merge_maps(ma, mb2)[e.0] == sat_add64(ma[e.0], 0));
            } else {
                assert(!merge_maps(ma, mb2).contains_key(e.0));
            }
        }
        assert(map_of_seq(merge_entry_seq(a, b)) == merge_maps(ma, mb2).insert(
            e.0,
            sat_add64(get_or_zero(ma, e.0), e.1),
        ));
        assert(merge_maps(ma, mb2).insert(e.0, sat_add64(get_or_zero(ma, e.0), e.1))
            =~= merge_maps(ma, mb)) by {
            assert forall|k: Seq<char>|
                #[trigger] merge_maps(ma, mb).contains_key(k) && k != e.0 implies get_or_zero(
                mb,
                k,
            ) == get_or_zero(mb2, k) by {}
        }
    }
}

/// Entry-wise saturating merge of mappings is commutative.
pub proof fn lemma_merge_maps_commutative(a: Map<Seq<char>, u64>, b: Map<Seq<char>, u64>)
    ensures
        merge_maps(a, b) == merge_maps(b, a),
{
    assert(merge_maps(a, b) =~= merge_maps(b, a));
}

/// Entry-wise saturating merge of mappings is associative.
pub proof fn lemma_merge_maps_associative(
    a: Map<Seq<char>, u64>,
    b: Map<Seq<char>, u64>,
    c: Map<Seq<char>, u64>,
)
    ensures
        merge_maps(merge_maps(a, b), c) == merge_maps(a, merge_maps(b, c)),
{
    assert(merge_maps(merge_maps(a, b), c) =~= merge_maps(a, merge_maps(b, c))) by {
        assert forall|k: Seq<char>|
            #[trigger] merge_maps(merge_maps(a, b), c).contains_key(k) || merge_maps(
                a,
                merge_maps(b, c),
            ).contains_key(k) implies merge_maps(merge_maps(a, b), c).contains_key(k) == merge_maps(
            a,
            merge_maps(b, c),
        ).contains_key(k) && get_or_zero(merge_maps(merge_maps(a, b), c), k) == get_or_zero(
            merge_maps(a, merge_maps(b, c)),
            k,
        ) by {
            lemma_sat_add64_assoc(get_or_zero(a, k), get_or_zero(b, k), get_or_zero(c, k));
        }
    }
}

} // verus!
