//! An occurrence analysis: per-length n-gram maps, per-gap skip-gram
//! maps, and one whole-word map, with entry-wise merge and descending
//! sort. Merge is associative and commutative on the denoted model.

use vstd::prelude::*;

use crate::countable::Countable;
use crate::occurrence::{
    lemma_merge_entry_seq_maps, lemma_merge_maps_associative, lemma_merge_maps_commutative,
    map_of_seq, merge_entry_seq, merge_maps, sorted_desc, wf_entry_seq, CountMap,
};

verus! {

/// The sequence view of one occurrence map: key/count pairs in order.
pub type EntrySeq = Seq<(Seq<char>, u64)>;

/// The sequence view of one family: ordinate/map pairs in order.
pub type FamSeq = Seq<(usize, EntrySeq)>;

/// The mapping a family denotes: ordinate -> gram -> count.
pub type FamMap = Map<usize, Map<Seq<char>, u64>>;

/// One family member: the occurrence map of one ordinate (a gram length
/// or a skip distance).
#[derive(Debug)]
pub struct NEntry {
    pub n: usize,
    pub map: CountMap,
}

/// A family of occurrence maps indexed by ordinate, in insertion order
/// with pairwise-distinct ordinates.
#[derive(Debug)]
pub struct NOccurrences {
    entries: Vec<NEntry>,
}

impl View for NOccurrences {
    type V = FamSeq;

    closed spec fn view(&self) -> FamSeq {
        self.entries@.map_values(|e: NEntry| (e.n, e.map@))
    }
}

/// Whether some member of the family has ordinate `n`.
pub open spec fn fam_has_ord(s: FamSeq, n: usize) -> bool {
    exists|i: int| 0 <= i < s.len() && s[i].0 == n
}

/// Distinct ordinates, each map well-formed.
pub open spec fn wf_fam_seq(s: FamSeq) -> bool {
    &&& forall|i: int, j: int| 0 <= i < j < s.len() ==> s[i].0 != s[j].0
    &&& forall|i: int| 0 <= i < s.len() ==> wf_entry_seq(#[trigger] s[i].1)
}

/// The family after merging entry sequence `es` into ordinate `n`: the
/// existing member absorbs it, or a new member is appended.
pub open spec fn fam_add_entry(s: FamSeq, n: usize, es: EntrySeq) -> FamSeq {
    if fam_has_ord(s, n) {
        s.map(
            |i: int, p: (usize, EntrySeq)|
                if p.0 == n {
                    (p.0, merge_entry_seq(p.1, es))
                } else {
                    p
                },
        )
    } else {
        s.push((n, merge_entry_seq(Seq::empty(), es)))
    }
}

/// Merging family `b` into family `a`, member by member in `b`'s order.
pub open spec fn fam_merge_seq(a: FamSeq, b: FamSeq) -> FamSeq {
    b.fold_left(a, |acc: FamSeq, p: (usize, EntrySeq)| fam_add_entry(acc, p.0, p.1))
}

/// The mapping a family denotes.
pub open spec fn fam_map_of(s: FamSeq) -> FamMap
    decreases s.len(),
{
    if s.len() == 0 {
        Map::empty()
    } else {
        fam_map_of(s.drop_last()).insert(s.last().0, map_of_seq(s.last().1))
    }
}

/// The map of ordinate `n`, the empty map when absent.
pub open spec fn fam_get_or_empty(m: FamMap, n: usize) -> Map<Seq<char>, u64> {
    if m.contains_key(n) {
        m[n]
    } else {
        Map::empty()
    }
}

/// Ordinate-wise merge of two family mappings.
pub open spec fn fam_merge_maps(a: FamMap, b: FamMap) -> FamMap {
    Map::new(
        |n: usize| a.contains_key(n) || b.contains_key(n),
        |n: usize| merge_maps(fam_get_or_empty(a, n), fam_get_or_empty(b, n)),
    )
}

/// The domain of `fam_map_of(s)` is exactly the ordinates of `s`.
pub proof fn lemma_fam_map_of_dom(s: FamSeq)
    ensures
        forall|n: usize| #[trigger] fam_map_of(s).contains_key(n) <==> fam_has_ord(s, n),
    decreases s.len(),
{
    if s.len() == 0 {
    } else {
        lemma_fam_map_of_dom(s.drop_last());
        assert forall|n: usize| #[trigger] fam_map_of(s).contains_key(n) <==> fam_has_ord(s, n) by {
            if fam_map_of(s).contains_key(n) {
                if n == s.last().0 {
                    assert(s[s.len() - 1].0 == n);
                } else {
                    assert(fam_map_of(s.drop_last()).contains_key(n));
                    let i = choose|i: int| 0 <= i < s.drop_last().len() && s.drop_last()[i].0 == n;
                    assert(s[i].0 == n);
                }
            }
            if fam_has_ord(s, n) {
                let i = choose|i: int| 0 <= i < s.len() && s[i].0 == n;
                if i < s.len() - 1 {
                    assert(s.drop_last()[i].0 == n);
                    assert(fam_map_of(s.drop_last()).contains_key(n));
                }
            }
        }
    }
}

/// In a well-formed family, each member's ordinate maps to its mapping.
pub proof fn lemma_fam_map_of_index(s: FamSeq, i: int)
    requires
        wf_fam_seq(s),
        0 <= i < s.len(),
    ensures
        fam_map_of(s).contains_key(s[i].0),
        fam_map_of(s)[s[i].0] == map_of_seq(s[i].1),
    decreases s.len(),
{
    lemma_fam_map_of_dom(s);
    if i == s.len() - 1 {
    } else {
        assert(wf_fam_seq(s.drop_last())) by {
            assert(forall|x: int, y: int|
                0 <= x < y < s.drop_last().len() ==> s[x].0 != s[y].0);
            assert(forall|x: int|
                0 <= x < s.drop_last().len() ==> wf_entry_seq(#[trigger] s.drop_last()[x].1));
        }
        lemma_fam_map_of_index(s.drop_last(), i);
        assert(s[i].0 != s.last().0);
        assert(s.drop_last()[i] == s[i]);
    }
}

/// Merging one entry sequence into a family ordinate realises the merge
/// of its mapping, and keeps the family well-formed.
pub proof fn lemma_fam_add_map(s: FamSeq, n: usize, es: EntrySeq)
    requires
        wf_fam_seq(s),
        wf_entry_seq(es),
    ensures
        wf_fam_seq(fam_add_entry(s, n, es)),
        fam_map_of(fam_add_entry(s, n, es)) == fam_map_of(s).insert(
            n,
            merge_maps(fam_get_or_empty(fam_map_of(s), n), map_of_seq(es)),
        ),
    decreases s.len(),
{
    lemma_fam_map_of_dom(s);
    let a = fam_add_entry(s, n, es);
    if !fam_has_ord(s, n) {
        lemma_merge_entry_seq_maps(Seq::empty(), es);
        assert(map_of_seq(Seq::<(Seq<char>, u64)>::empty()) == Map::<Seq<char>, u64>::empty());
        assert(a == s.push((n, merge_entry_seq(Seq::empty(), es))));
        assert(a.drop_last() =~= s);
        assert(!fam_map_of(s).contains_key(n));
        assert(merge_maps(Map::empty(), map_of_seq(es)) =~= merge_maps(
            fam_get_or_empty(fam_map_of(s), n),
            map_of_seq(es),
        ));
        assert forall|x: int, y: int| 0 <= x < y < a.len() implies a[x].0 != a[y].0 by {
            if y < a.len() - 1 {
                assert(s[x].0 != s[y].0);
            } else {
                assert(a[x].0 == s[x].0);
                assert(s[x].0 != n);
            }
        }
        assert forall|x: int| 0 <= x < a.len() implies wf_entry_seq(#[trigger] a[x].1) by {
            if x < a.len() - 1 {
                assert(a[x].1 == s[x].1);
            }
        }
    } else {
        let s2 = s.drop_last();
        let e = s.last();
        assert(wf_fam_seq(s2)) by {
            assert(forall|x: int, y: int| 0 <= x < y < s2.len() ==> s[x].0 != s[y].0);
            assert(forall|x: int| 0 <= x < s2.len() ==> wf_entry_seq(#[trigger] s2[x].1));
        }
        assert forall|x: int, y: int| 0 <= x < y < a.len() implies a[x].0 != a[y].0 by {
            assert(a[x].0 == s[x].0);
            assert(a[y].0 == s[y].0);
        }
        assert forall|x: int| 0 <= x < a.len() implies wf_entry_seq(#[trigger] a[x].1) by {
            if s[x].0 == n {
                lemma_merge_entry_seq_maps(s[x].1, es);
                assert(a[x].1 == merge_entry_seq(s[x].1, es));
            } else {
                assert(a[x].1 == s[x].1);
            }
        }
        if e.0 == n {
            assert(!fam_has_ord(s2, n)) by {
                if fam_has_ord(s2, n) {
                    let i = choose|i: int| 0 <= i < s2.len() && s2[i].0 == n;
                    assert(s[i].0 == s[s.len() - 1].0);
                }
            }
            lemma_fam_map_of_dom(s2);
            assert(a.drop_last() =~= s2) by {
                assert forall|i: int| 0 <= i < s2.len() implies a.drop_last()[i] == s2[i] by {
                    assert(s[i].0 != n);
                }
            }
            lemma_merge_entry_seq_maps(e.1, es);
            assert(a.last() == (n, merge_entry_seq(e.1, es)));
            assert(fam_map_of(a) == fam_map_of(s2).insert(
                n,
                merge_maps(map_of_seq(e.1), map_of_seq(es)),
            ));
            lemma_fam_map_of_index(s, s.len() - 1);
            assert(fam_get_or_empty(fam_map_of(s), n) == map_of_seq(e.1));
            assert(fam_map_of(s2).insert(n, merge_maps(map_of_seq(e.1), map_of_seq(es)))
                =~= fam_map_of(s2).insert(n, map_of_seq(e.1)).insert(
                n,
                merge_maps(map_of_seq(e.1), map_of_seq(es)),
            ));
        } else {
            assert(fam_has_ord(s2, n)) by {
                let i = choose|i: int| 0 <= i < s.len() && s[i].0 == n;
                assert(i < s.len() - 1);
                assert(s2[i].0 == n);
            }
            lemma_fam_add_map(s2, n, es);
            assert(a.drop_last() =~= fam_add_entry(s2, n, es)) by {
                assert forall|i: int| 0 <= i < s2.len() implies a.drop_last()[i] == fam_add_entry(
                    s2,
                    n,
                    es,
                )[i] by {
                    assert(a[i] == (if s[i].0 == n {
                        (s[i].0, merge_entry_seq(s[i].1, es))
                    } else {
                        s[i]
                    }));
                }
            }
            assert(a.last() == e);
            lemma_fam_map_of_dom(s2);
            assert(fam_get_or_empty(fam_map_of(s2), n) == fam_get_or_empty(fam_map_of(s), n)) by {
                assert(fam_map_of(s) == fam_map_of(s2).insert(e.0, map_of_seq(e.1)));
            }
            assert(fam_map_of(a) == fam_map_of(s2).insert(
                n,
                merge_maps(fam_get_or_empty(fam_map_of(s), n), map_of_seq(es)),
            ).insert(e.0, map_of_seq(e.1)));
            assert(fam_map_of(a) =~= fam_map_of(s).insert(
                n,
                merge_maps(fam_get_or_empty(fam_map_of(s), n), map_of_seq(es)),
            ));
        }
    }
}

impl NOccurrences {
    /// Distinct ordinates, each map well-formed.
    pub open spec fn wf(&self) -> bool {
        wf_fam_seq(self@)
    }

    /// The mapping this family denotes.
    pub open spec fn to_map(&self) -> FamMap {
        fam_map_of(self@)
    }

    /// A new, empty family.
    pub fn new() -> (r: NOccurrences)
        ensures
            r@ == Seq::<(usize, EntrySeq)>::empty(),
            r.wf(),
    {
        let r = NOccurrences { entries: Vec::new() };
        proof {
            assert(r@ =~= Seq::<(usize, EntrySeq)>::empty());
        }
        r
    }

    /// Number of ordinates present.
    pub fn len(&self) -> (r: usize)
        ensures
            r == self@.len(),
    {
        self.entries.len()
    }

    /// The ordinate at position `i`.
    pub fn ordinate_at(&self, i: usize) -> (r: usize)
        requires
            i < self@.len(),
        ensures
            r == self@[i as int].0,
    {
        self.entries[i].n
    }

    /// The occurrence map at position `i`.
    pub fn map_at(&self, i: usize) -> (r: &CountMap)
        requires
            i < self@.len(),
        ensures
            r@ == self@[i as int].1,
    {
        &self.entries[i].map
    }

    /// The position of ordinate `n`, if present.
    fn find_ord(&self, n: usize) -> (r: Option<usize>)
        ensures
            match r {
                Some(i) => i < self@.len() && self@[i as int].0 == n,
                None => !fam_has_ord(self@, n),
            },
    {
        let len: usize = self.entries.len();
        for i in 0..len
            invariant
                len == self@.len(),
                forall|j: int| 0 <= j < i ==> self@[j].0 != n,
        {
            if self.entries[i].n == n {
                return Some(i);
            }
        }
        None
    }

    /// The occurrence map of ordinate `n`, if present.
    pub fn get(&self, n: usize) -> (r: Option<&CountMap>)
        ensures
            match r {
                Some(m) => fam_has_ord(self@, n) && (exists|i: int|
                    0 <= i < self@.len() && self@[i].0 == n && m@ == self@[i].1),
                None => !fam_has_ord(self@, n),
            },
    {
        match self.find_ord(n) {
            Some(i) => Some(&self.entries[i].map),
            None => None,
        }
    }

    /// Whether two well-formed families denote the same mapping,
    /// whatever their member order.
    pub fn fam_equal(&self, other: &NOccurrences) -> (r: bool)
        requires
            self.wf(),
            other.wf(),
        ensures
            r == (self.to_map() == other.to_map()),
    {
        let n: usize = self.entries.len();
        for i in 0..n
            invariant
                n == self@.len(),
                self.wf() && other.wf(),
                forall|j: int|
                    0 <= j < i ==> fam_has_ord(other@, (#[trigger] self@[j]).0)
                        && fam_get_or_empty(fam_map_of(other@), self@[j].0) == map_of_seq(
                        self@[j].1,
                    ),
        {
            let ord = self.entries[i].n;
            match other.get(ord) {
                None => {
                    proof {
                        lemma_fam_map_of_index(self@, i as int);
                        lemma_fam_map_of_dom(other@);
                        assert(self.to_map().contains_key(self@[i as int].0));
                        assert(!other.to_map().contains_key(self@[i as int].0));
                    }
                    return false;
                },
                Some(m) => {
                    proof {
                        assert(wf_entry_seq(m@)) by {
                            let x = choose|x: int|
                                0 <= x < other@.len() && other@[x].0 == ord && m@ == other@[x].1;
                            assert(wf_entry_seq(other@[x].1));
                        }
                    }
                    proof {
                        assert(wf_entry_seq(self@[i as int].1));
                        assert(self@[i as int].1 == self.entries@[i as int].map@);
                    }
                    if !self.entries[i].map.map_equal(m) {
                        proof {
                            lemma_fam_map_of_index(self@, i as int);
                            let x = choose|x: int|
                                0 <= x < other@.len() && other@[x].0 == ord && m@ == other@[x].1;
                            lemma_fam_map_of_index(other@, x);
                        }
                        return false;
                    }
                    proof {
                        lemma_fam_map_of_index(self@, i as int);
                        let x = choose|x: int|
                            0 <= x < other@.len() && other@[x].0 == ord && m@ == other@[x].1;
                        lemma_fam_map_of_index(other@, x);
                    }
                },
            }
        }
        let m2: usize = other.entries.len();
        for i in 0..m2
            invariant
                m2 == other@.len(),
                self.wf() && other.wf(),
                forall|j: int|
                    0 <= j < self@.len() ==> fam_has_ord(other@, (#[trigger] self@[j]).0)
                        && fam_get_or_empty(fam_map_of(other@), self@[j].0) == map_of_seq(
                        self@[j].1,
                    ),
                forall|j: int| 0 <= j < i ==> fam_has_ord(self@, (#[trigger] other@[j]).0),
        {
            let ord = other.entries[i].n;
            match self.find_ord(ord) {
                None => {
                    proof {
                        lemma_fam_map_of_index(other@, i as int);
                        lemma_fam_map_of_dom(self@);
                        assert(other.to_map().contains_key(other@[i as int].0));
                        assert(!self.to_map().contains_key(other@[i as int].0));
                    }
                    return false;
                },
                Some(_) => {
                },
            }
        }
        proof {
            lemma_fam_map_of_dom(self@);
            lemma_fam_map_of_dom(other@);
            assert forall|k: usize|
                #[trigger] self.to_map().contains_key(k) || other.to_map().contains_key(
                    k,
                ) implies self.to_map().contains_key(k) == other.to_map().contains_key(k)
                && fam_get_or_empty(self.to_map(), k) == fam_get_or_empty(other.to_map(), k) by {
                if self.to_map().contains_key(k) {
                    let j = choose|j: int| 0 <= j < self@.len() && self@[j].0 == k;
                    lemma_fam_map_of_index(self@, j);
                }
                if other.to_map().contains_key(k) {
                    let j = choose|j: int| 0 <= j < other@.len() && other@[j].0 == k;
                    lemma_fam_map_of_index(other@, j);
                    assert(fam_has_ord(self@, k));
                    let x = choose|x: int| 0 <= x < self@.len() && self@[x].0 == k;
                    lemma_fam_map_of_index(self@, x);
                }
            }
            assert(self.to_map() =~= other.to_map());
        }
        true
    }

    /// Merges one occurrence map into ordinate `n`, creating the
    /// ordinate (even for an empty map) when it is absent.
    pub fn merge_entry(&mut self, n: usize, other: &CountMap)
        requires
            old(self).wf(),
        ensures
            final(self)@ == fam_add_entry(old(self)@, n, other@),
            final(self).wf(),
    {
        proof {
            if wf_fam_seq(old(self)@) && wf_entry_seq(other@) {
                lemma_fam_add_map(old(self)@, n, other@);
            }
        }
        match self.find_ord(n) {
            Some(i) => {
                let m = &mut self.entries[i].map;
                proof {
                    assert(m@ == old(self)@[i as int].1);
                }
                m.merge_from(other);
                proof {
                    let updated = fam_add_entry(old(self)@, n, other@);
                    assert forall|j: int| 0 <= j < self@.len() implies self@[j] == updated[j] by {
                        if j != i {
                            assert(old(self)@[j].0 != n);
                        }
                    }
                    assert(self@ =~= updated);
                    assert forall|x: int, y: int|
                        0 <= x < y < self@.len() implies self@[x].0 != self@[y].0 by {
                        assert(self@[x].0 == old(self)@[x].0);
                        assert(self@[y].0 == old(self)@[y].0);
                    }
                    assert forall|x: int|
                        0 <= x < self@.len() implies wf_entry_seq(#[trigger] self@[x].1) by {
                        if x != i {
                            assert(self@[x].1 == old(self)@[x].1);
                        }
                    }
                }
            },
            None => {
                self.entries.push(NEntry { n, map: CountMap::new() });
                let last: usize = self.entries.len() - 1;
                let m = &mut self.entries[last].map;
                proof {
                    assert(m@ =~= Seq::<(Seq<char>, u64)>::empty());
                }
                m.merge_from(other);
                proof {
                    let updated = fam_add_entry(old(self)@, n, other@);
                    assert(self@.len() == updated.len());
                    assert forall|j: int| 0 <= j < self@.len() implies self@[j] == updated[j] by {
                        if j < self@.len() - 1 {
                            assert(self@[j] == old(self)@[j]);
                        }
                    }
                    assert(self@ =~= updated);
                    assert forall|x: int, y: int|
                        0 <= x < y < self@.len() implies self@[x].0 != self@[y].0 by {
                        if y < self@.len() - 1 {
                            assert(old(self)@[x].0 != old(self)@[y].0);
                        } else {
                            assert(self@[x].0 == old(self)@[x].0);
                            assert(!fam_has_ord(old(self)@, n));
                        }
                    }
                    assert forall|x: int|
                        0 <= x < self@.len() implies wf_entry_seq(#[trigger] self@[x].1) by {
                        if x < self@.len() - 1 {
                            assert(self@[x].1 == old(self)@[x].1);
                        }
                    }
                }
            },
        }
    }

    /// Merges another family into this one, ordinate by ordinate; new
    /// ordinates are appended in `other`'s order.
    pub fn merge_from(&mut self, other: &NOccurrences)
        requires
            old(self).wf(),
            other.wf(),
        ensures
            final(self)@ == fam_merge_seq(old(self)@, other@),
            final(self).wf(),
            final(self).to_map() == fam_merge_maps(old(self).to_map(), other.to_map()),
    {
        let len: usize = other.entries.len();
        for i in 0..len
            invariant
                len == other@.len(),
                other.wf(),
                self.wf(),
                self@ == other@.subrange(0, i as int).fold_left(
                    old(self)@,
                    |acc: FamSeq, p: (usize, EntrySeq)| fam_add_entry(acc, p.0, p.1),
                ),
        {
            let n = other.entries[i].n;
            self.merge_entry(n, &other.entries[i].map);
            proof {
                let f = |acc: FamSeq, p: (usize, EntrySeq)| fam_add_entry(acc, p.0, p.1);
                let pre = other@.subrange(0, i as int);
                let post = other@.subrange(0, i + 1);
                assert(post.drop_last() =~= pre);
                assert(post.last() == other@[i as int]);
                assert(self@ == f(pre.fold_left(old(self)@, f), other@[i as int]));
            }
        }
        proof {
            assert(other@.subrange(0, len as int) =~= other@);
            lemma_fam_merge_maps_of(old(self)@, other@);
        }
    }

    /// Sorts every member map descending by count. The denoted mapping
    /// is unchanged.
    #[verifier::loop_isolation(false)]
    pub fn sort_all(&mut self)
        requires
            old(self).wf(),
        ensures
            final(self).wf(),
            final(self).to_map() == old(self).to_map(),
            final(self)@.len() == old(self)@.len(),
            forall|i: int|
                0 <= i < final(self)@.len() ==> final(self)@[i].0 == old(self)@[i].0
                    && sorted_desc(#[trigger] final(self)@[i].1),
    {
        let ghost orig = self@;
        let len: usize = self.entries.len();
        for i in 0..len
            invariant
                len == self@.len(),
                self@.len() == orig.len(),
                forall|j: int|
                    0 <= j < self@.len() ==> (#[trigger] self@[j]).0 == orig[j].0 && wf_entry_seq(
                        self@[j].1,
                    ) && map_of_seq(self@[j].1) == map_of_seq(orig[j].1),
                forall|j: int| i <= j < self@.len() ==> (#[trigger] self@[j]).1 == orig[j].1,
                forall|j: int| 0 <= j < i ==> sorted_desc((#[trigger] self@[j]).1),
        {
            let ghost pre = self@;
            let m = &mut self.entries[i].map;
            proof {
                assert(m@ == pre[i as int].1);
                assert(wf_entry_seq(m@));
            }
            m.sort_desc();
            proof {
                let post = self@;
                assert(post.len() == pre.len());
                assert forall|j: int| 0 <= j < post.len() && j != i as int implies post[j]
                    == pre[j] by {
                    assert(post[j] == (self.entries@[j].n, self.entries@[j].map@));
                }
                assert(post[i as int].0 == pre[i as int].0);
                assert(wf_entry_seq(post[i as int].1));
                assert(map_of_seq(post[i as int].1) == map_of_seq(pre[i as int].1));
                assert(sorted_desc(post[i as int].1));
            }
        }
        proof {
            assert(wf_fam_seq(self@));
            lemma_fam_map_of_pointwise(old(self)@, self@);
        }
    }
}

/// Families with equal ordinates and equal per-member mappings denote
/// the same family mapping.
pub proof fn lemma_fam_map_of_pointwise(a: FamSeq, b: FamSeq)
    requires
        a.len() == b.len(),
        forall|i: int| 0 <= i < a.len() ==> a[i].0 == b[i].0,
        forall|i: int| 0 <= i < a.len() ==> map_of_seq(#[trigger] a[i].1) == map_of_seq(b[i].1),
    ensures
        fam_map_of(a) == fam_map_of(b),
    decreases a.len(),
{
    if a.len() == 0 {
        assert(fam_map_of(a) =~= fam_map_of(b));
    } else {
        assert(forall|i: int|
            0 <= i < a.drop_last().len() ==> a.drop_last()[i].0 == b.drop_last()[i].0);
        assert forall|i: int| 0 <= i < a.drop_last().len() implies map_of_seq(
            #[trigger] a.drop_last()[i].1,
        ) == map_of_seq(b.drop_last()[i].1) by {
            assert(a.drop_last()[i] == a[i]);
            assert(b.drop_last()[i] == b[i]);
        }
        lemma_fam_map_of_pointwise(a.drop_last(), b.drop_last());
        assert(a[a.len() - 1].0 == b[a.len() - 1].0);
        assert(map_of_seq(a[a.len() - 1].1) == map_of_seq(b[a.len() - 1].1));
    }
}

/// Merging well-formed families realises the ordinate-wise merge of
/// their mappings.
pub proof fn lemma_fam_merge_maps_of(a: FamSeq, b: FamSeq)
    requires
        wf_fam_seq(a),
        wf_fam_seq(b),
    ensures
        wf_fam_seq(fam_merge_seq(a, b)),
        fam_map_of(fam_merge_seq(a, b)) == fam_merge_maps(fam_map_of(a), fam_map_of(b)),
    decreases b.len(),
{
    let f = |acc: FamSeq, p: (usize, EntrySeq)| fam_add_entry(acc, p.0, p.1);
    let ma = fam_map_of(a);
    lemma_fam_map_of_dom(a);
    lemma_fam_map_of_dom(b);
    if b.len() == 0 {
        assert(fam_merge_seq(a, b) == a);
        assert(fam_map_of(b) == Map::<usize, Map<Seq<char>, u64>>::empty());
        assert(ma =~= fam_merge_maps(ma, fam_map_of(b))) by {
            assert forall|n: usize| #[trigger] ma.contains_key(n) implies merge_maps(
                fam_get_or_empty(ma, n),
                Map::empty(),
            ) == ma[n] by {
                assert(merge_maps(ma[n], Map::empty()) =~= ma[n]);
            }
        }
    } else {
        let b2 = b.drop_last();
        let e = b.last();
        assert(wf_fam_seq(b2)) by {
            assert(forall|x: int, y: int| 0 <= x < y < b2.len() ==> b[x].0 != b[y].0);
            assert(forall|x: int| 0 <= x < b2.len() ==> wf_entry_seq(#[trigger] b2[x].1));
        }
        lemma_fam_merge_maps_of(a, b2);
        let m1 = fam_merge_seq(a, b2);
        assert(fam_merge_seq(a, b) == f(m1, e));
        assert(wf_entry_seq(e.1)) by {
            assert(b[b.len() - 1] == e);
        }
        lemma_fam_add_map(m1, e.0, e.1);
        lemma_fam_map_of_dom(b2);
        let mb2 = fam_map_of(b2);
        let mb = fam_map_of(b);
        assert(mb == mb2.insert(e.0, map_of_seq(e.1)));
        assert(!fam_has_ord(b2, e.0)) by {
            if fam_has_ord(b2, e.0) {
                let i = choose|i: int| 0 <= i < b2.len() && b2[i].0 == e.0;
                assert(b[i].0 == b[b.len() - 1].0);
            }
        }
        assert(!mb2.contains_key(e.0));
        assert(fam_get_or_empty(fam_merge_maps(ma, mb2), e.0) == fam_get_or_empty(ma, e.0)) by {
            if ma.contains_key(e.0) {
                assert(fam_merge_maps(ma, mb2).contains_key(e.0));
                assert(fam_merge_maps(ma, mb2)[e.0] == merge_maps(ma[e.0], Map::empty()));
                assert(merge_maps(ma[e.0], Map::empty()) =~= ma[e.0]);
            } else {
                assert(!fam_merge_maps(ma, mb2).contains_key(e.0));
            }
        }
        assert(fam_map_of(fam_merge_seq(a, b)) == fam_merge_maps(ma, mb2).insert(
            e.0,
            merge_maps(fam_get_or_empty(ma, e.0), map_of_seq(e.1)),
        ));
        assert(fam_merge_maps(ma, mb2).insert(
            e.0,
            merge_maps(fam_get_or_empty(ma, e.0), map_of_seq(e.1)),
        ) =~= fam_merge_maps(ma, mb)) by {
            assert forall|n: usize|
                #[trigger] fam_merge_maps(ma, mb).contains_key(n) && n != e.0
                    implies fam_get_or_empty(mb, n) == fam_get_or_empty(mb2, n) by {}
        }
    }
}

/// The order-carrying view of a whole analysis.
#[verifier::ext_equal]
pub struct AnalysisView {
    pub ngrams: FamSeq,
    pub skipgrams: FamSeq,
    pub words: EntrySeq,
}

/// The order-free model of a whole analysis: what merge, transform and
/// aggregation contracts speak of.
#[verifier::ext_equal]
pub struct AnalysisModel {
    pub ngrams: FamMap,
    pub skipgrams: FamMap,
    pub words: Map<Seq<char>, u64>,
}

/// Family-wise, entry-wise saturating merge of two analysis models.
pub open spec fn merge_analysis_model(a: AnalysisModel, b: AnalysisModel) -> AnalysisModel {
    AnalysisModel {
        ngrams: fam_merge_maps(a.ngrams, b.ngrams),
        skipgrams: fam_merge_maps(a.skipgrams, b.skipgrams),
        words: merge_maps(a.words, b.words),
    }
}

/// One corpus's (or one report's) statistics: per-length n-gram maps
/// under `ngrams`, per-gap skip-gram maps under `skipgrams`, and one
/// whole-word map.
#[derive(Debug)]
pub struct OccurrenceAnalysis {
    pub ngrams: NOccurrences,
    pub skipgrams: NOccurrences,
    pub words: CountMap,
}

impl View for OccurrenceAnalysis {
    type V = AnalysisView;

    open spec fn view(&self) -> AnalysisView {
        AnalysisView { ngrams: self.ngrams@, skipgrams: self.skipgrams@, words: self.words@ }
    }
}

/// The model an analysis view denotes.
pub open spec fn model_of_view(v: AnalysisView) -> AnalysisModel {
    AnalysisModel {
        ngrams: fam_map_of(v.ngrams),
        skipgrams: fam_map_of(v.skipgrams),
        words: map_of_seq(v.words),
    }
}

impl OccurrenceAnalysis {
    /// Both families and the word map are well-formed.
    pub open spec fn wf(&self) -> bool {
        &&& wf_fam_seq(self@.ngrams)
        &&& wf_fam_seq(self@.skipgrams)
        &&& wf_entry_seq(self@.words)
    }

    /// The model this analysis denotes.
    pub open spec fn model(&self) -> AnalysisModel {
        model_of_view(self@)
    }

    /// A new analysis with no ordinates and no entries.
    pub fn new() -> (r: OccurrenceAnalysis)
        ensures
            r@.ngrams == Seq::<(usize, EntrySeq)>::empty(),
            r@.skipgrams == Seq::<(usize, EntrySeq)>::empty(),
            r@.words == Seq::<(Seq<char>, u64)>::empty(),
            r.wf(),
    {
        OccurrenceAnalysis {
            ngrams: NOccurrences::new(),
            skipgrams: NOccurrences::new(),
            words: CountMap::new(),
        }
    }

    /// Merges `other` into `self`: entry-wise saturating addition in
    /// every family, new ordinates and grams appended in `other`'s
    /// order. On the model this is `merge_analysis_model`, which is
    /// associative and commutative.
    pub fn merge_from(&mut self, other: &OccurrenceAnalysis)
        requires
            old(self).wf(),
            other.wf(),
        ensures
            final(self).wf(),
            final(self)@.ngrams == fam_merge_seq(old(self)@.ngrams, other@.ngrams),
            final(self)@.skipgrams == fam_merge_seq(old(self)@.skipgrams, other@.skipgrams),
            final(self)@.words == merge_entry_seq(old(self)@.words, other@.words),
            final(self).model() == merge_analysis_model(old(self).model(), other.model()),
    {
        self.ngrams.merge_from(&other.ngrams);
        self.skipgrams.merge_from(&other.skipgrams);
        self.words.merge_from(&other.words);
        proof {
            lemma_merge_entry_seq_maps(old(self)@.words, other@.words);
            assert(self.model() =~= merge_analysis_model(old(self).model(), other.model()));
        }
    }

    /// Sorts every occurrence map descending by count; the model is
    /// unchanged.
    pub fn sort(&mut self)
        requires
            old(self).wf(),
        ensures
            final(self).wf(),
            final(self).model() == old(self).model(),
            final(self)@.ngrams.len() == old(self)@.ngrams.len(),
            forall|i: int|
                0 <= i < final(self)@.ngrams.len() ==> (#[trigger] final(self)@.ngrams[i]).0
                    == old(self)@.ngrams[i].0,
            final(self)@.skipgrams.len() == old(self)@.skipgrams.len(),
            forall|i: int|
                0 <= i < final(self)@.skipgrams.len() ==> (#[trigger] final(self)@.skipgrams[i]).0
                    == old(self)@.skipgrams[i].0,
            forall|i: int|
                0 <= i < final(self)@.ngrams.len() ==> sorted_desc(
                    (#[trigger] final(self)@.ngrams[i]).1,
                ),
            forall|i: int|
                0 <= i < final(self)@.skipgrams.len() ==> sorted_desc(
                    (#[trigger] final(self)@.skipgrams[i]).1,
                ),
            sorted_desc(final(self)@.words),
    {
        self.ngrams.sort_all();
        self.skipgrams.sort_all();
        self.words.sort_desc();
        proof {
            assert forall|i: int| 0 <= i < self@.ngrams.len() implies (
            #[trigger] self@.ngrams[i]).0 == old(self)@.ngrams[i].0 && sorted_desc(
                self@.ngrams[i].1,
            ) by {
                assert(self.ngrams@[i].1 == self@.ngrams[i].1);
                assert(sorted_desc(self.ngrams@[i].1));
            }
            assert forall|i: int| 0 <= i < self@.skipgrams.len() implies (
            #[trigger] self@.skipgrams[i]).0 == old(self)@.skipgrams[i].0 && sorted_desc(
                self@.skipgrams[i].1,
            ) by {
                assert(self.skipgrams@[i].1 == self@.skipgrams[i].1);
                assert(sorted_desc(self.skipgrams@[i].1));
            }
            assert(self.model() =~= old(self).model());
        }
    }

    /// Whether two well-formed analyses denote the same model: the same
    /// counts for every ordinate and gram, whatever the entry order.
    pub fn counts_match(&self, other: &OccurrenceAnalysis) -> (r: bool)
        requires
            self.wf(),
            other.wf(),
        ensures
            r == (self.model() == other.model()),
    {
        let ng = self.ngrams.fam_equal(&other.ngrams);
        let sg = self.skipgrams.fam_equal(&other.skipgrams);
        let wd = self.words.map_equal(&other.words);
        let r = ng && sg && wd;
        proof {
            if r {
                assert(self.model() =~= other.model());
            }
        }
        r
    }

    /// A copy with the same entries in the same order.
    pub fn duplicate(&self) -> (r: OccurrenceAnalysis)
        ensures
            r@ == self@,
    {
        let mut ngrams = NOccurrences::new();
        let n1: usize = self.ngrams.len();
        for i in 0..n1
            invariant
                n1 == self.ngrams@.len(),
                ngrams@.len() == i,
                forall|j: int| 0 <= j < i ==> ngrams@[j] == self.ngrams@[j],
        {
            ngrams.push_entry(self.ngrams.ordinate_at(i), self.ngrams.map_at(i).duplicate());
        }
        let mut skipgrams = NOccurrences::new();
        let n2: usize = self.skipgrams.len();
        for i in 0..n2
            invariant
                n2 == self.skipgrams@.len(),
                skipgrams@.len() == i,
                forall|j: int| 0 <= j < i ==> skipgrams@[j] == self.skipgrams@[j],
        {
            skipgrams.push_entry(
                self.skipgrams.ordinate_at(i),
                self.skipgrams.map_at(i).duplicate(),
            );
        }
        let words = self.words.duplicate();
        let r = OccurrenceAnalysis { ngrams, skipgrams, words };
        proof {
            assert(r@.ngrams =~= self@.ngrams);
            assert(r@.skipgrams =~= self@.skipgrams);
            assert(r@ =~= self@);
        }
        r
    }
}

impl NOccurrences {
    /// Appends one member at the end, whatever its ordinate.
    pub(crate) fn push_entry(&mut self, n: usize, map: CountMap)
        ensures
            final(self)@ == old(self)@.push((n, map@)),
    {
        self.entries.push(NEntry { n, map });
        proof {
            assert(self@ =~= old(self)@.push((n, map@)));
        }
    }

    /// Inserts one member at the front, whatever its ordinate.
    pub(crate) fn insert_entry_front(&mut self, n: usize, map: CountMap)
        ensures
            final(self)@ == seq![(n, map@)] + old(self)@,
    {
        self.entries.insert(0, NEntry { n, map });
        proof {
            assert(self@ =~= seq![(n, map@)] + old(self)@);
        }
    }
}

impl Clone for OccurrenceAnalysis {
    fn clone(&self) -> (r: OccurrenceAnalysis)
        ensures
            r@ == self@,
    {
        self.duplicate()
    }
}

/// Merge of analyses is commutative on the model: `A + B == B + A`,
/// entry-wise, for every pair of models.
pub proof fn lemma_analysis_merge_commutative(a: AnalysisModel, b: AnalysisModel)
    ensures
        merge_analysis_model(a, b) == merge_analysis_model(b, a),
{
    lemma_fam_merge_maps_commutative(a.ngrams, b.ngrams);
    lemma_fam_merge_maps_commutative(a.skipgrams, b.skipgrams);
    lemma_merge_maps_commutative(a.words, b.words);
    assert(merge_analysis_model(a, b) =~= merge_analysis_model(b, a));
}

/// Merge of analyses is associative on the model:
/// `(A + B) + C == A + (B + C)`, entry-wise, for every three models.
pub proof fn lemma_analysis_merge_associative(a: AnalysisModel, b: AnalysisModel, c: AnalysisModel)
    ensures
        merge_analysis_model(merge_analysis_model(a, b), c) == merge_analysis_model(
            a,
            merge_analysis_model(b, c),
        ),
{
    lemma_fam_merge_maps_associative(a.ngrams, b.ngrams, c.ngrams);
    lemma_fam_merge_maps_associative(a.skipgrams, b.skipgrams, c.skipgrams);
    lemma_merge_maps_associative(a.words, b.words, c.words);
    assert(merge_analysis_model(merge_analysis_model(a, b), c) =~= merge_analysis_model(
        a,
        merge_analysis_model(b, c),
    ));
}

/// Ordinate-wise merge of family mappings is commutative.
pub proof fn lemma_fam_merge_maps_commutative(a: FamMap, b: FamMap)
    ensures
        fam_merge_maps(a, b) == fam_merge_maps(b, a),
{
    assert(fam_merge_maps(a, b) =~= fam_merge_maps(b, a)) by {
        assert forall|n: usize|
            #[trigger] fam_merge_maps(a, b).contains_key(n) implies fam_merge_maps(a, b)[n]
            == fam_merge_maps(b, a)[n] by {
            lemma_merge_maps_commutative(fam_get_or_empty(a, n), fam_get_or_empty(b, n));
        }
    }
}

/// Ordinate-wise merge of family mappings is associative.
pub proof fn lemma_fam_merge_maps_associative(a: FamMap, b: FamMap, c: FamMap)
    ensures
        fam_merge_maps(fam_merge_maps(a, b), c) == fam_merge_maps(a, fam_merge_maps(b, c)),
{
    assert(fam_merge_maps(fam_merge_maps(a, b), c) =~= fam_merge_maps(
        a,
        fam_merge_maps(b, c),
    )) by {
        assert forall|n: usize|
            #[trigger] fam_merge_maps(fam_merge_maps(a, b), c).contains_key(n) || fam_merge_maps(
                a,
                fam_merge_maps(b, c),
            ).contains_key(n) implies fam_merge_maps(fam_merge_maps(a, b), c).contains_key(n)
            == fam_merge_maps(a, fam_merge_maps(b, c)).contains_key(n) && fam_get_or_empty(
            fam_merge_maps(fam_merge_maps(a, b), c),
            n,
        ) == fam_get_or_empty(fam_merge_maps(a, fam_merge_maps(b, c)), n) by {
            lemma_merge_maps_associative(
                fam_get_or_empty(a, n),
                fam_get_or_empty(b, n),
                fam_get_or_empty(c, n),
            );
            assert(merge_maps(fam_get_or_empty(a, n), Map::empty()) =~= fam_get_or_empty(a, n));
            assert(merge_maps(Map::empty(), fam_get_or_empty(c, n)) =~= fam_get_or_empty(c, n));
        }
    }
}

} // verus!
