//! Character-class stripping rules applied to an analysis before
//! aggregation: n-gram and skip-gram entries whose content would change
//! are dropped, word entries are rewritten to their filtered key with
//! counts merged into the survivor. Each rule is idempotent.

use vstd::prelude::*;

use crate::analysis::{AnalysisView, EntrySeq, FamSeq, NOccurrences, OccurrenceAnalysis};
use crate::countable::Countable;
use crate::occurrence::{add_entry_seq, seq_has_key, wf_entry_seq, CountMap};

verus! {

/// Whether a character has the Unicode `White_Space` property.
/// The name stands for what `char::is_whitespace` returns.
pub uninterp spec fn is_unicode_whitespace(c: char) -> bool;

/// Whether a character is numeric under Unicode `Number` classes.
/// The name stands for what `char::is_numeric` returns.
pub uninterp spec fn is_unicode_numeric(c: char) -> bool;

/// Relies on `char::is_whitespace` of std: true exactly on characters
/// with the Unicode `White_Space` property, a function of the character
/// alone.
pub assume_specification[ char::is_whitespace ](c: char) -> (r: bool)
    ensures
        r == is_unicode_whitespace(c),
;

/// Relies on `char::is_numeric` of std: true exactly on characters in
/// the Unicode `Nd`, `Nl` and `No` general categories, a function of the
/// character alone.
pub assume_specification[ char::is_numeric ](c: char) -> (r: bool)
    ensures
        r == is_unicode_numeric(c),
;

/// ASCII punctuation: the four printable ASCII ranges that are neither
/// letters, digits nor space.
pub open spec fn is_ascii_punct(c: char) -> bool {
    ||| (0x21 <= c as u32 && c as u32 <= 0x2f)
    ||| (0x3a <= c as u32 && c as u32 <= 0x40)
    ||| (0x5b <= c as u32 && c as u32 <= 0x60)
    ||| (0x7b <= c as u32 && c as u32 <= 0x7e)
}

/// ASCII letters and digits.
pub open spec fn is_ascii_alnum(c: char) -> bool {
    ||| ('0' <= c && c <= '9')
    ||| ('A' <= c && c <= 'Z')
    ||| ('a' <= c && c <= 'z')
}

/// Exec check for ASCII punctuation.
pub fn is_ascii_punct_char(c: char) -> (r: bool)
    ensures
        r == is_ascii_punct(c),
{
    let u = c as u32;
    (0x21 <= u && u <= 0x2f) || (0x3a <= u && u <= 0x40) || (0x5b <= u && u <= 0x60) || (0x7b <= u
        && u <= 0x7e)
}

/// Exec check for ASCII letters and digits.
pub fn is_ascii_alnum_char(c: char) -> (r: bool)
    ensures
        r == is_ascii_alnum(c),
{
    ('0' <= c && c <= '9') || ('A' <= c && c <= 'Z') || ('a' <= c && c <= 'z')
}

/// The four character-class stripping rules.
#[derive(Clone, Copy)]
pub enum CharClass {
    /// Strip Unicode whitespace.
    Whitespace,
    /// Strip ASCII punctuation.
    Punctuation,
    /// Strip Unicode numeric characters.
    Numeric,
    /// Keep only ASCII letters and digits.
    NonLatin,
}

/// Whether a character survives the filter of `class`.
pub open spec fn keep_char(class: CharClass, c: char) -> bool {
    match class {
        CharClass::Whitespace => !is_unicode_whitespace(c),
        CharClass::Punctuation => !is_ascii_punct(c),
        CharClass::Numeric => !is_unicode_numeric(c),
        CharClass::NonLatin => is_ascii_alnum(c),
    }
}

/// Exec counterpart of `keep_char`.
pub fn keep_char_exec(class: &CharClass, c: char) -> (r: bool)
    ensures
        r == keep_char(*class, c),
{
    match class {
        CharClass::Whitespace => !c.is_whitespace(),
        CharClass::Punctuation => !is_ascii_punct_char(c),
        CharClass::Numeric => !c.is_numeric(),
        CharClass::NonLatin => is_ascii_alnum_char(c),
    }
}

/// The gram after dropping every character that `class` removes.
pub open spec fn filter_gram(class: CharClass, g: Seq<char>) -> Seq<char>
    decreases g.len(),
{
    if g.len() == 0 {
        Seq::empty()
    } else {
        let rest = filter_gram(class, g.drop_last());
        if keep_char(class, g.last()) {
            rest.push(g.last())
        } else {
            rest
        }
    }
}

/// Every character of a filtered gram survives the filter.
pub proof fn lemma_filter_gram_all_kept(class: CharClass, g: Seq<char>)
    ensures
        forall|i: int|
            0 <= i < filter_gram(class, g).len() ==> keep_char(class, filter_gram(class, g)[i]),
    decreases g.len(),
{
    if g.len() == 0 {
    } else {
        lemma_filter_gram_all_kept(class, g.drop_last());
        let rest = filter_gram(class, g.drop_last());
        if keep_char(class, g.last()) {
            assert(filter_gram(class, g) == rest.push(g.last()));
            assert forall|i: int| 0 <= i < filter_gram(class, g).len() implies keep_char(
                class,
                filter_gram(class, g)[i],
            ) by {
                if i < rest.len() {
                    assert(filter_gram(class, g)[i] == rest[i]);
                }
            }
        } else {
            assert(filter_gram(class, g) == rest);
        }
    }
}

/// Filtering a gram whose characters all survive leaves it unchanged.
pub proof fn lemma_filter_gram_identity(class: CharClass, g: Seq<char>)
    requires
        forall|i: int| 0 <= i < g.len() ==> keep_char(class, g[i]),
    ensures
        filter_gram(class, g) == g,
    decreases g.len(),
{
    if g.len() == 0 {
        assert(filter_gram(class, g) =~= g);
    } else {
        assert(forall|i: int| 0 <= i < g.drop_last().len() ==> keep_char(class, g.drop_last()[i]));
        lemma_filter_gram_identity(class, g.drop_last());
        assert(keep_char(class, g.last()));
        assert(filter_gram(class, g) =~= g);
    }
}

/// Filtering is idempotent on grams.
pub proof fn lemma_filter_gram_idempotent(class: CharClass, g: Seq<char>)
    ensures
        filter_gram(class, filter_gram(class, g)) == filter_gram(class, g),
{
    lemma_filter_gram_all_kept(class, g);
    lemma_filter_gram_identity(class, filter_gram(class, g));
}

/// Exec filtering of a gram.
pub fn filter_countable(class: &CharClass, g: &Countable) -> (r: Countable)
    ensures
        r@ == filter_gram(*class, g@),
{
    let n: usize = g.len();
    let mut chars: Vec<char> = Vec::new();
    for i in 0..n
        invariant
            n == g@.len(),
            chars@ == filter_gram(*class, g@.subrange(0, i as int)),
    {
        let c = g.char_at(i);
        if keep_char_exec(class, c) {
            chars.push(c);
        }
        proof {
            let pre = g@.subrange(0, i as int);
            let post = g@.subrange(0, i + 1);
            assert(post.drop_last() =~= pre);
            assert(post.last() == g@[i as int]);
        }
    }
    proof {
        assert(g@.subrange(0, n as int) =~= g@);
    }
    Countable::from_chars(chars)
}

/// One step of a strip pass: a clean entry is re-added under its own
/// key; a changed one is dropped, or re-added under its filtered key
/// when `replace` holds.
pub open spec fn strip_step(
    acc: EntrySeq,
    e: (Seq<char>, u64),
    replace: bool,
    class: CharClass,
) -> EntrySeq {
    let f = filter_gram(class, e.0);
    if f == e.0 {
        add_entry_seq(acc, e.0, e.1)
    } else if replace {
        add_entry_seq(acc, f, e.1)
    } else {
        acc
    }
}

/// The entry sequence after one strip pass over `s`.
pub open spec fn strip_seq(s: EntrySeq, replace: bool, class: CharClass) -> EntrySeq {
    s.fold_left(
        Seq::empty(),
        |acc: EntrySeq, e: (Seq<char>, u64)| strip_step(acc, e, replace, class),
    )
}

/// A strip pass yields a well-formed sequence whose keys all survive
/// their own filter.
pub proof fn lemma_strip_seq_clean(s: EntrySeq, replace: bool, class: CharClass)
    ensures
        wf_entry_seq(strip_seq(s, replace, class)),
        forall|i: int|
            0 <= i < strip_seq(s, replace, class).len() ==> filter_gram(
                class,
                #[trigger] strip_seq(s, replace, class)[i].0,
            ) == strip_seq(s, replace, class)[i].0,
    decreases s.len(),
{
    if s.len() == 0 {
    } else {
        let f = |acc: EntrySeq, e: (Seq<char>, u64)| strip_step(acc, e, replace, class);
        lemma_strip_seq_clean(s.drop_last(), replace, class);
        let acc = strip_seq(s.drop_last(), replace, class);
        let e = s.last();
        assert(strip_seq(s, replace, class) == strip_step(acc, e, replace, class));
        let fg = filter_gram(class, e.0);
        if fg == e.0 || replace {
            let k: Seq<char> = if fg == e.0 {
                e.0
            } else {
                fg
            };
            assert(filter_gram(class, k) == k) by {
                lemma_filter_gram_idempotent(class, e.0);
            }
            let a = add_entry_seq(acc, k, e.1);
            if seq_has_key(acc, k) {
                assert forall|i: int| 0 <= i < a.len() implies filter_gram(class, #[trigger] a[i].0)
                    == a[i].0 && a[i].0 == acc[i].0 by {
                    assert(a[i] == (if acc[i].0 == k {
                        (acc[i].0, crate::sat_add64(acc[i].1, e.1))
                    } else {
                        acc[i]
                    }));
                }
                assert(wf_entry_seq(a));
            } else {
                assert(a == acc.push((k, e.1)));
                assert forall|x: int, y: int| 0 <= x < y < a.len() implies a[x].0 != a[y].0 by {
                    if y < a.len() - 1 {
                        assert(acc[x].0 != acc[y].0);
                    } else {
                        assert(a[x].0 == acc[x].0);
                    }
                }
                assert forall|i: int| 0 <= i < a.len() implies filter_gram(
                    class,
                    #[trigger] a[i].0,
                ) == a[i].0 by {
                    if i < a.len() - 1 {
                        assert(a[i].0 == acc[i].0);
                    }
                }
            }
        }
    }
}

/// A strip pass over a well-formed sequence whose keys already all
/// survive their filter is the identity.
pub proof fn lemma_strip_seq_identity(t: EntrySeq, replace: bool, class: CharClass)
    requires
        wf_entry_seq(t),
        forall|i: int|
            0 <= i < t.len() ==> filter_gram(class, #[trigger] t[i].0) == t[i].0,
    ensures
        strip_seq(t, replace, class) == t,
    decreases t.len(),
{
    if t.len() == 0 {
        assert(strip_seq(t, replace, class) =~= t);
    } else {
        let t2 = t.drop_last();
        let e = t.last();
        assert(wf_entry_seq(t2)) by {
            assert(forall|x: int, y: int| 0 <= x < y < t2.len() ==> t[x].0 != t[y].0);
        }
        assert forall|i: int| 0 <= i < t2.len() implies filter_gram(class, #[trigger] t2[i].0)
            == t2[i].0 by {
            assert(t2[i] == t[i]);
        }
        lemma_strip_seq_identity(t2, replace, class);
        assert(filter_gram(class, e.0) == e.0);
        assert(strip_seq(t, replace, class) == add_entry_seq(t2, e.0, e.1));
        assert(!seq_has_key(t2, e.0)) by {
            if seq_has_key(t2, e.0) {
                let i = choose|i: int| 0 <= i < t2.len() && t2[i].0 == e.0;
                assert(t[i].0 == t[t.len() - 1].0);
            }
        }
        assert(add_entry_seq(t2, e.0, e.1) =~= t);
    }
}

/// The exact (unbounded) sum of the counts of an entry sequence.
pub open spec fn sum_exact(s: EntrySeq) -> int
    decreases s.len(),
{
    if s.len() == 0 {
        0
    } else {
        sum_exact(s.drop_last()) + s.last().1
    }
}

/// Every count is at most the sum of all counts.
proof fn lemma_entry_le_sum(s: EntrySeq, i: int)
    requires
        0 <= i < s.len(),
    ensures
        s[i].1 <= sum_exact(s),
    decreases s.len(),
{
    if i == s.len() - 1 {
        lemma_sum_nonneg(s.drop_last());
    } else {
        lemma_entry_le_sum(s.drop_last(), i);
        assert(s.drop_last()[i] == s[i]);
    }
}

/// The sum of counts is non-negative.
proof fn lemma_sum_nonneg(s: EntrySeq)
    ensures
        sum_exact(s) >= 0,
    decreases s.len(),
{
    if s.len() > 0 {
        lemma_sum_nonneg(s.drop_last());
    }
}

/// Adding `v` occurrences of some key raises the total by `v`, as long
/// as no count saturates.
proof fn lemma_add_entry_sum(s: EntrySeq, k: Seq<char>, v: u64)
    requires
        wf_entry_seq(s),
        forall|i: int| 0 <= i < s.len() && (#[trigger] s[i]).0 == k ==> s[i].1 + v <= u64::MAX,
    ensures
        sum_exact(add_entry_seq(s, k, v)) == sum_exact(s) + v,
    decreases s.len(),
{
    let a = add_entry_seq(s, k, v);
    if !seq_has_key(s, k) {
        assert(a == s.push((k, v)));
        assert(a.drop_last() =~= s);
    } else {
        let s2 = s.drop_last();
        let e = s.last();
        assert(wf_entry_seq(s2)) by {
            assert(forall|x: int, y: int| 0 <= x < y < s2.len() ==> s[x].0 != s[y].0);
        }
        if e.0 == k {
            assert(!seq_has_key(s2, k)) by {
                if seq_has_key(s2, k) {
                    let i = choose|i: int| 0 <= i < s2.len() && s2[i].0 == k;
                    assert(s[i].0 == s[s.len() - 1].0);
                }
            }
            assert(a.drop_last() =~= s2) by {
                assert forall|i: int| 0 <= i < s2.len() implies a.drop_last()[i] == s2[i] by {
                    assert(s[i].0 != k);
                }
            }
            assert(s[s.len() - 1].0 == k);
            assert(e.1 + v <= u64::MAX);
            assert(a.last() == (k, crate::sat_add64(e.1, v)));
            assert(a.last().1 == e.1 + v);
        } else {
            assert(seq_has_key(s2, k)) by {
                let i = choose|i: int| 0 <= i < s.len() && s[i].0 == k;
                assert(i < s.len() - 1);
                assert(s2[i].0 == k);
            }
            assert forall|i: int|
                0 <= i < s2.len() && (#[trigger] s2[i]).0 == k implies s2[i].1 + v
                <= u64::MAX by {
                assert(s[i] == s2[i]);
            }
            lemma_add_entry_sum(s2, k, v);
            assert(a.drop_last() =~= add_entry_seq(s2, k, v)) by {
                assert forall|i: int| 0 <= i < s2.len() implies a.drop_last()[i] == add_entry_seq(
                    s2,
                    k,
                    v,
                )[i] by {
                    assert(a[i] == (if s[i].0 == k {
                        (s[i].0, crate::sat_add64(s[i].1, v))
                    } else {
                        s[i]
                    }));
                }
            }
            assert(a.last() == e);
        }
    }
}

/// The replacing strip pass over the word map preserves the total
/// count mass exactly (a word stripped of punctuation is still the same
/// word), as long as the total fits a count. The drop-only pass over
/// n-gram and skip-gram maps deliberately does not.
pub proof fn lemma_word_strip_preserves_mass(s: EntrySeq, class: CharClass)
    requires
        wf_entry_seq(s),
        sum_exact(s) <= u64::MAX,
    ensures
        sum_exact(strip_seq(s, true, class)) == sum_exact(s),
    decreases s.len(),
{
    if s.len() == 0 {
    } else {
        let s2 = s.drop_last();
        let e = s.last();
        assert(wf_entry_seq(s2)) by {
            assert(forall|x: int, y: int| 0 <= x < y < s2.len() ==> s[x].0 != s[y].0);
        }
        assert(sum_exact(s2) <= u64::MAX);
        lemma_word_strip_preserves_mass(s2, class);
        lemma_strip_seq_clean(s2, true, class);
        let acc = strip_seq(s2, true, class);
        assert(strip_seq(s, true, class) == strip_step(acc, e, true, class));
        let f = filter_gram(class, e.0);
        let k: Seq<char> = if f == e.0 {
            e.0
        } else {
            f
        };
        assert(strip_step(acc, e, true, class) == add_entry_seq(acc, k, e.1));
        assert forall|i: int|
            0 <= i < acc.len() && (#[trigger] acc[i]).0 == k implies acc[i].1 + e.1
            <= u64::MAX by {
            lemma_entry_le_sum(acc, i);
        }
        lemma_add_entry_sum(acc, k, e.1);
    }
}

/// Stripping the same class twice yields the same sequence as stripping
/// it once, for either strip mode.
pub proof fn lemma_strip_seq_idempotent(s: EntrySeq, replace: bool, class: CharClass)
    ensures
        strip_seq(strip_seq(s, replace, class), replace, class) == strip_seq(s, replace, class),
{
    lemma_strip_seq_clean(s, replace, class);
    lemma_strip_seq_identity(strip_seq(s, replace, class), replace, class);
}

impl CountMap {
    /// One strip pass: entries whose gram the filter of `class` would
    /// change are removed; with `replace` their counts are merged into
    /// the entry of the filtered gram instead.
    #[verifier::loop_isolation(false)]
    pub fn strip(&mut self, replace: bool, class: &CharClass)
        requires
            old(self).wf(),
        ensures
            final(self)@ == strip_seq(old(self)@, replace, *class),
            final(self).wf(),
    {
        let n: usize = self.len();
        let mut out = CountMap::new();
        for i in 0..n
            invariant
                n == self@.len(),
                self@ == old(self)@,
                out.wf(),
                out@ == strip_seq(self@.subrange(0, i as int), replace, *class),
        {
            let g = self.gram_at(i).duplicate();
            let v = self.count_at(i);
            let f = filter_countable(class, &g);
            let clean = f.eq_gram(&g);
            if clean {
                out.add_count(g, v);
            } else if replace {
                out.add_count(f, v);
            }
            proof {
                let sf = |acc: EntrySeq, e: (Seq<char>, u64)| strip_step(acc, e, replace, *class);
                let pre = self@.subrange(0, i as int);
                let post = self@.subrange(0, i + 1);
                assert(post.drop_last() =~= pre);
                assert(post.last() == self@[i as int]);
                assert(post.fold_left(Seq::<(Seq<char>, u64)>::empty(), sf) == sf(
                    pre.fold_left(Seq::empty(), sf),
                    self@[i as int],
                ));
            }
        }
        proof {
            assert(self@.subrange(0, n as int) =~= self@);
        }
        *self = out;
    }
}

/// A family after a strip-only pass over every member.
pub open spec fn fam_strip(s: FamSeq, class: CharClass) -> FamSeq {
    s.map(|i: int, p: (usize, EntrySeq)| (p.0, strip_seq(p.1, false, class)))
}

impl NOccurrences {
    /// Strips every member map (drop-only, no replacement).
    #[verifier::loop_isolation(false)]
    pub fn strip_all(&mut self, class: &CharClass)
        requires
            old(self).wf(),
        ensures
            final(self)@ == fam_strip(old(self)@, *class),
            final(self).wf(),
    {
        let len: usize = self.len();
        let mut out = NOccurrences::new();
        for i in 0..len
            invariant
                len == self@.len(),
                self@ == old(self)@,
                out@.len() == i,
                forall|j: int|
                    0 <= j < i ==> #[trigger] out@[j] == (
                        self@[j].0,
                        strip_seq(self@[j].1, false, *class),
                    ),
        {
            let mut m = self.map_at(i).duplicate();
            proof {
                assert(wf_entry_seq(m@));
            }
            m.strip(false, class);
            out.push_entry(self.ordinate_at(i), m);
        }
        proof {
            assert(out@ =~= fam_strip(old(self)@, *class));
            assert forall|x: int, y: int| 0 <= x < y < out@.len() implies out@[x].0
                != out@[y].0 by {
                assert(old(self)@[x].0 != old(self)@[y].0);
            }
            assert forall|x: int| 0 <= x < out@.len() implies wf_entry_seq(
                (#[trigger] out@[x]).1,
            ) by {
                lemma_strip_seq_clean(old(self)@[x].1, false, *class);
            }
        }
        *self = out;
    }
}

/// One character-class pass over a whole analysis: n-gram and skip-gram
/// entries are strip-only, word entries are stripped and replaced.
pub open spec fn analysis_strip_view(v: AnalysisView, class: CharClass) -> AnalysisView {
    AnalysisView {
        ngrams: fam_strip(v.ngrams, class),
        skipgrams: fam_strip(v.skipgrams, class),
        words: strip_seq(v.words, true, class),
    }
}

/// Which character classes a transform strips: four independent flags.
#[derive(Clone, Copy, Debug)]
pub struct TransformSpecification {
    pub strip_whitespace: bool,
    pub strip_punctuation: bool,
    pub strip_numbers: bool,
    pub strip_nonlatin: bool,
}

/// The analysis view after applying the flags of `sp` in order:
/// whitespace, punctuation, numbers, non-Latin.
pub open spec fn transform_view(v: AnalysisView, sp: TransformSpecification) -> AnalysisView {
    let v1 = if sp.strip_whitespace {
        analysis_strip_view(v, CharClass::Whitespace)
    } else {
        v
    };
    let v2 = if sp.strip_punctuation {
        analysis_strip_view(v1, CharClass::Punctuation)
    } else {
        v1
    };
    let v3 = if sp.strip_numbers {
        analysis_strip_view(v2, CharClass::Numeric)
    } else {
        v2
    };
    if sp.strip_nonlatin {
        analysis_strip_view(v3, CharClass::NonLatin)
    } else {
        v3
    }
}

impl OccurrenceAnalysis {
    /// One character-class pass: n-gram and skip-gram entries whose
    /// content would change are dropped entirely; word entries are
    /// rewritten to the filtered key, merging counts into the survivor.
    pub fn strip(&mut self, class: &CharClass)
        requires
            old(self).wf(),
        ensures
            final(self)@ == analysis_strip_view(old(self)@, *class),
            final(self).wf(),
    {
        self.ngrams.strip_all(class);
        self.skipgrams.strip_all(class);
        self.words.strip(true, class);
        proof {
            assert(self@ =~= analysis_strip_view(old(self)@, *class));
            lemma_strip_seq_clean(old(self)@.words, true, *class);
        }
    }

    /// Applies every set flag of the transform, in the fixed order
    /// whitespace, punctuation, numbers, non-Latin.
    pub fn transform(&mut self, spec: &TransformSpecification)
        requires
            old(self).wf(),
        ensures
            final(self)@ == transform_view(old(self)@, *spec),
            final(self).wf(),
    {
        if spec.strip_whitespace {
            self.strip(&CharClass::Whitespace);
        }
        if spec.strip_punctuation {
            self.strip(&CharClass::Punctuation);
        }
        if spec.strip_numbers {
            self.strip(&CharClass::Numeric);
        }
        if spec.strip_nonlatin {
            self.strip(&CharClass::NonLatin);
        }
    }
}

/// Applying the same strip flag twice yields the same analysis as
/// applying it once.
pub proof fn lemma_analysis_strip_idempotent(v: AnalysisView, class: CharClass)
    ensures
        analysis_strip_view(analysis_strip_view(v, class), class) == analysis_strip_view(v, class),
{
    let v1 = analysis_strip_view(v, class);
    let v2 = analysis_strip_view(v1, class);
    assert forall|i: int| 0 <= i < v1.ngrams.len() implies #[trigger] v2.ngrams[i]
        == v1.ngrams[i] by {
        lemma_strip_seq_idempotent(v.ngrams[i].1, false, class);
    }
    assert forall|i: int| 0 <= i < v1.skipgrams.len() implies #[trigger] v2.skipgrams[i]
        == v1.skipgrams[i] by {
        lemma_strip_seq_idempotent(v.skipgrams[i].1, false, class);
    }
    lemma_strip_seq_idempotent(v.words, true, class);
    assert(v2.ngrams =~= v1.ngrams);
    assert(v2.skipgrams =~= v1.skipgrams);
    assert(v2 =~= v1);
}

/// Whether `x` contains whitespace, and `x` with whitespace removed.
pub fn check_whitespace(x: &Countable) -> (r: (bool, Countable))
    ensures
        r.1@ == filter_gram(CharClass::Whitespace, x@),
        r.0 == (r.1@ != x@),
{
    let f = filter_countable(&CharClass::Whitespace, x);
    let changed = !f.eq_gram(x);
    (changed, f)
}

/// Whether `x` contains ASCII punctuation, and `x` with it removed.
pub fn check_punctuation(x: &Countable) -> (r: (bool, Countable))
    ensures
        r.1@ == filter_gram(CharClass::Punctuation, x@),
        r.0 == (r.1@ != x@),
{
    let f = filter_countable(&CharClass::Punctuation, x);
    let changed = !f.eq_gram(x);
    (changed, f)
}

/// Whether `x` contains numeric characters, and `x` with them removed.
pub fn check_numeric(x: &Countable) -> (r: (bool, Countable))
    ensures
        r.1@ == filter_gram(CharClass::Numeric, x@),
        r.0 == (r.1@ != x@),
{
    let f = filter_countable(&CharClass::Numeric, x);
    let changed = !f.eq_gram(x);
    (changed, f)
}

/// Whether `x` contains anything but ASCII letters and digits, and `x`
/// reduced to those.
pub fn check_nonlatin(x: &Countable) -> (r: (bool, Countable))
    ensures
        r.1@ == filter_gram(CharClass::NonLatin, x@),
        r.0 == (r.1@ != x@),
{
    let f = filter_countable(&CharClass::NonLatin, x);
    let changed = !f.eq_gram(x);
    (changed, f)
}

} // verus!
