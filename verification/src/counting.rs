//! The parallel counter: scans a corpus of sentences and produces one
//! occurrence analysis covering the requested gram lengths and skip
//! distances. Sentences are decomposed into grapheme clusters; each full
//! window of length `n` contributes one n-gram, and each full window of
//! length `k + 2` contributes one skip-gram made of its first and last
//! grapheme. Chunking and worker count cannot change the result.

use vstd::prelude::*;

use rayon::iter::{IntoParallelRefIterator, ParallelIterator};
use unicode_segmentation::UnicodeSegmentation;

use crate::analysis::{
    fam_add_entry, fam_get_or_empty, fam_has_ord, fam_map_of, fam_merge_maps, fam_merge_seq,
    lemma_analysis_merge_associative, lemma_fam_map_of_dom, lemma_fam_map_of_index,
    lemma_fam_merge_maps_of, merge_analysis_model, model_of_view, wf_fam_seq, AnalysisModel,
    AnalysisView, EntrySeq, FamSeq, NOccurrences, OccurrenceAnalysis,
};
use crate::countable::Countable;
use crate::occurrence::{
    add_entry_seq, lemma_add_entry_map, lemma_merge_entry_seq_maps, map_of_seq, merge_entry_seq,
    merge_maps, sorted_desc, wf_entry_seq, CountMap,
};

verus! {

/// The grapheme-cluster decomposition of a character sequence, as the
/// `graphemes` iterator of the unicode-segmentation crate yields it
/// (extended grapheme clusters of UAX #29): a function of the text
/// alone.
pub uninterp spec fn grapheme_clusters_of(s: Seq<char>) -> Seq<Seq<char>>;

/// Relies on `UnicodeSegmentation::graphemes` of the
/// unicode-segmentation crate: yields the extended grapheme clusters of
/// the string, in order; an empty string yields none.
#[verifier::external_body]
fn split_graphemes(s: &str) -> (r: Vec<Countable>)
    ensures
        r@.map_values(|c: Countable| c@) == grapheme_clusters_of(s@),
        s@.len() == 0 ==> r@.len() == 0,
{
    let mut out: Vec<Countable> = Vec::new();
    for g in s.graphemes(true) {
        out.push(Countable::from_str_ref(g));
    }
    out
}

/// The concatenation of a sequence of grapheme clusters.
pub open spec fn joined(gs: Seq<Seq<char>>) -> Seq<char>
    decreases gs.len(),
{
    if gs.len() == 0 {
        Seq::empty()
    } else {
        joined(gs.drop_last()) + gs.last()
    }
}

/// How many full windows of size `n` fit over `gs`.
pub open spec fn window_count(gs: Seq<Seq<char>>, n: int) -> int {
    if gs.len() >= n {
        gs.len() - n + 1
    } else {
        0
    }
}

/// The n-gram of the window starting at `i`: its graphemes joined.
pub open spec fn ngram_at(gs: Seq<Seq<char>>, i: int, n: int) -> Seq<char> {
    joined(gs.subrange(i, i + n))
}

/// The gram sequence that sliding a window of size `n` over `gs` yields.
pub open spec fn ngram_window_grams(gs: Seq<Seq<char>>, n: int) -> Seq<Seq<char>> {
    Seq::new(window_count(gs, n) as nat, |i: int| ngram_at(gs, i, n))
}

/// The skip-gram of the window of size `k + 2` starting at `i`: first
/// and last grapheme joined, the `k` between them discarded.
pub open spec fn skipgram_at(gs: Seq<Seq<char>>, i: int, k: int) -> Seq<char> {
    gs[i] + gs[i + k + 1]
}

/// The gram sequence that skip distance `k` yields over `gs`.
pub open spec fn skip_window_grams(gs: Seq<Seq<char>>, k: int) -> Seq<Seq<char>> {
    Seq::new(window_count(gs, k + 2) as nat, |i: int| skipgram_at(gs, i, k))
}

/// Counting a gram sequence: every gram adds one occurrence, in order.
pub open spec fn gram_fold(grams: Seq<Seq<char>>) -> EntrySeq {
    grams.fold_left(Seq::empty(), |acc: EntrySeq, g: Seq<char>| add_entry_seq(acc, g, 1))
}

/// Counting a gram sequence yields a well-formed entry sequence.
pub proof fn lemma_gram_fold_wf(grams: Seq<Seq<char>>)
    ensures
        wf_entry_seq(gram_fold(grams)),
    decreases grams.len(),
{
    if grams.len() == 0 {
    } else {
        lemma_gram_fold_wf(grams.drop_last());
        lemma_add_entry_map(gram_fold(grams.drop_last()), grams.last(), 1);
    }
}

/// In a counted gram sequence, each gram's count is exactly how often
/// it occurs among the grams.
pub proof fn lemma_gram_fold_count(grams: Seq<Seq<char>>, g: Seq<char>)
    requires
        grams.len() < 0xFFFF_FFFF_FFFF_FFFF,
    ensures
        crate::occurrence::get_or_zero(map_of_seq(gram_fold(grams)), g) == grams.to_multiset().count(
            g,
        ),
    decreases grams.len(),
{
    broadcast use vstd::seq_lib::group_to_multiset_ensures;
    broadcast use vstd::multiset::axiom_count_le_len;

    if grams.len() == 0 {
        assert(!grams.contains(g));
        assert(grams.to_multiset().count(g) == 0);
        assert(map_of_seq(gram_fold(grams)) == Map::<Seq<char>, u64>::empty());
        crate::occurrence::lemma_map_of_seq_dom(gram_fold(grams));
    } else {
        let pre = grams.drop_last();
        let last = grams.last();
        lemma_gram_fold_count(pre, g);
        lemma_gram_fold_count(pre, last);
        lemma_gram_fold_wf(pre);
        lemma_add_entry_map(gram_fold(pre), last, 1);
        assert(grams =~= pre.push(last));
        assert(grams.to_multiset() == pre.to_multiset().insert(last));
        let old_map = map_of_seq(gram_fold(pre));
        let old_count = crate::occurrence::get_or_zero(old_map, last);
        assert(old_count == pre.to_multiset().count(last));
        assert(pre.to_multiset().count(last) <= pre.to_multiset().len());
        assert(pre.to_multiset().len() == pre.len());
        assert(crate::sat_add64(old_count, 1) == old_count + 1);
        assert(map_of_seq(gram_fold(grams)) == old_map.insert(last, (old_count + 1) as u64));
        if g == last {
            assert(grams.to_multiset().count(g) == pre.to_multiset().count(g) + 1);
        } else {
            assert(grams.to_multiset().count(g) == pre.to_multiset().count(g));
        }
    }
}

/// The count that the counter records for gram `g` at length `n` is
/// exactly the number of windows of `gs` that read `g`.
pub proof fn lemma_ngram_count_meaning(gs: Seq<Seq<char>>, n: int, g: Seq<char>)
    requires
        n >= 1,
        gs.len() < 0xFFFF_FFFF_FFFF_FFFF,
    ensures
        crate::occurrence::get_or_zero(map_of_seq(ngram_entries(gs, n)), g) == ngram_window_grams(
            gs,
            n,
        ).to_multiset().count(g),
{
    lemma_gram_fold_count(ngram_window_grams(gs, n), g);
}

/// The count that the counter records for a skip-gram `g` at distance
/// `k` is exactly the number of windows of `gs` that read `g`.
pub proof fn lemma_skipgram_count_meaning(gs: Seq<Seq<char>>, k: int, g: Seq<char>)
    requires
        k >= 1,
        gs.len() < 0xFFFF_FFFF_FFFF_FFFF,
    ensures
        crate::occurrence::get_or_zero(map_of_seq(skip_entries(gs, k)), g) == skip_window_grams(
            gs,
            k,
        ).to_multiset().count(g),
{
    lemma_gram_fold_count(skip_window_grams(gs, k), g);
}

/// The n-gram occurrence entries of one sentence for gram length `n`.
pub open spec fn ngram_entries(gs: Seq<Seq<char>>, n: int) -> EntrySeq {
    gram_fold(ngram_window_grams(gs, n))
}

/// The skip-gram occurrence entries of one sentence for skip distance
/// `k`.
pub open spec fn skip_entries(gs: Seq<Seq<char>>, k: int) -> EntrySeq {
    gram_fold(skip_window_grams(gs, k))
}

/// The analysis view of one sentence: one member per requested gram
/// length and skip distance, words left empty (word statistics come
/// from the caller's tokenization, not from sentence windows).
pub open spec fn sentence_view(s: Seq<char>, ns: Seq<usize>, ks: Seq<usize>) -> AnalysisView {
    let gs = grapheme_clusters_of(s);
    AnalysisView {
        ngrams: Seq::new(ns.len(), |i: int| (ns[i], ngram_entries(gs, ns[i] as int))),
        skipgrams: Seq::new(ks.len(), |i: int| (ks[i], skip_entries(gs, ks[i] as int))),
        words: Seq::empty(),
    }
}

/// The analysis view with every requested ordinate present and empty.
pub open spec fn empty_corpus_view(ns: Seq<usize>, ks: Seq<usize>) -> AnalysisView {
    AnalysisView {
        ngrams: Seq::new(ns.len(), |i: int| (ns[i], Seq::empty())),
        skipgrams: Seq::new(ks.len(), |i: int| (ks[i], Seq::empty())),
        words: Seq::empty(),
    }
}

/// Sequence-level merge of two analysis views.
pub open spec fn merge_view(a: AnalysisView, b: AnalysisView) -> AnalysisView {
    AnalysisView {
        ngrams: fam_merge_seq(a.ngrams, b.ngrams),
        skipgrams: fam_merge_seq(a.skipgrams, b.skipgrams),
        words: merge_entry_seq(a.words, b.words),
    }
}

/// The analysis view of a whole corpus: the per-sentence views merged
/// left to right onto the empty view. Every requested ordinate is
/// present even for an empty corpus.
pub open spec fn corpus_view(sentences: Seq<Seq<char>>, ns: Seq<usize>, ks: Seq<usize>)
    -> AnalysisView {
    sentences.fold_left(
        empty_corpus_view(ns, ks),
        |acc: AnalysisView, s: Seq<char>| merge_view(acc, sentence_view(s, ns, ks)),
    )
}

/// The order-free model of a whole corpus count.
pub open spec fn corpus_model(sentences: Seq<Seq<char>>, ns: Seq<usize>, ks: Seq<usize>)
    -> AnalysisModel {
    model_of_view(corpus_view(sentences, ns, ks))
}

/// The ordinate lists the counter accepts: positive, pairwise distinct,
/// and (for skip distances) small enough for the window `k + 2` to fit
/// in a machine word.
pub open spec fn valid_ordinates(ns: Seq<usize>, ks: Seq<usize>) -> bool {
    &&& forall|i: int| 0 <= i < ns.len() ==> #[trigger] ns[i] >= 1
    &&& forall|i: int| 0 <= i < ks.len() ==> #[trigger] ks[i] >= 1 && ks[i] <= usize::MAX - 2
    &&& ns.no_duplicates()
    &&& ks.no_duplicates()
}

/// Joins graphemes `start .. start + n` of `gs` into one gram.
fn join_window(gs: &Vec<Countable>, start: usize, n: usize) -> (r: Countable)
    requires
        start + n <= gs@.len(),
    ensures
        r@ == ngram_at(gs@.map_values(|c: Countable| c@), start as int, n as int),
{
    let ghost gv = gs@.map_values(|c: Countable| c@);
    let glen: usize = gs.len();
    let mut r = Countable::empty();
    for j in 0..n
        invariant
            start + n <= gs@.len(),
            gs@.len() == glen,
            gv == gs@.map_values(|c: Countable| c@),
            r@ == joined(gv.subrange(start as int, start + j)),
    {
        r.append(&gs[start + j]);
        proof {
            let pre = gv.subrange(start as int, start + j);
            let post = gv.subrange(start as int, start + j + 1);
            assert(post.drop_last() =~= pre);
            assert(post.last() == gv[start + j]);
        }
    }
    r
}

/// Counts every full window of size `n` over the grapheme sequence.
/// Sentences shorter than `n` contribute nothing.
fn count_ngram_entries(gs: &Vec<Countable>, n: usize) -> (r: CountMap)
    requires
        n >= 1,
    ensures
        r@ == ngram_entries(gs@.map_values(|c: Countable| c@), n as int),
        r.wf(),
{
    let ghost gv = gs@.map_values(|c: Countable| c@);
    let ghost grams = ngram_window_grams(gv, n as int);
    let mut m = CountMap::new();
    proof {
        assert(grams.subrange(0, 0) =~= Seq::<Seq<char>>::empty());
    }
    if gs.len() >= n {
        let w: usize = gs.len() - n + 1;
        proof {
            assert(grams.len() == w);
        }
        for i in 0..w
            invariant
                w == window_count(gv, n as int),
                gv == gs@.map_values(|c: Countable| c@),
                grams == ngram_window_grams(gv, n as int),
                n >= 1 && gs@.len() >= n && w == gs@.len() - n + 1,
                m.wf(),
                m@ == gram_fold(grams.subrange(0, i as int)),
        {
            let g = join_window(gs, i, n);
            m.add_count(g, 1);
            proof {
                let f = |acc: EntrySeq, gg: Seq<char>| add_entry_seq(acc, gg, 1);
                let pre = grams.subrange(0, i as int);
                let post = grams.subrange(0, i + 1);
                assert(post.drop_last() =~= pre);
                assert(post.last() == grams[i as int]);
                assert(grams[i as int] == ngram_at(gv, i as int, n as int));
            }
        }
        proof {
            assert(grams.subrange(0, w as int) =~= grams);
        }
    } else {
        proof {
            assert(grams.len() == 0);
            assert(grams =~= Seq::<Seq<char>>::empty());
        }
    }
    m
}

/// Counts every full window of size `k + 2` over the grapheme sequence,
/// keeping only each window's first and last grapheme.
fn count_skip_entries(gs: &Vec<Countable>, k: usize) -> (r: CountMap)
    requires
        k >= 1,
        k <= usize::MAX - 2,
    ensures
        r@ == skip_entries(gs@.map_values(|c: Countable| c@), k as int),
        r.wf(),
{
    let ghost gv = gs@.map_values(|c: Countable| c@);
    let ghost grams = skip_window_grams(gv, k as int);
    let mut m = CountMap::new();
    proof {
        assert(grams.subrange(0, 0) =~= Seq::<Seq<char>>::empty());
    }
    let win: usize = k + 2;
    if gs.len() >= win {
        let w: usize = gs.len() - win + 1;
        proof {
            assert(grams.len() == w);
        }
        for i in 0..w
            invariant
                win == k + 2,
                w == window_count(gv, k + 2),
                gv == gs@.map_values(|c: Countable| c@),
                grams == skip_window_grams(gv, k as int),
                gs@.len() >= k + 2 && w == gs@.len() - (k + 2) + 1,
                gs@.len() <= usize::MAX,
                m.wf(),
                m@ == gram_fold(grams.subrange(0, i as int)),
        {
            let mut g = gs[i].duplicate();
            g.append(&gs[i + k + 1]);
            m.add_count(g, 1);
            proof {
                let pre = grams.subrange(0, i as int);
                let post = grams.subrange(0, i + 1);
                assert(post.drop_last() =~= pre);
                assert(post.last() == grams[i as int]);
                assert(grams[i as int] == skipgram_at(gv, i as int, k as int));
            }
        }
        proof {
            assert(grams.subrange(0, w as int) =~= grams);
        }
    } else {
        proof {
            assert(grams.len() == 0);
            assert(grams =~= Seq::<Seq<char>>::empty());
        }
    }
    m
}

/// Counts one sentence: one member per requested ordinate, words empty.
pub fn count_sentence(s: &String, ns: &Vec<usize>, ks: &Vec<usize>) -> (r: OccurrenceAnalysis)
    requires
        valid_ordinates(ns@, ks@),
    ensures
        r@ == sentence_view(s@, ns@, ks@),
        r.wf(),
{
    let gs = split_graphemes(s.as_str());
    let ghost gv = grapheme_clusters_of(s@);
    let mut ngrams = NOccurrences::new();
    let nn: usize = ns.len();
    for idx in 0..nn
        invariant
            nn == ns@.len(),
            valid_ordinates(ns@, ks@),
            gv == grapheme_clusters_of(s@),
            gs@.map_values(|c: Countable| c@) == gv,
            ngrams@.len() == idx,
            forall|j: int|
                0 <= j < idx ==> #[trigger] ngrams@[j] == (
                    ns@[j],
                    ngram_entries(gv, ns@[j] as int),
                ),
    {
        let m = count_ngram_entries(&gs, ns[idx]);
        ngrams.push_entry(ns[idx], m);
    }
    let mut skipgrams = NOccurrences::new();
    let kn: usize = ks.len();
    for idx in 0..kn
        invariant
            kn == ks@.len(),
            valid_ordinates(ns@, ks@),
            gv == grapheme_clusters_of(s@),
            gs@.map_values(|c: Countable| c@) == gv,
            skipgrams@.len() == idx,
            forall|j: int|
                0 <= j < idx ==> #[trigger] skipgrams@[j] == (
                    ks@[j],
                    skip_entries(gv, ks@[j] as int),
                ),
    {
        let m = count_skip_entries(&gs, ks[idx]);
        skipgrams.push_entry(ks[idx], m);
    }
    let r = OccurrenceAnalysis { ngrams, skipgrams, words: CountMap::new() };
    proof {
        assert(r@.ngrams =~= sentence_view(s@, ns@, ks@).ngrams);
        assert(r@.skipgrams =~= sentence_view(s@, ns@, ks@).skipgrams);
        assert(r@ =~= sentence_view(s@, ns@, ks@));
        assert forall|i: int| 0 <= i < r@.ngrams.len() implies wf_entry_seq(
            (#[trigger] r@.ngrams[i]).1,
        ) by {
            lemma_gram_fold_wf(ngram_window_grams(gv, ns@[i] as int));
        }
        assert forall|i: int| 0 <= i < r@.skipgrams.len() implies wf_entry_seq(
            (#[trigger] r@.skipgrams[i]).1,
        ) by {
            lemma_gram_fold_wf(skip_window_grams(gv, ks@[i] as int));
        }
    }
    r
}

/// The empty analysis with every requested ordinate present.
pub fn empty_corpus_analysis(ns: &Vec<usize>, ks: &Vec<usize>) -> (r: OccurrenceAnalysis)
    requires
        valid_ordinates(ns@, ks@),
    ensures
        r@ == empty_corpus_view(ns@, ks@),
        r.wf(),
{
    let mut ngrams = NOccurrences::new();
    let nn: usize = ns.len();
    for idx in 0..nn
        invariant
            nn == ns@.len(),
            valid_ordinates(ns@, ks@),
            ngrams@.len() == idx,
            forall|j: int|
                0 <= j < idx ==> #[trigger] ngrams@[j] == (ns@[j], Seq::<(Seq<char>, u64)>::empty()),
    {
        ngrams.push_entry(ns[idx], CountMap::new());
    }
    let mut skipgrams = NOccurrences::new();
    let kn: usize = ks.len();
    for idx in 0..kn
        invariant
            kn == ks@.len(),
            valid_ordinates(ns@, ks@),
            skipgrams@.len() == idx,
            forall|j: int|
                0 <= j < idx ==> #[trigger] skipgrams@[j] == (
                    ks@[j],
                    Seq::<(Seq<char>, u64)>::empty(),
                ),
    {
        skipgrams.push_entry(ks[idx], CountMap::new());
    }
    let r = OccurrenceAnalysis { ngrams, skipgrams, words: CountMap::new() };
    proof {
        assert(r@.ngrams =~= empty_corpus_view(ns@, ks@).ngrams);
        assert(r@.skipgrams =~= empty_corpus_view(ns@, ks@).skipgrams);
        assert(r@ =~= empty_corpus_view(ns@, ks@));
    }
    r
}

/// Counts a whole corpus sequentially, sentence by sentence.
pub fn count_corpus(sentences: &Vec<String>, ns: &Vec<usize>, ks: &Vec<usize>) -> (r:
    OccurrenceAnalysis)
    requires
        valid_ordinates(ns@, ks@),
    ensures
        r@ == corpus_view(sentences@.map_values(|s: String| s@), ns@, ks@),
        r.wf(),
{
    let ghost sv = sentences@.map_values(|s: String| s@);
    let mut acc = empty_corpus_analysis(ns, ks);
    let n: usize = sentences.len();
    for i in 0..n
        invariant
            n == sentences@.len(),
            valid_ordinates(ns@, ks@),
            sv == sentences@.map_values(|s: String| s@),
            acc.wf(),
            acc@ == corpus_view(sv.subrange(0, i as int), ns@, ks@),
    {
        let one = count_sentence(&sentences[i], ns, ks);
        acc.merge_from(&one);
        proof {
            let f = |a: AnalysisView, s: Seq<char>| merge_view(a, sentence_view(s, ns@, ks@));
            let pre = sv.subrange(0, i as int);
            let post = sv.subrange(0, i + 1);
            assert(post.drop_last() =~= pre);
            assert(post.last() == sv[i as int]);
            assert(acc@ == f(pre.fold_left(empty_corpus_view(ns@, ks@), f), sv[i as int]));
        }
    }
    proof {
        assert(sv.subrange(0, n as int) =~= sv);
    }
    acc
}

/// Merges two analyses, consuming both: the reduction operation of the
/// parallel count.
pub fn merge_owned(mut a: OccurrenceAnalysis, b: OccurrenceAnalysis) -> (r: OccurrenceAnalysis)
    requires
        a.wf(),
        b.wf(),
    ensures
        r@ == merge_view(a@, b@),
        r.wf(),
{
    a.merge_from(&b);
    a
}

/// Relies on the parallel iterator of the rayon crate: `map` applies
/// the verified per-sentence counter, and `reduce` combines the partial
/// analyses with the verified merge. Rayon's `reduce` combines in an
/// unspecified tree order but preserves the sequence order of operands,
/// so with merge being associative on the model
/// (`lemma_analysis_merge_associative`) and the empty analysis neutral,
/// the resulting model equals the sequential left fold; worker count
/// and chunking cannot change it. The ordinates stay exactly the
/// requested ones, in order, and words stay empty, because every
/// operand has that same shape.
#[verifier::external_body]
fn count_corpus_rayon(sentences: &Vec<String>, ns: &Vec<usize>, ks: &Vec<usize>) -> (r:
    OccurrenceAnalysis)
    requires
        valid_ordinates(ns@, ks@),
    ensures
        r.wf(),
        model_of_view(r@) == corpus_model(sentences@.map_values(|s: String| s@), ns@, ks@),
        r@.ngrams.len() == ns@.len(),
        forall|i: int| 0 <= i < ns@.len() ==> (#[trigger] r@.ngrams[i]).0 == ns@[i],
        r@.skipgrams.len() == ks@.len(),
        forall|i: int| 0 <= i < ks@.len() ==> (#[trigger] r@.skipgrams[i]).0 == ks@[i],
        r@.words == Seq::<(Seq<char>, u64)>::empty(),
{
    sentences
        .par_iter()
        .map(|s| count_sentence(s, ns, ks))
        .reduce(|| empty_corpus_analysis(ns, ks), |a, b| merge_owned(a, b))
}

/// Well-formedness of an analysis view.
pub open spec fn wf_view(v: AnalysisView) -> bool {
    &&& wf_fam_seq(v.ngrams)
    &&& wf_fam_seq(v.skipgrams)
    &&& wf_entry_seq(v.words)
}

/// Merging views realises the merge of their models.
pub proof fn lemma_merge_view_model(a: AnalysisView, b: AnalysisView)
    requires
        wf_view(a),
        wf_view(b),
    ensures
        wf_view(merge_view(a, b)),
        model_of_view(merge_view(a, b)) == merge_analysis_model(model_of_view(a), model_of_view(b)),
{
    lemma_fam_merge_maps_of(a.ngrams, b.ngrams);
    lemma_fam_merge_maps_of(a.skipgrams, b.skipgrams);
    lemma_merge_entry_seq_maps(a.words, b.words);
    assert(model_of_view(merge_view(a, b)) =~= merge_analysis_model(
        model_of_view(a),
        model_of_view(b),
    ));
}

/// The view of a single sentence is well-formed.
pub proof fn lemma_sentence_view_wf(s: Seq<char>, ns: Seq<usize>, ks: Seq<usize>)
    requires
        valid_ordinates(ns, ks),
    ensures
        wf_view(sentence_view(s, ns, ks)),
{
    let v = sentence_view(s, ns, ks);
    let gs = grapheme_clusters_of(s);
    assert forall|i: int| 0 <= i < v.ngrams.len() implies wf_entry_seq(
        (#[trigger] v.ngrams[i]).1,
    ) by {
        lemma_gram_fold_wf(ngram_window_grams(gs, ns[i] as int));
    }
    assert forall|i: int| 0 <= i < v.skipgrams.len() implies wf_entry_seq(
        (#[trigger] v.skipgrams[i]).1,
    ) by {
        lemma_gram_fold_wf(skip_window_grams(gs, ks[i] as int));
    }
}

/// Merging a family whose every ordinate is already present keeps the
/// ordinate skeleton unchanged.
proof fn lemma_fam_merge_ords(a: FamSeq, b: FamSeq)
    requires
        forall|j: int| 0 <= j < b.len() ==> fam_has_ord(a, (#[trigger] b[j]).0),
    ensures
        fam_merge_seq(a, b).len() == a.len(),
        forall|i: int| 0 <= i < a.len() ==> (#[trigger] fam_merge_seq(a, b)[i]).0 == a[i].0,
    decreases b.len(),
{
    let f = |acc: FamSeq, p: (usize, EntrySeq)| fam_add_entry(acc, p.0, p.1);
    if b.len() == 0 {
    } else {
        let b2 = b.drop_last();
        let e = b.last();
        assert forall|j: int| 0 <= j < b2.len() implies fam_has_ord(a, (#[trigger] b2[j]).0) by {
            assert(b2[j] == b[j]);
        }
        lemma_fam_merge_ords(a, b2);
        let m1 = fam_merge_seq(a, b2);
        assert(fam_merge_seq(a, b) == f(m1, e));
        assert(fam_has_ord(a, e.0)) by {
            assert(b[b.len() - 1] == e);
        }
        assert(fam_has_ord(m1, e.0)) by {
            let i = choose|i: int| 0 <= i < a.len() && a[i].0 == e.0;
            assert(m1[i].0 == e.0);
        }
    }
}

/// A counted corpus always carries exactly the requested ordinates, in
/// request order, and an empty word map.
pub proof fn lemma_corpus_view_shape(ss: Seq<Seq<char>>, ns: Seq<usize>, ks: Seq<usize>)
    requires
        valid_ordinates(ns, ks),
    ensures
        wf_view(corpus_view(ss, ns, ks)),
        corpus_view(ss, ns, ks).ngrams.len() == ns.len(),
        forall|i: int|
            0 <= i < ns.len() ==> (#[trigger] corpus_view(ss, ns, ks).ngrams[i]).0 == ns[i],
        corpus_view(ss, ns, ks).skipgrams.len() == ks.len(),
        forall|i: int|
            0 <= i < ks.len() ==> (#[trigger] corpus_view(ss, ns, ks).skipgrams[i]).0 == ks[i],
        corpus_view(ss, ns, ks).words == Seq::<(Seq<char>, u64)>::empty(),
    decreases ss.len(),
{
    let f = |acc: AnalysisView, s: Seq<char>| merge_view(acc, sentence_view(s, ns, ks));
    if ss.len() == 0 {
    } else {
        let ss2 = ss.drop_last();
        let s = ss.last();
        lemma_corpus_view_shape(ss2, ns, ks);
        let acc = corpus_view(ss2, ns, ks);
        assert(corpus_view(ss, ns, ks) == f(acc, s));
        let sv = sentence_view(s, ns, ks);
        lemma_sentence_view_wf(s, ns, ks);
        lemma_merge_view_model(acc, sv);
        assert forall|j: int| 0 <= j < sv.ngrams.len() implies fam_has_ord(
            acc.ngrams,
            (#[trigger] sv.ngrams[j]).0,
        ) by {
            assert(acc.ngrams[j].0 == ns[j]);
        }
        lemma_fam_merge_ords(acc.ngrams, sv.ngrams);
        assert forall|j: int| 0 <= j < sv.skipgrams.len() implies fam_has_ord(
            acc.skipgrams,
            (#[trigger] sv.skipgrams[j]).0,
        ) by {
            assert(acc.skipgrams[j].0 == ks[j]);
        }
        lemma_fam_merge_ords(acc.skipgrams, sv.skipgrams);
        assert(merge_entry_seq(acc.words, Seq::empty()) == acc.words) by {
            assert(Seq::<(Seq<char>, u64)>::empty().fold_left(
                acc.words,
                |a: EntrySeq, e: (Seq<char>, u64)| add_entry_seq(a, e.0, e.1),
            ) == acc.words);
        }
    }
}

/// Splitting a sentence list into two chunks, counting each chunk and
/// merging the results yields exactly the counts of the whole list:
/// parallel counting is deterministic whatever the chunking and worker
/// count.
pub proof fn lemma_corpus_chunks(c1: Seq<Seq<char>>, c2: Seq<Seq<char>>, ns: Seq<usize>, ks: Seq<
    usize,
>)
    requires
        valid_ordinates(ns, ks),
    ensures
        corpus_model(c1 + c2, ns, ks) == merge_analysis_model(
            corpus_model(c1, ns, ks),
            corpus_model(c2, ns, ks),
        ),
    decreases c2.len(),
{
    let f = |acc: AnalysisView, s: Seq<char>| merge_view(acc, sentence_view(s, ns, ks));
    lemma_corpus_view_shape(c1, ns, ks);
    if c2.len() == 0 {
        assert(c1 + c2 =~= c1);
        let m1 = corpus_model(c1, ns, ks);
        let e = empty_corpus_view(ns, ks);
        assert(corpus_view(c2, ns, ks) == e);
        assert(wf_fam_seq(e.ngrams) && wf_fam_seq(e.skipgrams));
        lemma_fam_map_of_dom(e.ngrams);
        lemma_fam_map_of_dom(e.skipgrams);
        lemma_fam_map_of_dom(corpus_view(c1, ns, ks).ngrams);
        lemma_fam_map_of_dom(corpus_view(c1, ns, ks).skipgrams);
        assert(merge_analysis_model(m1, model_of_view(e)) =~= m1) by {
            let v1 = corpus_view(c1, ns, ks);
            assert forall|n: usize|
                #[trigger] m1.ngrams.contains_key(n) || model_of_view(e).ngrams.contains_key(
                    n,
                ) implies m1.ngrams.contains_key(n) == model_of_view(e).ngrams.contains_key(n)
                && merge_maps(
                fam_get_or_empty(m1.ngrams, n),
                fam_get_or_empty(model_of_view(e).ngrams, n),
            ) == fam_get_or_empty(m1.ngrams, n) by {
                if m1.ngrams.contains_key(n) {
                    let i = choose|i: int| 0 <= i < v1.ngrams.len() && v1.ngrams[i].0 == n;
                    assert(e.ngrams[i].0 == n);
                    lemma_fam_map_of_index(e.ngrams, i);
                } else if model_of_view(e).ngrams.contains_key(n) {
                    let i = choose|i: int| 0 <= i < e.ngrams.len() && e.ngrams[i].0 == n;
                    assert(v1.ngrams[i].0 == n);
                }
                if m1.ngrams.contains_key(n) {
                    lemma_fam_map_of_index(e.ngrams, choose|i: int|
                        0 <= i < e.ngrams.len() && e.ngrams[i].0 == n);
                    assert(fam_get_or_empty(model_of_view(e).ngrams, n) == Map::<
                        Seq<char>,
                        u64,
                    >::empty());
                    assert(merge_maps(fam_get_or_empty(m1.ngrams, n), Map::empty())
                        =~= fam_get_or_empty(m1.ngrams, n));
                }
            }
            assert forall|n: usize|
                #[trigger] m1.skipgrams.contains_key(n) || model_of_view(e).skipgrams.contains_key(
                    n,
                ) implies m1.skipgrams.contains_key(n) == model_of_view(e).skipgrams.contains_key(
                n,
            ) && merge_maps(
                fam_get_or_empty(m1.skipgrams, n),
                fam_get_or_empty(model_of_view(e).skipgrams, n),
            ) == fam_get_or_empty(m1.skipgrams, n) by {
                let v1s = v1.skipgrams;
                if m1.skipgrams.contains_key(n) {
                    let i = choose|i: int| 0 <= i < v1s.len() && v1s[i].0 == n;
                    assert(e.skipgrams[i].0 == n);
                    lemma_fam_map_of_index(e.skipgrams, i);
                    assert(fam_get_or_empty(model_of_view(e).skipgrams, n) == Map::<
                        Seq<char>,
                        u64,
                    >::empty());
                    assert(merge_maps(fam_get_or_empty(m1.skipgrams, n), Map::empty())
                        =~= fam_get_or_empty(m1.skipgrams, n));
                } else if model_of_view(e).skipgrams.contains_key(n) {
                    let i = choose|i: int| 0 <= i < e.skipgrams.len() && e.skipgrams[i].0 == n;
                    assert(v1s[i].0 == n);
                }
            }
            assert(merge_maps(m1.words, map_of_seq(Seq::<(Seq<char>, u64)>::empty()))
                =~= m1.words);
            assert(fam_merge_maps(m1.ngrams, model_of_view(e).ngrams) =~= m1.ngrams);
            assert(fam_merge_maps(m1.skipgrams, model_of_view(e).skipgrams) =~= m1.skipgrams);
        }
    } else {
        let c2p = c2.drop_last();
        let s = c2.last();
        lemma_corpus_chunks(c1, c2p, ns, ks);
        lemma_corpus_view_shape(c2p, ns, ks);
        lemma_corpus_view_shape(c1 + c2p, ns, ks);
        lemma_sentence_view_wf(s, ns, ks);
        assert(c1 + c2 =~= (c1 + c2p).push(s));
        assert(((c1 + c2p).push(s)).drop_last() =~= c1 + c2p);
        assert(corpus_view(c1 + c2, ns, ks) == f(corpus_view(c1 + c2p, ns, ks), s));
        assert(corpus_view(c2, ns, ks) == f(corpus_view(c2p, ns, ks), s)) by {
            assert(c2.drop_last() == c2p);
        }
        lemma_merge_view_model(corpus_view(c1 + c2p, ns, ks), sentence_view(s, ns, ks));
        lemma_merge_view_model(corpus_view(c2p, ns, ks), sentence_view(s, ns, ks));
        lemma_analysis_merge_associative(
            corpus_model(c1, ns, ks),
            corpus_model(c2p, ns, ks),
            model_of_view(sentence_view(s, ns, ks)),
        );
    }
}

/// Splitting a sentence list into any number of chunks, counting each
/// chunk and merging the chunk counts in order yields exactly the
/// counts of the whole list: the model is invariant under chunking, so
/// worker count and scheduling cannot change it.
pub proof fn lemma_corpus_chunking(chunks: Seq<Seq<Seq<char>>>, ns: Seq<usize>, ks: Seq<usize>)
    requires
        valid_ordinates(ns, ks),
    ensures
        corpus_model(chunks.flatten(), ns, ks) == chunks.map_values(
            |c: Seq<Seq<char>>| corpus_model(c, ns, ks),
        ).fold_left(
            corpus_model(Seq::empty(), ns, ks),
            |a: AnalysisModel, m: AnalysisModel| merge_analysis_model(a, m),
        ),
    decreases chunks.len(),
{
    let f = |a: AnalysisModel, m: AnalysisModel| merge_analysis_model(a, m);
    let models = chunks.map_values(|c: Seq<Seq<char>>| corpus_model(c, ns, ks));
    if chunks.len() == 0 {
        assert(chunks.flatten() =~= Seq::<Seq<char>>::empty());
        assert(models.len() == 0);
    } else {
        let pre = chunks.drop_last();
        let last = chunks.last();
        lemma_corpus_chunking(pre, ns, ks);
        chunks.lemma_flatten_and_flatten_alt_are_equivalent();
        pre.lemma_flatten_and_flatten_alt_are_equivalent();
        assert(chunks.flatten_alt() == pre.flatten_alt() + last);
        assert(chunks.flatten() == pre.flatten() + last);
        lemma_corpus_chunks(pre.flatten(), last, ns, ks);
        let pre_models = pre.map_values(|c: Seq<Seq<char>>| corpus_model(c, ns, ks));
        assert(models.drop_last() =~= pre_models);
        assert(models.last() == corpus_model(last, ns, ks));
        assert(models.fold_left(corpus_model(Seq::empty(), ns, ks), f) == f(
            pre_models.fold_left(corpus_model(Seq::empty(), ns, ks), f),
            corpus_model(last, ns, ks),
        ));
    }
}

/// Counts whole tokens: each token contributes one occurrence of
/// itself. Word tokenization is the caller's concern.
pub fn count_words(tokens: &Vec<String>) -> (r: CountMap)
    ensures
        r@ == gram_fold(tokens@.map_values(|t: String| t@)),
        r.wf(),
{
    let ghost tv = tokens@.map_values(|t: String| t@);
    let mut m = CountMap::new();
    let n: usize = tokens.len();
    for i in 0..n
        invariant
            n == tokens@.len(),
            tv == tokens@.map_values(|t: String| t@),
            m.wf(),
            m@ == gram_fold(tv.subrange(0, i as int)),
    {
        let g = Countable::from_string(&tokens[i]);
        m.add_count(g, 1);
        proof {
            let pre = tv.subrange(0, i as int);
            let post = tv.subrange(0, i + 1);
            assert(post.drop_last() =~= pre);
            assert(post.last() == tv[i as int]);
        }
    }
    proof {
        assert(tv.subrange(0, n as int) =~= tv);
    }
    m
}

/// Analyses a corpus: counts every requested gram length and skip
/// distance over all sentences in parallel, then sorts every map
/// descending by count. The model equals the sequential count
/// (`count_corpus`), whatever the worker count.
pub fn analyse(sentences: &Vec<String>, ngram_ns: &Vec<usize>, skipgram_ns: &Vec<usize>) -> (r:
    OccurrenceAnalysis)
    requires
        valid_ordinates(ngram_ns@, skipgram_ns@),
    ensures
        r.wf(),
        model_of_view(r@) == corpus_model(
            sentences@.map_values(|s: String| s@),
            ngram_ns@,
            skipgram_ns@,
        ),
        forall|i: int|
            0 <= i < r@.ngrams.len() ==> sorted_desc((#[trigger] r@.ngrams[i]).1),
        forall|i: int|
            0 <= i < r@.skipgrams.len() ==> sorted_desc((#[trigger] r@.skipgrams[i]).1),
        r@.ngrams.len() == ngram_ns@.len(),
        forall|i: int| 0 <= i < ngram_ns@.len() ==> (#[trigger] r@.ngrams[i]).0 == ngram_ns@[i],
        r@.skipgrams.len() == skipgram_ns@.len(),
        forall|i: int|
            0 <= i < skipgram_ns@.len() ==> (#[trigger] r@.skipgrams[i]).0 == skipgram_ns@[i],
{
    let mut r = count_corpus_rayon(sentences, ngram_ns, skipgram_ns);
    r.sort();
    r
}

} // verus!
