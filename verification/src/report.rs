//! The report aggregator: combines weighted, optionally transformed
//! sources (raw analyses or nested reports, resolved from a store with
//! a visited-set cycle guard) into unweighted counts, exact weighted
//! counts, and per-map normalized frequencies, all sorted descending.

use vstd::prelude::*;
use vstd::string::StringExecFns;

use crate::analysis::{AnalysisView, OccurrenceAnalysis};
use crate::counting::{merge_view, wf_view};
use crate::occurrence::sorted_desc;
use crate::scaled::{
    fam_scale_add_all, frac_eq, lemma_equal_weight_pair, lemma_fam_scale_again,
    lemma_fam_scale_fresh, normalize_den, scale_fold, scaled_sorted_desc, ScaledAnalysis,
    ScaledAnalysisView,
};
use crate::transforms::{transform_view, TransformSpecification};
use crate::sat_add64;

verus! {

/// What can go wrong while computing a report, in the abstract.
pub enum ErrorSpec {
    /// A recipe references an id with no stored analysis or report.
    SourceNotFound(Seq<char>),
    /// The weights of a recipe sum to zero.
    InvalidWeights,
    /// A corpus consists only of lines without a tab-separated content
    /// field.
    MalformedInput,
    /// Report sources reference each other in a cycle.
    CyclicReportReference(Seq<char>),
}

/// What can go wrong while computing a report.
#[derive(Debug)]
pub enum AnalyserError {
    /// A recipe references an id with no stored analysis or report.
    SourceNotFound(String),
    /// The weights of a recipe sum to zero.
    InvalidWeights,
    /// A corpus consists only of lines without a tab-separated content
    /// field.
    MalformedInput,
    /// Report sources reference each other in a cycle.
    CyclicReportReference(String),
}

impl View for AnalyserError {
    type V = ErrorSpec;

    open spec fn view(&self) -> ErrorSpec {
        match self {
            AnalyserError::SourceNotFound(id) => ErrorSpec::SourceNotFound(id@),
            AnalyserError::InvalidWeights => ErrorSpec::InvalidWeights,
            AnalyserError::MalformedInput => ErrorSpec::MalformedInput,
            AnalyserError::CyclicReportReference(id) => ErrorSpec::CyclicReportReference(id@),
        }
    }
}

impl AnalyserError {
    /// Whether this is the zero-weight-sum error.
    pub fn is_invalid_weights(&self) -> (r: bool)
        ensures
            r == (self@ == ErrorSpec::InvalidWeights),
    {
        match self {
            AnalyserError::InvalidWeights => true,
            _ => false,
        }
    }

    /// Whether this is the unresolved-source error.
    pub fn is_source_not_found(&self) -> (r: bool)
        ensures
            r == (self@ is SourceNotFound),
    {
        match self {
            AnalyserError::SourceNotFound(_) => true,
            _ => false,
        }
    }

    /// Whether this is the cyclic-reference error.
    pub fn is_cyclic(&self) -> (r: bool)
        ensures
            r == (self@ is CyclicReportReference),
    {
        match self {
            AnalyserError::CyclicReportReference(_) => true,
            _ => false,
        }
    }

    /// Whether this is the all-lines-malformed error.
    pub fn is_malformed_input(&self) -> (r: bool)
        ensures
            r == (self@ == ErrorSpec::MalformedInput),
    {
        match self {
            AnalyserError::MalformedInput => true,
            _ => false,
        }
    }
}

/// A short account of an abstract error.
pub open spec fn describe_spec(e: ErrorSpec) -> Seq<char> {
    match e {
        ErrorSpec::SourceNotFound(id) => "source not found: "@ + id,
        ErrorSpec::InvalidWeights => "the weights of the recipe sum to zero"@,
        ErrorSpec::MalformedInput => "every corpus line is malformed"@,
        ErrorSpec::CyclicReportReference(id) => "cyclic report reference: "@ + id,
    }
}

impl AnalyserError {
    /// A short human-readable account of the error, naming the source
    /// id where one is involved.
    pub fn describe(&self) -> (r: String)
        ensures
            r@ == describe_spec(self@),
    {
        match self {
            AnalyserError::SourceNotFound(id) => String::from_str("source not found: ").concat(
                id.as_str(),
            ),
            AnalyserError::InvalidWeights => String::from_str(
                "the weights of the recipe sum to zero",
            ),
            AnalyserError::MalformedInput => String::from_str("every corpus line is malformed"),
            AnalyserError::CyclicReportReference(id) => String::from_str(
                "cyclic report reference: ",
            ).concat(id.as_str()),
        }
    }
}

/// Whether a source is a raw per-corpus analysis or a nested report.
#[derive(Clone, Copy, PartialEq, Eq, Structural, Debug)]
pub enum ReportSourceType {
    /// The counts of another report, computed from its recipe.
    Report,
    /// A raw per-corpus analysis.
    Analysis,
}

/// The abstract form of one recipe entry.
#[verifier::ext_equal]
pub struct SourceV {
    pub id: Seq<char>,
    pub weight: u32,
    pub type_: ReportSourceType,
    pub transform: TransformSpecification,
}

/// One recipe entry: which source, how heavy, and which character
/// classes to strip from it first. Weights are non-negative integer
/// parts; only their ratios matter.
pub struct ReportSource {
    pub id: String,
    pub weight: u32,
    pub type_: ReportSourceType,
    pub transform: TransformSpecification,
}

impl View for ReportSource {
    type V = SourceV;

    open spec fn view(&self) -> SourceV {
        SourceV {
            id: self.id@,
            weight: self.weight,
            type_: self.type_,
            transform: self.transform,
        }
    }
}

/// A report recipe: its weighted, transformed sources in order.
pub struct ReportRecipe {
    pub sources: Vec<ReportSource>,
}

impl View for ReportRecipe {
    type V = Seq<SourceV>;

    open spec fn view(&self) -> Seq<SourceV> {
        self.sources@.map_values(|s: ReportSource| s@)
    }
}

/// One stored per-corpus analysis, under its id.
pub struct StoredAnalysis {
    pub id: String,
    pub analysis: OccurrenceAnalysis,
}

/// One stored report recipe, under its id.
pub struct StoredRecipe {
    pub id: String,
    pub recipe: ReportRecipe,
}

/// The abstract form of the store.
#[verifier::ext_equal]
pub struct StoreV {
    pub analyses: Seq<(Seq<char>, AnalysisView)>,
    pub recipes: Seq<(Seq<char>, Seq<SourceV>)>,
}

/// Everything a report computation may resolve ids against: raw
/// analyses and the recipes of other reports.
pub struct SourceStore {
    pub analyses: Vec<StoredAnalysis>,
    pub recipes: Vec<StoredRecipe>,
}

impl View for SourceStore {
    type V = StoreV;

    open spec fn view(&self) -> StoreV {
        StoreV {
            analyses: self.analyses@.map_values(|a: StoredAnalysis| (a.id@, a.analysis@)),
            recipes: self.recipes@.map_values(|r: StoredRecipe| (r.id@, r.recipe@)),
        }
    }
}

/// The first association of `id` in `s`, if any.
pub open spec fn find_assoc<T>(s: Seq<(Seq<char>, T)>, id: Seq<char>) -> Option<T>
    decreases s.len(),
{
    if s.len() == 0 {
        None
    } else if s[0].0 == id {
        Some(s[0].1)
    } else {
        find_assoc(s.drop_first(), id)
    }
}

impl SourceStore {
    /// Every stored analysis is well-formed.
    pub open spec fn wf(&self) -> bool {
        forall|i: int| 0 <= i < self@.analyses.len() ==> wf_view((#[trigger] self@.analyses[i]).1)
    }

    /// The stored analysis of `id`, if any.
    fn find_analysis(&self, id: &String) -> (r: Option<&OccurrenceAnalysis>)
        ensures
            match r {
                Some(a) => find_assoc(self@.analyses, id@) == Some(a@),
                None => find_assoc(self@.analyses, id@) is None,
            },
    {
        proof {
            assert(self@.analyses.skip(0) =~= self@.analyses);
        }
        let n: usize = self.analyses.len();
        for i in 0..n
            invariant
                n == self@.analyses.len(),
                find_assoc(self@.analyses, id@) == find_assoc(
                    self@.analyses.skip(i as int),
                    id@,
                ),
        {
            proof {
                let rest = self@.analyses.skip(i as int);
                assert(rest.len() > 0);
                assert(rest[0] == self@.analyses[i as int]);
                assert(rest.drop_first() =~= self@.analyses.skip(i + 1));
            }
            if self.analyses[i].id.eq(id) {
                return Some(&self.analyses[i].analysis);
            }
        }
        proof {
            assert(self@.analyses.skip(n as int) =~= Seq::<(Seq<char>, AnalysisView)>::empty());
        }
        None
    }

    /// The stored recipe of `id`, if any.
    fn find_recipe(&self, id: &String) -> (r: Option<&ReportRecipe>)
        ensures
            match r {
                Some(rec) => find_assoc(self@.recipes, id@) == Some(rec@),
                None => find_assoc(self@.recipes, id@) is None,
            },
    {
        proof {
            assert(self@.recipes.skip(0) =~= self@.recipes);
        }
        let n: usize = self.recipes.len();
        for i in 0..n
            invariant
                n == self@.recipes.len(),
                find_assoc(self@.recipes, id@) == find_assoc(self@.recipes.skip(i as int), id@),
        {
            proof {
                let rest = self@.recipes.skip(i as int);
                assert(rest.len() > 0);
                assert(rest[0] == self@.recipes[i as int]);
                assert(rest.drop_first() =~= self@.recipes.skip(i + 1));
            }
            if self.recipes[i].id.eq(id) {
                return Some(&self.recipes[i].recipe);
            }
        }
        proof {
            assert(self@.recipes.skip(n as int) =~= Seq::<(Seq<char>, Seq<SourceV>)>::empty());
        }
        None
    }
}

/// The saturating sum of a recipe's weights.
pub open spec fn sum_weights(sources: Seq<SourceV>) -> u64 {
    sources.fold_left(0u64, |acc: u64, s: SourceV| sat_add64(acc, s.weight as u64))
}

/// The empty analysis view.
pub open spec fn empty_view() -> AnalysisView {
    AnalysisView { ngrams: Seq::empty(), skipgrams: Seq::empty(), words: Seq::empty() }
}

/// The empty real-valued analysis view under denominator `den`.
pub open spec fn empty_scaled_view(den: u128) -> ScaledAnalysisView {
    ScaledAnalysisView { ngrams: Seq::empty(), skipgrams: Seq::empty(), words: (Seq::empty(), den) }
}

/// One weighted contribution added to a real-valued analysis view.
pub open spec fn scale_add_view(
    acc: ScaledAnalysisView,
    src: AnalysisView,
    w: u32,
    den: u128,
) -> ScaledAnalysisView {
    ScaledAnalysisView {
        ngrams: fam_scale_add_all(acc.ngrams, src.ngrams, w, den),
        skipgrams: fam_scale_add_all(acc.skipgrams, src.skipgrams, w, den),
        words: (scale_fold(acc.words.0, src.words, w), acc.words.1),
    }
}

/// Resolving one source: a raw analysis is looked up in the store; a
/// nested report is found by id, guarded against cycles through the
/// visited ids, and evaluated recursively for its counts. `fuel` bounds
/// the recursion depth; the top level passes more fuel than there are
/// recipes, so the visited-set check fires on every actual cycle first.
pub open spec fn resolve_source_spec(
    store: StoreV,
    src: SourceV,
    visited: Seq<Seq<char>>,
    fuel: nat,
) -> Result<AnalysisView, ErrorSpec>
    decreases fuel, 0int,
{
    match src.type_ {
        ReportSourceType::Analysis => match find_assoc(store.analyses, src.id) {
            Some(v) => Ok(v),
            None => Err(ErrorSpec::SourceNotFound(src.id)),
        },
        ReportSourceType::Report => {
            if visited.contains(src.id) {
                Err(ErrorSpec::CyclicReportReference(src.id))
            } else {
                match find_assoc(store.recipes, src.id) {
                    None => Err(ErrorSpec::SourceNotFound(src.id)),
                    Some(rec) => {
                        if fuel == 0 {
                            Err(ErrorSpec::CyclicReportReference(src.id))
                        } else {
                            match eval_recipe(store, rec, visited.push(src.id), (fuel - 1) as nat) {
                                Err(e) => Err(e),
                                Ok(pair) => Ok(pair.0),
                            }
                        }
                    },
                }
            }
        },
    }
}

/// Folding the sources of a recipe, left to right: each resolved source
/// is transformed, merged into the counts, and added weighted into the
/// real-valued counts (whose word denominator carries the weight sum).
pub open spec fn eval_sources(
    store: StoreV,
    sources: Seq<SourceV>,
    acc_c: AnalysisView,
    acc_w: ScaledAnalysisView,
    visited: Seq<Seq<char>>,
    fuel: nat,
) -> Result<(AnalysisView, ScaledAnalysisView), ErrorSpec>
    decreases fuel, sources.len(),
{
    if sources.len() == 0 {
        Ok((acc_c, acc_w))
    } else {
        let src = sources[0];
        match resolve_source_spec(store, src, visited, fuel) {
            Err(e) => Err(e),
            Ok(v) => {
                let tv = transform_view(v, src.transform);
                eval_sources(
                    store,
                    sources.drop_first(),
                    merge_view(acc_c, tv),
                    scale_add_view(acc_w, tv, src.weight, acc_w.words.1),
                    visited,
                    fuel,
                )
            },
        }
    }
}

/// Evaluating one recipe: a zero weight sum is rejected before any
/// source is touched; otherwise the sources fold onto empty
/// accumulators, the weight sum becoming the shared denominator.
pub open spec fn eval_recipe(
    store: StoreV,
    sources: Seq<SourceV>,
    visited: Seq<Seq<char>>,
    fuel: nat,
) -> Result<(AnalysisView, ScaledAnalysisView), ErrorSpec>
    decreases fuel, sources.len() + 1,
{
    if sum_weights(sources) == 0 {
        Err(ErrorSpec::InvalidWeights)
    } else {
        eval_sources(
            store,
            sources,
            empty_view(),
            empty_scaled_view(sum_weights(sources) as u128),
            visited,
            fuel,
        )
    }
}

/// Checks whether `visited` holds `id`.
fn visited_contains(visited: &Vec<String>, id: &String) -> (r: bool)
    ensures
        r == visited@.map_values(|s: String| s@).contains(id@),
{
    let ghost vv = visited@.map_values(|s: String| s@);
    let n: usize = visited.len();
    for i in 0..n
        invariant
            n == visited@.len(),
            vv == visited@.map_values(|s: String| s@),
            forall|j: int| 0 <= j < i ==> vv[j] != id@,
    {
        if visited[i].eq(id) {
            proof {
                assert(vv[i as int] == id@);
            }
            return true;
        }
    }
    proof {
        if vv.contains(id@) {
            let j = choose|j: int| 0 <= j < vv.len() && vv[j] == id@;
            assert(false);
        }
    }
    false
}

/// Resolves one source to its counts analysis.
fn resolve_source(
    store: &SourceStore,
    src: &ReportSource,
    visited: &Vec<String>,
    fuel: usize,
) -> (r: Result<OccurrenceAnalysis, AnalyserError>)
    requires
        store.wf(),
    ensures
        match r {
            Ok(a) => resolve_source_spec(
                store@,
                src@,
                visited@.map_values(|s: String| s@),
                fuel as nat,
            ) == Ok::<AnalysisView, ErrorSpec>(a@) && a.wf(),
            Err(e) => resolve_source_spec(
                store@,
                src@,
                visited@.map_values(|s: String| s@),
                fuel as nat,
            ) == Err::<AnalysisView, ErrorSpec>(e@),
        },
    decreases fuel, 0int,
{
    let ghost vv = visited@.map_values(|s: String| s@);
    match src.type_ {
        ReportSourceType::Analysis => match store.find_analysis(&src.id) {
            Some(a) => {
                proof {
                    let i = choose|i: int|
                        0 <= i < store@.analyses.len() && store@.analyses[i].1 == a@;
                    lemma_find_assoc_found(store@.analyses, src.id@, a@);
                }
                Ok(a.duplicate())
            },
            None => Err(AnalyserError::SourceNotFound(src.id.clone())),
        },
        ReportSourceType::Report => {
            if visited_contains(visited, &src.id) {
                return Err(AnalyserError::CyclicReportReference(src.id.clone()));
            }
            match store.find_recipe(&src.id) {
                None => Err(AnalyserError::SourceNotFound(src.id.clone())),
                Some(rec) => {
                    if fuel == 0 {
                        return Err(AnalyserError::CyclicReportReference(src.id.clone()));
                    }
                    let mut visited2: Vec<String> = Vec::new();
                    let n: usize = visited.len();
                    for i in 0..n
                        invariant
                            n == visited@.len(),
                            visited2@.len() == i,
                            forall|j: int| 0 <= j < i ==> #[trigger] visited2@[j]@ == visited@[j]@,
                    {
                        visited2.push(visited[i].clone());
                    }
                    visited2.push(src.id.clone());
                    proof {
                        assert(visited2@.map_values(|s: String| s@) =~= vv.push(src.id@));
                    }
                    match compute_recipe(store, rec, &visited2, fuel - 1) {
                        Err(e) => Err(e),
                        Ok(pair) => Ok(pair.0),
                    }
                },
            }
        },
    }
}

/// If the store's lookup finds a well-formed analysis, its view is
/// well-formed.
proof fn lemma_find_assoc_found(s: Seq<(Seq<char>, AnalysisView)>, id: Seq<char>, v: AnalysisView)
    requires
        find_assoc(s, id) == Some(v),
        forall|i: int| 0 <= i < s.len() ==> wf_view((#[trigger] s[i]).1),
    ensures
        wf_view(v),
    decreases s.len(),
{
    if s.len() == 0 {
    } else if s[0].0 == id {
        assert(s[0].1 == v);
    } else {
        assert(forall|i: int|
            0 <= i < s.drop_first().len() ==> wf_view((#[trigger] s.drop_first()[i]).1));
        lemma_find_assoc_found(s.drop_first(), id, v);
    }
}

/// Computes the counts and weighted counts of one recipe.
fn compute_recipe(
    store: &SourceStore,
    recipe: &ReportRecipe,
    visited: &Vec<String>,
    fuel: usize,
) -> (r: Result<(OccurrenceAnalysis, ScaledAnalysis), AnalyserError>)
    requires
        store.wf(),
    ensures
        match r {
            Ok(pair) => eval_recipe(store@, recipe@, visited@.map_values(|s: String| s@), fuel as nat)
                == Ok::<(AnalysisView, ScaledAnalysisView), ErrorSpec>((pair.0@, pair.1@))
                && pair.0.wf() && pair.1.wf(),
            Err(e) => eval_recipe(store@, recipe@, visited@.map_values(|s: String| s@), fuel as nat)
                == Err::<(AnalysisView, ScaledAnalysisView), ErrorSpec>(e@),
        },
    decreases fuel, 1int,
{
    let ghost vv = visited@.map_values(|s: String| s@);
    let ghost srcv = recipe@;
    let mut total: u64 = 0;
    let n: usize = recipe.sources.len();
    for i in 0..n
        invariant
            n == recipe.sources@.len(),
            srcv == recipe@,
            total == sum_weights(srcv.subrange(0, i as int)),
    {
        total = total.saturating_add(recipe.sources[i].weight as u64);
        proof {
            let pre = srcv.subrange(0, i as int);
            let post = srcv.subrange(0, i + 1);
            assert(post.drop_last() =~= pre);
            assert(post.last() == srcv[i as int]);
        }
    }
    proof {
        assert(srcv.subrange(0, n as int) =~= srcv);
    }
    if total == 0 {
        return Err(AnalyserError::InvalidWeights);
    }
    let mut counts = OccurrenceAnalysis::new();
    let mut weighted = ScaledAnalysis::new(total as u128);
    let ghost target = eval_sources(
        store@,
        srcv,
        empty_view(),
        empty_scaled_view(total as u128),
        vv,
        fuel as nat,
    );
    proof {
        assert(counts@ =~= empty_view());
        assert(weighted@ =~= empty_scaled_view(total as u128));
        assert(srcv.skip(0) =~= srcv);
    }
    for i in 0..n
        invariant
            n == recipe.sources@.len(),
            srcv == recipe@,
            vv == visited@.map_values(|s: String| s@),
            store.wf(),
            counts.wf(),
            weighted.wf(),
            weighted@.words.1 == total as u128,
            target == eval_sources(
                store@,
                srcv.skip(i as int),
                counts@,
                weighted@,
                vv,
                fuel as nat,
            ),
            target == eval_recipe(store@, srcv, vv, fuel as nat),
        {
        proof {
            let rest = srcv.skip(i as int);
            assert(rest.len() > 0);
            assert(rest[0] == srcv[i as int]);
            assert(rest.drop_first() =~= srcv.skip(i + 1));
        }
        match resolve_source(store, &recipe.sources[i], visited, fuel) {
            Err(e) => {
                proof {
                    assert(recipe.sources@[i as int]@ == srcv[i as int]);
                    assert(target == Err::<(AnalysisView, ScaledAnalysisView), ErrorSpec>(e@));
                }
                return Err(e);
            },
            Ok(mut a) => {
                proof {
                    assert(recipe.sources@[i as int]@ == srcv[i as int]);
                }
                a.transform(&recipe.sources[i].transform);
                counts.merge_from(&a);
                weighted.scale_add(&a, recipe.sources[i].weight, total as u128);
            },
        }
    }
    proof {
        assert(srcv.skip(n as int) =~= Seq::<SourceV>::empty());
    }
    Ok((counts, weighted))
}

/// Every map of the analysis is sorted descending by count.
pub open spec fn analysis_sorted(v: AnalysisView) -> bool {
    &&& forall|i: int| 0 <= i < v.ngrams.len() ==> sorted_desc((#[trigger] v.ngrams[i]).1)
    &&& forall|i: int| 0 <= i < v.skipgrams.len() ==> sorted_desc((#[trigger] v.skipgrams[i]).1)
    &&& sorted_desc(v.words)
}

/// Every map of the real-valued analysis is sorted descending.
pub open spec fn scaled_sorted(v: ScaledAnalysisView) -> bool {
    &&& forall|i: int|
        0 <= i < v.ngrams.len() ==> scaled_sorted_desc((#[trigger] v.ngrams[i]).1.0)
    &&& forall|i: int|
        0 <= i < v.skipgrams.len() ==> scaled_sorted_desc((#[trigger] v.skipgrams[i]).1.0)
    &&& scaled_sorted_desc(v.words.0)
}

/// Two real-valued analyses with the same ordinates, entries (as
/// multisets) and denominators: equal up to entry order.
pub open spec fn scaled_same_content(a: ScaledAnalysisView, b: ScaledAnalysisView) -> bool {
    &&& a.ngrams.len() == b.ngrams.len()
    &&& forall|i: int|
        0 <= i < a.ngrams.len() ==> (#[trigger] a.ngrams[i]).0 == b.ngrams[i].0
            && a.ngrams[i].1.0.to_multiset() == b.ngrams[i].1.0.to_multiset() && a.ngrams[i].1.1
            == b.ngrams[i].1.1
    &&& a.skipgrams.len() == b.skipgrams.len()
    &&& forall|i: int|
        0 <= i < a.skipgrams.len() ==> (#[trigger] a.skipgrams[i]).0 == b.skipgrams[i].0
            && a.skipgrams[i].1.0.to_multiset() == b.skipgrams[i].1.0.to_multiset()
            && a.skipgrams[i].1.1 == b.skipgrams[i].1.1
    &&& a.words.0.to_multiset() == b.words.0.to_multiset()
    &&& a.words.1 == b.words.1
}

/// The real-valued analysis after normalizing every map: numerators
/// stay, each map's denominator becomes the sum of its numerators
/// (unless that sum is zero).
pub open spec fn normalize_view(v: ScaledAnalysisView) -> ScaledAnalysisView {
    ScaledAnalysisView {
        ngrams: v.ngrams.map(
            |i: int, p: (usize, (crate::scaled::ScaledSeq, u128))|
                (p.0, (p.1.0, normalize_den(p.1.0, p.1.1))),
        ),
        skipgrams: v.skipgrams.map(
            |i: int, p: (usize, (crate::scaled::ScaledSeq, u128))|
                (p.0, (p.1.0, normalize_den(p.1.0, p.1.1))),
        ),
        words: (v.words.0, normalize_den(v.words.0, v.words.1)),
    }
}

/// The recursion bound a report computation starts with: one more than
/// the number of stored recipes, so an acyclic reference chain can
/// never exhaust it and every cycle is caught by the visited set.
pub open spec fn report_fuel(store: StoreV) -> nat {
    if store.recipes.len() + 1 <= usize::MAX {
        (store.recipes.len() + 1) as nat
    } else {
        usize::MAX as nat
    }
}

/// Weighted aggregation with two equal-weight contributions of one
/// analysis yields exactly the original analysis: the weights cancel,
/// and every resulting value `num / den` equals the original count.
pub proof fn lemma_equal_weight_pair_view(v: AnalysisView, w: u32)
    requires
        wf_view(v),
        w >= 1,
    ensures
        ({
            let den = (2 * w) as u128;
            let r = scale_add_view(
                scale_add_view(empty_scaled_view(den), v, w, den),
                v,
                w,
                den,
            );
            &&& r.ngrams.len() == v.ngrams.len()
            &&& forall|i: int|
                0 <= i < v.ngrams.len() ==> {
                    let rm = (#[trigger] r.ngrams[i]).1;
                    let vm = v.ngrams[i].1;
                    &&& r.ngrams[i].0 == v.ngrams[i].0
                    &&& rm.1 == den
                    &&& rm.0.len() == vm.len()
                    &&& forall|j: int|
                        0 <= j < vm.len() ==> (#[trigger] rm.0[j]).0 == vm[j].0 && frac_eq(
                            rm.0[j].1 as int,
                            den as int,
                            vm[j].1 as int,
                            1,
                        )
                }
            &&& r.skipgrams.len() == v.skipgrams.len()
            &&& forall|i: int|
                0 <= i < v.skipgrams.len() ==> {
                    let rm = (#[trigger] r.skipgrams[i]).1;
                    let vm = v.skipgrams[i].1;
                    &&& r.skipgrams[i].0 == v.skipgrams[i].0
                    &&& rm.1 == den
                    &&& rm.0.len() == vm.len()
                    &&& forall|j: int|
                        0 <= j < vm.len() ==> (#[trigger] rm.0[j]).0 == vm[j].0 && frac_eq(
                            rm.0[j].1 as int,
                            den as int,
                            vm[j].1 as int,
                            1,
                        )
                }
            &&& r.words.1 == den
            &&& r.words.0.len() == v.words.len()
            &&& forall|j: int|
                0 <= j < v.words.len() ==> (#[trigger] r.words.0[j]).0 == v.words[j].0 && frac_eq(
                    r.words.0[j].1 as int,
                    den as int,
                    v.words[j].1 as int,
                    1,
                )
        }),
{
    let den = (2 * w) as u128;
    let first = scale_add_view(empty_scaled_view(den), v, w, den);
    let r = scale_add_view(first, v, w, den);
    lemma_fam_scale_fresh(v.ngrams, w, den);
    lemma_fam_scale_fresh(v.skipgrams, w, den);
    assert(forall|x: int, y: int|
        0 <= x < y < first.ngrams.len() ==> first.ngrams[x].0 != first.ngrams[y].0) by {
        assert(forall|i: int|
            0 <= i < v.ngrams.len() ==> (#[trigger] first.ngrams[i]).0 == v.ngrams[i].0);
    }
    assert(forall|x: int, y: int|
        0 <= x < y < first.skipgrams.len() ==> first.skipgrams[x].0 != first.skipgrams[y].0) by {
        assert(forall|i: int|
            0 <= i < v.skipgrams.len() ==> (#[trigger] first.skipgrams[i]).0 == v.skipgrams[i].0);
    }
    lemma_fam_scale_again(first.ngrams, v.ngrams, w, den);
    lemma_fam_scale_again(first.skipgrams, v.skipgrams, w, den);
    assert forall|i: int| 0 <= i < v.ngrams.len() implies {
        let rm = (#[trigger] r.ngrams[i]).1;
        let vm = v.ngrams[i].1;
        &&& r.ngrams[i].0 == v.ngrams[i].0
        &&& rm.1 == den
        &&& rm.0.len() == vm.len()
        &&& forall|j: int|
            0 <= j < vm.len() ==> (#[trigger] rm.0[j]).0 == vm[j].0 && frac_eq(
                rm.0[j].1 as int,
                den as int,
                vm[j].1 as int,
                1,
            )
    } by {
        assert(first.ngrams[i] == (v.ngrams[i].0, (scale_fold(Seq::empty(), v.ngrams[i].1, w), den)));
        assert(r.ngrams[i] == (v.ngrams[i].0, (scale_fold(
            scale_fold(Seq::empty(), v.ngrams[i].1, w),
            v.ngrams[i].1,
            w,
        ), den)));
        assert(crate::occurrence::wf_entry_seq(v.ngrams[i].1));
        lemma_equal_weight_pair(v.ngrams[i].1, w);
    }
    assert forall|i: int| 0 <= i < v.skipgrams.len() implies {
        let rm = (#[trigger] r.skipgrams[i]).1;
        let vm = v.skipgrams[i].1;
        &&& r.skipgrams[i].0 == v.skipgrams[i].0
        &&& rm.1 == den
        &&& rm.0.len() == vm.len()
        &&& forall|j: int|
            0 <= j < vm.len() ==> (#[trigger] rm.0[j]).0 == vm[j].0 && frac_eq(
                rm.0[j].1 as int,
                den as int,
                vm[j].1 as int,
                1,
            )
    } by {
        assert(first.skipgrams[i] == (v.skipgrams[i].0, (scale_fold(
            Seq::empty(),
            v.skipgrams[i].1,
            w,
        ), den)));
        assert(r.skipgrams[i] == (v.skipgrams[i].0, (scale_fold(
            scale_fold(Seq::empty(), v.skipgrams[i].1, w),
            v.skipgrams[i].1,
            w,
        ), den)));
        assert(crate::occurrence::wf_entry_seq(v.skipgrams[i].1));
        lemma_equal_weight_pair(v.skipgrams[i].1, w);
    }
    lemma_equal_weight_pair(v.words, w);
}

/// One computed report: unweighted counts, exact weighted counts, and
/// per-map normalized frequencies, each sorted descending.
#[derive(Debug)]
pub struct ReportOutput {
    pub counts: OccurrenceAnalysis,
    pub weighted: ScaledAnalysis,
    pub frequencies: ScaledAnalysis,
}

/// Computes a report from its recipe against a store of analyses and
/// other recipes. A zero weight sum fails with `InvalidWeights` before
/// any source is read; an unknown id fails with `SourceNotFound`; a
/// cycle among report sources fails with `CyclicReportReference`. On
/// success the counts model, the weighted entries and the normalized
/// frequencies are exactly those of the recipe evaluation, each output
/// sorted descending.
pub fn compute_report(store: &SourceStore, recipe: &ReportRecipe) -> (r: Result<
    ReportOutput,
    AnalyserError,
>)
    requires
        store.wf(),
    ensures
        match r {
            Ok(out) => {
                let ev = eval_recipe(store@, recipe@, Seq::empty(), report_fuel(store@));
                &&& ev is Ok
                &&& out.counts.wf() && out.weighted.wf() && out.frequencies.wf()
                &&& out.counts.model() == crate::analysis::model_of_view(ev->Ok_0.0)
                &&& analysis_sorted(out.counts@)
                &&& scaled_same_content(out.weighted@, ev->Ok_0.1)
                &&& scaled_sorted(out.weighted@)
                &&& scaled_same_content(out.frequencies@, normalize_view(ev->Ok_0.1))
                &&& scaled_sorted(out.frequencies@)
            },
            Err(e) => eval_recipe(store@, recipe@, Seq::empty(), report_fuel(store@))
                == Err::<(AnalysisView, ScaledAnalysisView), ErrorSpec>(e@),
        },
        sum_weights(recipe@) == 0 ==> r is Err && (r->Err_0)@ == ErrorSpec::InvalidWeights,
{
    let fuel: usize = store.recipes.len().saturating_add(1);
    let empty_visited: Vec<String> = Vec::new();
    proof {
        assert(empty_visited@.map_values(|s: String| s@) =~= Seq::<Seq<char>>::empty());
    }
    match compute_recipe(store, recipe, &empty_visited, fuel) {
        Err(e) => Err(e),
        Ok(pair) => {
            let (mut counts, mut weighted) = pair;
            let ghost ev_counts = counts@;
            let ghost ev_weighted = weighted@;
            let mut frequencies = weighted.duplicate();
            frequencies.normalize();
            proof {
                assert(frequencies@ =~= normalize_view(ev_weighted));
            }
            let ghost freq_norm = frequencies@;
            counts.sort();
            weighted.sort();
            frequencies.sort();
            proof {
                assert(scaled_same_content(weighted@, ev_weighted));
                assert(scaled_same_content(frequencies@, freq_norm));
                assert(scaled_same_content(frequencies@, normalize_view(ev_weighted)));
            }
            Ok(ReportOutput { counts, weighted, frequencies })
        },
    }
}

} // verus!
