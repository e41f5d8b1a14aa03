use corporalyser::countable::Countable;
use corporalyser::counting::analyse;
use corporalyser::export::{CminiLanguageData, OxeylyserLanguageData};
use corporalyser::report::{
    compute_report, ReportRecipe, ReportSource, ReportSourceType, SourceStore, StoredAnalysis,
    StoredRecipe,
};
use corporalyser::scaled::ScaledMap;
use corporalyser::transforms::TransformSpecification;

fn gram(s: &str) -> Countable {
    Countable::from_str_ref(s)
}

fn strs(v: &[&str]) -> Vec<String> {
    v.iter().map(|s| s.to_string()).collect()
}

fn no_transform() -> TransformSpecification {
    TransformSpecification {
        strip_whitespace: false,
        strip_punctuation: false,
        strip_numbers: false,
        strip_nonlatin: false,
    }
}

fn source(id: &str, weight: u32, type_: ReportSourceType) -> ReportSource {
    ReportSource { id: id.to_string(), weight, type_, transform: no_transform() }
}

fn demo_store() -> SourceStore {
    let ns: Vec<usize> = vec![1, 2, 3];
    let ks: Vec<usize> = vec![1, 2, 3];
    let a = analyse(&strs(&["abcab", "cab"]), &ns, &ks);
    SourceStore {
        analyses: vec![StoredAnalysis { id: "a".to_string(), analysis: a }],
        recipes: vec![],
    }
}

#[test]
fn equal_weight_pair_reproduces_original_counts() {
    let store = demo_store();
    let recipe = ReportRecipe {
        sources: vec![
            source("a", 1, ReportSourceType::Analysis),
            source("a", 1, ReportSourceType::Analysis),
        ],
    };
    let out = compute_report(&store, &recipe).unwrap();
    let original = &store.analyses[0].analysis;

    // counts: twice the original (unweighted sum of both sources)
    let ones = out.counts.ngrams.get(1).unwrap();
    assert_eq!(ones.get_count(&gram("a")), 2 * 3);
    assert_eq!(ones.get_count(&gram("b")), 2 * 3);
    assert_eq!(ones.get_count(&gram("c")), 2 * 2);

    // weighted counts: exactly the original, as num / den
    for fam in 1..=3usize {
        let w = out.weighted.ngrams.get(fam).unwrap();
        let o = original.ngrams.get(fam).unwrap();
        let den = w.den();
        assert_eq!(den, 2);
        assert_eq!(w.len(), o.len());
        for i in 0..o.len() {
            let g = o.gram_at(i).duplicate();
            let count = o.get_count(&g) as u128;
            assert_eq!(w.get_num(&g), count * den);
        }
    }
}

#[test]
fn frequencies_sum_to_one_per_map() {
    let store = demo_store();
    let recipe = ReportRecipe { sources: vec![source("a", 3, ReportSourceType::Analysis)] };
    let out = compute_report(&store, &recipe).unwrap();
    for fam in 1..=3usize {
        let f = out.frequencies.ngrams.get(fam).unwrap();
        let mut sum: u128 = 0;
        for i in 0..f.len() {
            sum += f.num_at(i);
        }
        assert_eq!(sum, f.den());
    }
}

#[test]
fn zero_total_weight_fails_with_invalid_weights() {
    let store = demo_store();
    let recipe = ReportRecipe {
        sources: vec![
            source("a", 0, ReportSourceType::Analysis),
            source("a", 0, ReportSourceType::Analysis),
        ],
    };
    let err = compute_report(&store, &recipe).unwrap_err();
    assert!(err.is_invalid_weights());
}

#[test]
fn unknown_source_fails_with_source_not_found() {
    let store = demo_store();
    let recipe = ReportRecipe { sources: vec![source("missing", 1, ReportSourceType::Analysis)] };
    let err = compute_report(&store, &recipe).unwrap_err();
    assert!(err.is_source_not_found());
}

#[test]
fn cyclic_report_reference_is_detected() {
    let mut store = demo_store();
    store.recipes.push(StoredRecipe {
        id: "r".to_string(),
        recipe: ReportRecipe { sources: vec![source("r", 1, ReportSourceType::Report)] },
    });
    let recipe = ReportRecipe { sources: vec![source("r", 1, ReportSourceType::Report)] };
    let err = compute_report(&store, &recipe).unwrap_err();
    assert!(err.is_cyclic());
}

#[test]
fn nested_report_contributes_its_counts() {
    let mut store = demo_store();
    store.recipes.push(StoredRecipe {
        id: "base".to_string(),
        recipe: ReportRecipe { sources: vec![source("a", 1, ReportSourceType::Analysis)] },
    });
    let recipe = ReportRecipe { sources: vec![source("base", 1, ReportSourceType::Report)] };
    let out = compute_report(&store, &recipe).unwrap();
    let original = &store.analyses[0].analysis;
    let ones = out.counts.ngrams.get(1).unwrap();
    let o_ones = original.ngrams.get(1).unwrap();
    assert_eq!(ones.len(), o_ones.len());
    for i in 0..o_ones.len() {
        let g = o_ones.gram_at(i).duplicate();
        assert_eq!(ones.get_count(&g), o_ones.get_count(&g));
    }
}

#[test]
fn report_applies_source_transforms() {
    let ns: Vec<usize> = vec![1];
    let a = analyse(&strs(&["a b"]), &ns, &vec![]);
    let store = SourceStore {
        analyses: vec![StoredAnalysis { id: "sp".to_string(), analysis: a }],
        recipes: vec![],
    };
    let mut tr = no_transform();
    tr.strip_whitespace = true;
    let recipe = ReportRecipe {
        sources: vec![ReportSource {
            id: "sp".to_string(),
            weight: 1,
            type_: ReportSourceType::Analysis,
            transform: tr,
        }],
    };
    let out = compute_report(&store, &recipe).unwrap();
    let ones = out.counts.ngrams.get(1).unwrap();
    assert_eq!(ones.len(), 2);
    assert_eq!(ones.get_count(&gram("a")), 1);
    assert_eq!(ones.get_count(&gram("b")), 1);
    assert_eq!(ones.get_count(&gram(" ")), 0);
}

#[test]
fn normalize_is_idempotent_and_skips_empty_maps() {
    let mut counts = corporalyser::occurrence::CountMap::new();
    counts.add_count(gram("a"), 2);
    counts.add_count(gram("b"), 3);
    let mut m = ScaledMap::new(1);
    m.scale_add(&counts, 1);
    m.normalize();
    assert_eq!(m.den(), 5);
    m.normalize();
    assert_eq!(m.den(), 5);
    assert_eq!(m.get_num(&gram("a")), 2);
    assert_eq!(m.get_num(&gram("b")), 3);

    let mut empty = ScaledMap::new(7);
    empty.normalize();
    assert_eq!(empty.den(), 7);
    assert_eq!(empty.len(), 0);
}

#[test]
fn export_projections_select_the_requested_families() {
    let store = demo_store();
    let recipe = ReportRecipe { sources: vec![source("a", 1, ReportSourceType::Analysis)] };
    let out = compute_report(&store, &recipe).unwrap();

    let oxey = OxeylyserLanguageData::from_report(&out, "demo".to_string()).unwrap();
    assert_eq!(oxey.language, "demo".to_string());
    assert_eq!(oxey.characters.len(), out.frequencies.ngrams.get(1).unwrap().len());
    assert_eq!(oxey.skipgrams.len(), out.frequencies.skipgrams.get(1).unwrap().len());

    let cmini = CminiLanguageData::from_report(&out).unwrap();
    assert_eq!(cmini.monograms.len(), out.counts.ngrams.get(1).unwrap().len());
    assert_eq!(cmini.words.len(), 0);
}

#[test]
fn export_projection_fails_without_required_ordinates() {
    let ns: Vec<usize> = vec![1];
    let a = analyse(&strs(&["ab"]), &ns, &vec![]);
    let store = SourceStore {
        analyses: vec![StoredAnalysis { id: "a".to_string(), analysis: a }],
        recipes: vec![],
    };
    let recipe = ReportRecipe { sources: vec![source("a", 1, ReportSourceType::Analysis)] };
    let out = compute_report(&store, &recipe).unwrap();
    assert!(OxeylyserLanguageData::from_report(&out, "x".to_string()).is_none());
    assert!(CminiLanguageData::from_report(&out).is_none());
}
