//! Downstream export shapes: flat projections of a report's
//! frequencies and counts per requested gram length and skip distance.
//! Pure field selection, no new statistics.

use vstd::prelude::*;

use crate::analysis::fam_has_ord;
use crate::occurrence::CountMap;
use crate::report::ReportOutput;
use crate::scaled::{scaled_fam_has_ord, ScaledMap};

verus! {

/// The frequency projection a keyboard-layout optimizer consumes: one
/// flat map per gram length (1 to 3) and skip distance (1 to 3).
pub struct OxeylyserLanguageData {
    pub language: String,
    pub characters: ScaledMap,
    pub bigrams: ScaledMap,
    pub trigrams: ScaledMap,
    pub skipgrams: ScaledMap,
    pub skipgrams2: ScaledMap,
    pub skipgrams3: ScaledMap,
}

impl OxeylyserLanguageData {
    /// Projects a report's frequencies. Yields nothing exactly when
    /// some required ordinate (gram lengths 1 to 3, skip distances 1 to
    /// 3) is absent from the frequencies.
    pub fn from_report(report: &ReportOutput, language: String) -> (r: Option<
        OxeylyserLanguageData,
    >)
        ensures
            (r is Some) == (scaled_fam_has_ord(report.frequencies@.ngrams, 1)
                && scaled_fam_has_ord(report.frequencies@.ngrams, 2) && scaled_fam_has_ord(
                report.frequencies@.ngrams,
                3,
            ) && scaled_fam_has_ord(report.frequencies@.skipgrams, 1) && scaled_fam_has_ord(
                report.frequencies@.skipgrams,
                2,
            ) && scaled_fam_has_ord(report.frequencies@.skipgrams, 3)),
            r is Some ==> {
                let out = r->0;
                &&& (exists|i: int|
                    0 <= i < report.frequencies@.ngrams.len()
                        && #[trigger] report.frequencies@.ngrams[i] == (1usize, out.characters@))
                &&& (exists|i: int|
                    0 <= i < report.frequencies@.ngrams.len()
                        && #[trigger] report.frequencies@.ngrams[i] == (2usize, out.bigrams@))
                &&& (exists|i: int|
                    0 <= i < report.frequencies@.ngrams.len()
                        && #[trigger] report.frequencies@.ngrams[i] == (3usize, out.trigrams@))
                &&& (exists|i: int|
                    0 <= i < report.frequencies@.skipgrams.len()
                        && #[trigger] report.frequencies@.skipgrams[i] == (
                        1usize,
                        out.skipgrams@,
                    ))
                &&& (exists|i: int|
                    0 <= i < report.frequencies@.skipgrams.len()
                        && #[trigger] report.frequencies@.skipgrams[i] == (
                        2usize,
                        out.skipgrams2@,
                    ))
                &&& (exists|i: int|
                    0 <= i < report.frequencies@.skipgrams.len()
                        && #[trigger] report.frequencies@.skipgrams[i] == (
                        3usize,
                        out.skipgrams3@,
                    ))
            },
    {
        let c1 = report.frequencies.ngrams.get(1);
        let c2 = report.frequencies.ngrams.get(2);
        let c3 = report.frequencies.ngrams.get(3);
        let s1 = report.frequencies.skipgrams.get(1);
        let s2 = report.frequencies.skipgrams.get(2);
        let s3 = report.frequencies.skipgrams.get(3);
        match (c1, c2, c3, s1, s2, s3) {
            (Some(m1), Some(m2), Some(m3), Some(k1), Some(k2), Some(k3)) => Some(
                OxeylyserLanguageData {
                    language,
                    characters: m1.duplicate(),
                    bigrams: m2.duplicate(),
                    trigrams: m3.duplicate(),
                    skipgrams: k1.duplicate(),
                    skipgrams2: k2.duplicate(),
                    skipgrams3: k3.duplicate(),
                },
            ),
            _ => None,
        }
    }
}

/// The count projection of a report: monograms, bigrams, trigrams and
/// whole words.
pub struct CminiLanguageData {
    pub monograms: CountMap,
    pub bigrams: CountMap,
    pub trigrams: CountMap,
    pub words: CountMap,
}

impl CminiLanguageData {
    /// Projects a report's counts. Yields nothing exactly when some
    /// required gram length (1 to 3) is absent from the counts.
    pub fn from_report(report: &ReportOutput) -> (r: Option<CminiLanguageData>)
        ensures
            (r is Some) == (fam_has_ord(report.counts@.ngrams, 1) && fam_has_ord(
                report.counts@.ngrams,
                2,
            ) && fam_has_ord(report.counts@.ngrams, 3)),
            r is Some ==> {
                let out = r->0;
                &&& (exists|i: int|
                    0 <= i < report.counts@.ngrams.len() && #[trigger] report.counts@.ngrams[i]
                        == (1usize, out.monograms@))
                &&& (exists|i: int|
                    0 <= i < report.counts@.ngrams.len() && #[trigger] report.counts@.ngrams[i]
                        == (2usize, out.bigrams@))
                &&& (exists|i: int|
                    0 <= i < report.counts@.ngrams.len() && #[trigger] report.counts@.ngrams[i]
                        == (3usize, out.trigrams@))
                &&& out.words@ == report.counts@.words
            },
    {
        let m1 = report.counts.ngrams.get(1);
        let m2 = report.counts.ngrams.get(2);
        let m3 = report.counts.ngrams.get(3);
        match (m1, m2, m3) {
            (Some(a), Some(b), Some(c)) => Some(
                CminiLanguageData {
                    monograms: a.duplicate(),
                    bigrams: b.duplicate(),
                    trigrams: c.duplicate(),
                    words: report.counts.words.duplicate(),
                },
            ),
            _ => None,
        }
    }
}

} // verus!
