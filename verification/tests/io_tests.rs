use corporalyser::codec::{decode_analysis, encode_analysis};
use corporalyser::corpus::{extract_sentences, is_sentences_file};
use corporalyser::countable::Countable;
use corporalyser::counting::{analyse, count_words};
use corporalyser::digest::{digest_sha256, should_reanalyse};

fn gram(s: &str) -> Countable {
    Countable::from_str_ref(s)
}

fn strs(v: &[&str]) -> Vec<String> {
    v.iter().map(|s| s.to_string()).collect()
}

#[test]
fn codec_round_trips_an_analysis() {
    let mut a = analyse(&strs(&["Insp", "Brn", "Su"]), &vec![1usize, 2, 3], &vec![1usize]);
    a.words = count_words(&strs(&["insp", "brn", "insp"]));
    let bytes = encode_analysis(&a);
    let b = decode_analysis(&bytes).unwrap();
    assert!(a.counts_match(&b));
    // and the entry order is preserved exactly
    let a1 = a.ngrams.get(1).unwrap();
    let b1 = b.ngrams.get(1).unwrap();
    assert_eq!(a1.len(), b1.len());
    for i in 0..a1.len() {
        assert!(a1.gram_at(i).eq_gram(b1.gram_at(i)));
        assert_eq!(a1.count_at(i), b1.count_at(i));
    }
}

#[test]
fn codec_round_trips_the_empty_analysis() {
    let a = analyse(&Vec::new(), &vec![1usize], &vec![1usize]);
    let bytes = encode_analysis(&a);
    let b = decode_analysis(&bytes).unwrap();
    assert!(a.counts_match(&b));
}

#[test]
fn decoding_garbage_fails() {
    assert!(decode_analysis(&vec![]).is_none());
    assert!(decode_analysis(&vec![1, 2, 3]).is_none());
    let a = analyse(&strs(&["ab"]), &vec![1usize], &vec![]);
    let mut bytes = encode_analysis(&a);
    bytes.push(0); // a trailing byte must be rejected
    assert!(decode_analysis(&bytes).is_none());
}

#[test]
fn extract_sentences_splits_lowercases_and_skips_malformed() {
    let lines = strs(&["1\tHeLLo World", "junk without tab", "2\tSecond"]);
    let sentences = extract_sentences(&lines).unwrap();
    assert_eq!(sentences, strs(&["hello world", "second"]));
}

#[test]
fn extract_sentences_accepts_an_empty_corpus() {
    let sentences = extract_sentences(&Vec::new()).unwrap();
    assert!(sentences.is_empty());
}

#[test]
fn extract_sentences_rejects_all_malformed_input() {
    let err = extract_sentences(&strs(&["no tab here", "none here either"])).unwrap_err();
    assert!(err.is_malformed_input());
}

#[test]
fn sha256_digest_matches_known_vector() {
    let data: Vec<u8> = b"abc".to_vec();
    assert_eq!(
        digest_sha256(&data),
        "BA7816BF8F01CFEA414140DE5DAE2223B00361A396177A9CB410FF61F20015AD".to_string()
    );
    let empty: Vec<u8> = Vec::new();
    assert_eq!(
        digest_sha256(&empty),
        "E3B0C44298FC1C149AFBF4C8996FB92427AE41E4649B934CA495991B7852B855".to_string()
    );
}

#[test]
fn should_reanalyse_compares_digests() {
    let current = "AA".to_string();
    let same = "AA".to_string();
    let other = "BB".to_string();
    assert!(!should_reanalyse(false, Some(&same), &current));
    assert!(should_reanalyse(false, Some(&other), &current));
    assert!(should_reanalyse(false, None, &current));
    assert!(should_reanalyse(true, Some(&same), &current));
}

#[test]
fn sentence_file_names_are_recognised() {
    assert!(is_sentences_file(&"eng_news-sentences.txt".to_string()));
    assert!(!is_sentences_file(&"sentences.txt".to_string()));
    assert!(!is_sentences_file(&"eng_news-words.txt".to_string()));
    assert!(!is_sentences_file(&"short".to_string()));
}

#[test]
fn countable_string_round_trip() {
    let g = gram("He\u{301}llo");
    assert_eq!(g.to_string(), "He\u{301}llo".to_string());
    let back = Countable::from_string(&g.to_string());
    assert!(back.eq_gram(&g));
}
