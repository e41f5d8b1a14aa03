use corporalyser::countable::Countable;
use corporalyser::counting::{analyse, count_corpus, count_words, merge_owned};

fn gram(s: &str) -> Countable {
    Countable::from_str_ref(s)
}

fn strs(v: &[&str]) -> Vec<String> {
    v.iter().map(|s| s.to_string()).collect()
}

#[test]
fn test_analyse() {
    let sentences = strs(&["Insp", "Brn", "Su"]);
    let ngram_ns: Vec<usize> = vec![1, 2, 3];
    let skipgram_ns: Vec<usize> = vec![];

    let ngrams = analyse(&sentences, &ngram_ns, &skipgram_ns);

    let ones = ngrams.ngrams.get(1).unwrap();
    assert_eq!(ones.get_count(&gram("n")), 2);
    assert_eq!(ones.get_count(&gram("r")), 1);
    assert_eq!(ones.get_count(&gram("s")), 1);
    assert_eq!(ones.get_count(&gram("p")), 1);
    assert_eq!(ones.get_count(&gram("I")), 1);
    assert_eq!(ones.get_count(&gram("S")), 1);
    assert_eq!(ones.get_count(&gram("u")), 1);
    assert_eq!(ones.get_count(&gram("B")), 1);
    assert_eq!(ones.len(), 8);

    let twos = ngrams.ngrams.get(2).unwrap();
    assert_eq!(twos.get_count(&gram("In")), 1);
    assert_eq!(twos.get_count(&gram("ns")), 1);
    assert_eq!(twos.get_count(&gram("sp")), 1);
    assert_eq!(twos.get_count(&gram("Br")), 1);
    assert_eq!(twos.get_count(&gram("rn")), 1);
    assert_eq!(twos.get_count(&gram("Su")), 1);
    assert_eq!(twos.len(), 6);

    let threes = ngrams.ngrams.get(3).unwrap();
    assert_eq!(threes.get_count(&gram("Ins")), 1);
    assert_eq!(threes.get_count(&gram("nsp")), 1);
    assert_eq!(threes.get_count(&gram("Brn")), 1);
    // "Su" is too short for any 3-gram.
    assert_eq!(threes.get_count(&gram("Su")), 0);
    assert_eq!(threes.len(), 3);
}

#[test]
fn skipgram_takes_first_and_last_of_each_window() {
    let sentences = strs(&["abcd"]);
    let r = analyse(&sentences, &vec![], &vec![1usize]);
    let skips = r.skipgrams.get(1).unwrap();
    // windows of size 3: "abc" -> "ac", "bcd" -> "bd"
    assert_eq!(skips.get_count(&gram("ac")), 1);
    assert_eq!(skips.get_count(&gram("bd")), 1);
    assert_eq!(skips.len(), 2);
}

#[test]
fn empty_corpus_has_every_ordinate_present_and_empty() {
    let sentences: Vec<String> = vec![];
    let r = analyse(&sentences, &vec![1usize, 2usize], &vec![1usize]);
    assert_eq!(r.ngrams.get(1).unwrap().len(), 0);
    assert_eq!(r.ngrams.get(2).unwrap().len(), 0);
    assert_eq!(r.skipgrams.get(1).unwrap().len(), 0);
}

#[test]
fn short_sentences_contribute_nothing_for_large_windows() {
    let sentences = strs(&["ab"]);
    let r = analyse(&sentences, &vec![3usize], &vec![1usize]);
    assert_eq!(r.ngrams.get(3).unwrap().len(), 0);
    assert_eq!(r.skipgrams.get(1).unwrap().len(), 0);
}

#[test]
fn grapheme_clusters_count_as_one_character() {
    // "e" followed by a combining acute accent is one grapheme cluster.
    let sentences = strs(&["e\u{301}x"]);
    let r = analyse(&sentences, &vec![1usize, 2usize], &vec![]);
    let ones = r.ngrams.get(1).unwrap();
    assert_eq!(ones.len(), 2);
    assert_eq!(ones.get_count(&gram("e\u{301}")), 1);
    assert_eq!(ones.get_count(&gram("x")), 1);
    let twos = r.ngrams.get(2).unwrap();
    assert_eq!(twos.len(), 1);
    assert_eq!(twos.get_count(&gram("e\u{301}x")), 1);
}

#[test]
fn merge_is_commutative_and_associative() {
    let ns: Vec<usize> = vec![1, 2];
    let ks: Vec<usize> = vec![1];
    let a = analyse(&strs(&["abcab"]), &ns, &ks);
    let b = analyse(&strs(&["bcd", "a"]), &ns, &ks);
    let c = analyse(&strs(&["ddd"]), &ns, &ks);

    let mut ab = a.clone();
    ab.merge_from(&b);
    let mut ba = b.clone();
    ba.merge_from(&a);
    assert!(ab.counts_match(&ba));

    let mut ab_c = ab.clone();
    ab_c.merge_from(&c);
    let mut bc = b.clone();
    bc.merge_from(&c);
    let mut a_bc = a.clone();
    a_bc.merge_from(&bc);
    assert!(ab_c.counts_match(&a_bc));
}

#[test]
fn chunked_counting_matches_whole_corpus() {
    let ns: Vec<usize> = vec![1, 2, 3];
    let ks: Vec<usize> = vec![1, 2];
    let all = strs(&["the quick", "brown fox", "jumps", "over the lazy dog"]);
    let whole = count_corpus(&all, &ns, &ks);

    let c1 = count_corpus(&strs(&["the quick"]), &ns, &ks);
    let c2 = count_corpus(&strs(&["brown fox", "jumps"]), &ns, &ks);
    let c3 = count_corpus(&strs(&["over the lazy dog"]), &ns, &ks);
    let merged = merge_owned(merge_owned(c1, c2), c3);
    assert!(whole.counts_match(&merged));

    // the parallel entry point agrees with the sequential count
    let parallel = analyse(&all, &ns, &ks);
    assert!(parallel.counts_match(&whole));
}

#[test]
fn analyse_output_is_sorted_descending() {
    let r = analyse(&strs(&["aab", "ab"]), &vec![1usize], &vec![]);
    let ones = r.ngrams.get(1).unwrap();
    for i in 1..ones.len() {
        assert!(ones.count_at(i - 1) >= ones.count_at(i));
    }
    assert_eq!(ones.count_at(0), 3); // 'a' occurs three times
}

#[test]
fn count_words_counts_each_token_once() {
    let words = count_words(&strs(&["the", "cat", "the"]));
    assert_eq!(words.get_count(&gram("the")), 2);
    assert_eq!(words.get_count(&gram("cat")), 1);
    assert_eq!(words.len(), 2);
}
