use corporalyser::countable::Countable;
use corporalyser::occurrence::CountMap;
use corporalyser::transforms::{
    check_nonlatin, check_numeric, check_punctuation, check_whitespace, CharClass,
    TransformSpecification,
};

fn gram(s: &str) -> Countable {
    Countable::from_str_ref(s)
}

#[test]
fn test_into_iterator_to_occurances() {
    let src: Vec<Countable> = vec![gram("aa"), gram("bb"), gram("aa")];
    let mut occurances = CountMap::new();
    for g in src {
        occurances.add_count(g, 1);
    }

    assert_eq!(occurances.get_count(&gram("aa")), 2); // "aa" occurs twice
    assert_eq!(occurances.get_count(&gram("bb")), 1); // "bb" occurs once
}

#[test]
fn test_strip() {
    let mut occurances_replace = CountMap::new();
    occurances_replace.add_count(gram("a "), 2);
    occurances_replace.add_count(gram("a"), 1);
    let mut occurances_strip = CountMap::new();
    occurances_strip.add_count(gram("a "), 2);
    occurances_strip.add_count(gram("a"), 1);

    occurances_replace.strip(true, &CharClass::Whitespace);
    occurances_strip.strip(false, &CharClass::Whitespace);

    assert_eq!(occurances_replace.get_count(&gram("a")), 3);
    assert_eq!(occurances_strip.get_count(&gram("a")), 1);
}

#[test]
fn strip_can_produce_empty_key() {
    let mut m = CountMap::new();
    m.add_count(gram("  "), 4);
    m.add_count(gram("b"), 1);
    m.strip(true, &CharClass::Whitespace);
    assert_eq!(m.get_count(&gram("")), 4);
    assert_eq!(m.get_count(&gram("b")), 1);
}

#[test]
fn countable_equality_is_character_exact() {
    assert!(gram("abc").eq_gram(&gram("abc")));
    assert!(!gram("abc").eq_gram(&gram("Abc")));
    assert!(!gram("a").eq_gram(&gram("ab")));
    assert_eq!(gram("abc"), gram("abc"));
    assert_ne!(gram("abc"), gram("abd"));
}

#[test]
fn check_functions_report_change_and_filtered_key() {
    let (changed, stripped) = check_whitespace(&gram("a b"));
    assert!(changed);
    assert!(stripped.eq_gram(&gram("ab")));

    let (changed, stripped) = check_whitespace(&gram("ab"));
    assert!(!changed);
    assert!(stripped.eq_gram(&gram("ab")));

    let (changed, stripped) = check_punctuation(&gram("a!?"));
    assert!(changed);
    assert!(stripped.eq_gram(&gram("a")));

    let (changed, stripped) = check_numeric(&gram("a12b"));
    assert!(changed);
    assert!(stripped.eq_gram(&gram("ab")));

    let (changed, stripped) = check_nonlatin(&gram("a\u{e9}1"));
    assert!(changed);
    assert!(stripped.eq_gram(&gram("a1")));
}

#[test]
fn transform_strips_grams_and_rewrites_words() {
    let mut a = corporalyser::counting::analyse(
        &vec!["a b".to_string()],
        &vec![1usize, 2usize],
        &vec![],
    );
    a.words = corporalyser::counting::count_words(&vec!["a.".to_string(), "a".to_string()]);
    let spec = TransformSpecification {
        strip_whitespace: true,
        strip_punctuation: true,
        strip_numbers: false,
        strip_nonlatin: false,
    };
    a.transform(&spec);
    // 2-grams "a ", " b" contained whitespace and are dropped entirely.
    let bigrams = a.ngrams.get(2).unwrap();
    assert_eq!(bigrams.len(), 0);
    // 1-grams keep only "a" and "b"; the " " entry is dropped.
    let monograms = a.ngrams.get(1).unwrap();
    assert_eq!(monograms.len(), 2);
    assert_eq!(monograms.get_count(&gram("a")), 1);
    assert_eq!(monograms.get_count(&gram("b")), 1);
    // words: "a." is rewritten to "a" and merged with the existing "a".
    assert_eq!(a.words.get_count(&gram("a")), 2);
    assert_eq!(a.words.len(), 1);
}

#[test]
fn transform_is_idempotent_per_flag() {
    let sentences = vec!["ab 1c.".to_string(), "x y!".to_string()];
    let mut once = corporalyser::counting::analyse(&sentences, &vec![1usize, 2usize], &vec![1usize]);
    once.words = corporalyser::counting::count_words(&vec!["ab.".to_string(), "x".to_string()]);
    let mut twice = once.clone();

    once.strip(&CharClass::Whitespace);
    twice.strip(&CharClass::Whitespace);
    twice.strip(&CharClass::Whitespace);
    assert!(once.counts_match(&twice));

    once.strip(&CharClass::Punctuation);
    twice.strip(&CharClass::Punctuation);
    twice.strip(&CharClass::Punctuation);
    assert!(once.counts_match(&twice));

    once.strip(&CharClass::Numeric);
    twice.strip(&CharClass::Numeric);
    twice.strip(&CharClass::Numeric);
    assert!(once.counts_match(&twice));

    once.strip(&CharClass::NonLatin);
    twice.strip(&CharClass::NonLatin);
    twice.strip(&CharClass::NonLatin);
    assert!(once.counts_match(&twice));
}

#[test]
fn sort_orders_descending_and_keeps_counts() {
    let mut m = CountMap::new();
    m.add_count(gram("x"), 1);
    m.add_count(gram("y"), 5);
    m.add_count(gram("z"), 3);
    m.sort_desc();
    assert_eq!(m.len(), 3);
    assert!(m.count_at(0) >= m.count_at(1));
    assert!(m.count_at(1) >= m.count_at(2));
    assert_eq!(m.get_count(&gram("y")), 5);
    assert_eq!(m.get_count(&gram("z")), 3);
    assert_eq!(m.get_count(&gram("x")), 1);
}

#[test]
fn saturating_merge_caps_at_max() {
    let mut a = CountMap::new();
    a.add_count(gram("k"), u64::MAX - 1);
    let mut b = CountMap::new();
    b.add_count(gram("k"), 5);
    a.merge_from(&b);
    assert_eq!(a.get_count(&gram("k")), u64::MAX);
}
