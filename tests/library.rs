use scores::bigrams::Bigrams;
use scores::pattern::pattern_source;
use scores::scorer::sort_matches;
use scores::{Anchor, Ratio, Score, Scorer};

fn lines(items: &[&str]) -> Vec<String> {
    items.iter().map(|s| s.to_string()).collect()
}

#[test]
fn bigram_counts() {
    assert_eq!(Bigrams::build("hello").len(), 4);
    assert_eq!(Bigrams::build("h").len(), 0);
    assert!(Bigrams::build("").is_empty());
    assert!(Bigrams::new().is_empty());
}

#[test]
fn insert_after_clear_rebuilds() {
    let mut set = Bigrams::build("abcdef");
    set.clear();
    assert!(set.is_empty());
    set.insert("night");
    let other = Bigrams::build("night");
    assert_eq!(set.similarity(&other), Ratio { num: 8, den: 8 });
}

#[test]
fn similarity_exact_value() {
    // night: ni ig gh ht; nacht: na ac ch ht; one bigram in common
    let a = Bigrams::build("night");
    let b = Bigrams::build("nacht");
    assert_eq!(a.similarity(&b), Ratio { num: 2, den: 8 });
}

#[test]
fn similarity_counts_repeated_bigrams() {
    let a = Bigrams::build("aaaa");
    let b = Bigrams::build("aa");
    assert_eq!(a.similarity(&b), Ratio { num: 2, den: 4 });
}

#[test]
fn similarity_is_symmetric() {
    let a = Bigrams::build("app/assets/main.js");
    let b = Bigrams::build("test/assets/main.rs");
    assert_eq!(a.similarity(&b), b.similarity(&a));
}

#[test]
fn similarity_of_text_with_itself_is_one() {
    let a = Bigrams::build("abcabcab");
    let b = Bigrams::build("abcabcab");
    let r = a.similarity(&b);
    assert_eq!(r.num, r.den);
    assert!(r.den > 0);
}

#[test]
fn similarity_of_single_characters_is_zero() {
    let a = Bigrams::build("x");
    let b = Bigrams::build("x");
    assert_eq!(a.similarity(&b), Ratio { num: 0, den: 1 });
}

#[test]
fn anchor_score_exact_and_repeatable() {
    let mut anchor = Anchor::new("nacht");
    assert_eq!(anchor.score("night"), Ratio { num: 2, den: 8 });
    assert_eq!(anchor.score("nacht"), Ratio { num: 8, den: 8 });
    assert_eq!(anchor.score("night"), Ratio { num: 2, den: 8 });
}

#[test]
fn pattern_of_plain_term() {
    let (p, insensitive) = pattern_source("abc").unwrap();
    assert_eq!(p, "a[^b]*b[^c]*c");
    assert!(insensitive);
}

#[test]
fn pattern_escapes_meta_characters() {
    let (p, insensitive) = pattern_source("a.b").unwrap();
    assert_eq!(p, "a[^\\.]*\\.[^b]*b");
    assert!(insensitive);
}

#[test]
fn pattern_with_uppercase_is_case_sensitive() {
    let (p, insensitive) = pattern_source("aB").unwrap();
    assert_eq!(p, "a[^B]*B");
    assert!(!insensitive);
    let (_, insensitive) = pattern_source("Ab").unwrap();
    assert!(!insensitive);
}

#[test]
fn pattern_of_single_character() {
    let (p, insensitive) = pattern_source("x").unwrap();
    assert_eq!(p, "x");
    assert!(insensitive);
}

#[test]
fn pattern_of_empty_term_is_none() {
    assert!(pattern_source("").is_none());
}

#[test]
fn score_exact_closeness() {
    let mut scorer = Scorer::new("hello", None);
    let s = scorer.score("hello").unwrap();
    // span 5 bytes, line 5 bytes: 100 / (100 * 6 + 6)
    assert_eq!(s.regex, Ratio { num: 100, den: 606 });
    assert_eq!(s.similarity, Ratio { num: 0, den: 1 });
    let s = scorer.score("-hel-lo").unwrap();
    assert_eq!(s.regex, Ratio { num: 100, den: 100 * 7 + 8 });
}

#[test]
fn score_gap_skips_until_next_character() {
    let mut scorer = Scorer::new("ab", None);
    let s = scorer.score("xaxxbab").unwrap();
    // leftmost match "axxb" at 1..5
    assert_eq!(s.regex, Ratio { num: 100, den: 100 * 5 + 8 });
}

#[test]
fn score_with_anchor_similarity() {
    let mut scorer = Scorer::new("ht", Some(Anchor::new("nacht")));
    let s = scorer.score("night").unwrap();
    assert_eq!(s.similarity, Ratio { num: 2, den: 8 });
}

#[test]
fn score_term_longer_than_line_in_bytes() {
    let mut scorer = Scorer::new("abc", None);
    assert!(scorer.score("ab").is_none());
    assert!(scorer.score("xyz").is_none());
}

#[test]
fn of_match_exact() {
    let s = Score::of_match(2, 5, 10, Ratio { num: 1, den: 2 });
    assert_eq!(s.regex, Ratio { num: 100, den: 100 * 4 + 11 });
    assert_eq!(s.similarity, Ratio { num: 1, den: 2 });
}

#[test]
fn value_with_equal_bounds() {
    let s = Score::of_match(0, 5, 5, Ratio { num: 1, den: 4 });
    assert_eq!(s.value(606, 606), 90000 + 2500);
}

#[test]
fn value_normalises_between_bounds() {
    let best = Score::of_match(0, 1, 1, Ratio { num: 0, den: 1 });
    let worst = Score::of_match(0, 3, 3, Ratio { num: 1, den: 1 });
    let lo = best.regex.den; // 202
    let hi = worst.regex.den; // 404
    assert_eq!(lo, 202);
    assert_eq!(hi, 404);
    assert_eq!(best.value(lo, hi), 90000);
    assert_eq!(worst.value(lo, hi), 10000);
    let mid = Score::of_match(0, 2, 2, Ratio { num: 0, den: 1 });
    // den 303: 90000 * (404 - 303) * 202 / ((404 - 202) * 303) = 30000
    assert_eq!(mid.regex.den, 303);
    assert_eq!(mid.value(lo, hi), 30000);
}

#[test]
fn sort_matches_orders_by_key_then_input() {
    let a = Score::of_match(0, 3, 3, Ratio { num: 0, den: 1 });
    let b = Score::of_match(0, 1, 1, Ratio { num: 0, den: 1 });
    let c = Score::of_match(0, 3, 3, Ratio { num: 0, den: 1 });
    let entries = vec![("a".to_string(), a), ("b".to_string(), b), ("c".to_string(), c)];
    let r = sort_matches(&entries, 202, 404);
    let names: Vec<&str> = r.iter().map(|e| e.0.as_str()).collect();
    assert_eq!(names, vec!["b", "a", "c"]);
}

#[test]
fn rank_drops_non_matches_and_orders() {
    let mut scorer = Scorer::new("hello", None);
    let r = scorer.rank(lines(&["xyz", "hellolo", "h-e-l-l-o", "hello", "hi"]));
    let names: Vec<&str> = r.iter().map(|e| e.0.as_str()).collect();
    assert_eq!(names, vec!["hello", "hellolo", "h-e-l-l-o"]);
    assert!(r.len() <= 5);
}

#[test]
fn rank_keys_do_not_increase() {
    let mut scorer = Scorer::new("ab", Some(Anchor::new("ab.rs")));
    let r = scorer.rank(lines(&["a--b", "ab", "xab.rs", "a-b", "ba", "zzz"]));
    let lo = r.iter().map(|e| e.1.regex.den).min().unwrap();
    let hi = r.iter().map(|e| e.1.regex.den).max().unwrap();
    let keys: Vec<u32> = r.iter().map(|e| e.1.value(lo, hi)).collect();
    for w in keys.windows(2) {
        assert!(w[0] >= w[1]);
    }
    assert_eq!(r.len(), 4);
}

#[test]
fn rank_with_empty_term_is_empty() {
    let mut scorer = Scorer::new("", None);
    assert!(scorer.rank(lines(&["a", "b"])).is_empty());
}

#[test]
fn rank_with_case_sensitive_term() {
    let mut scorer = Scorer::new("Ab", None);
    let r = scorer.rank(lines(&["ab", "Ab", "AB", "xAyb"]));
    let names: Vec<&str> = r.iter().map(|e| e.0.as_str()).collect();
    assert_eq!(names, vec!["Ab", "xAyb"]);
}

#[test]
fn rank_ties_keep_input_order() {
    let mut scorer = Scorer::new("ab", None);
    let r = scorer.rank(lines(&["abx", "xab", "ab"]));
    let names: Vec<&str> = r.iter().map(|e| e.0.as_str()).collect();
    assert_eq!(names, vec!["ab", "abx", "xab"]);
}

#[test]
fn value_truncates_the_weighted_sum_once() {
    let s = Score { regex: Ratio { num: 100, den: 2 }, similarity: Ratio { num: 1, den: 20000 } };
    assert_eq!(s.value(1, 90001), 45000);
}

#[test]
fn score_compares_lengths_in_characters() {
    let mut scorer = Scorer::new("éa", None);
    assert!(scorer.score("xéya").is_some());
    assert!(scorer.score("é").is_none());
}

#[test]
fn rank_keeps_every_match_with_its_own_score() {
    let mut scorer = Scorer::new("hello", None);
    let r = scorer.rank(lines(&["hellolo", "hello", "xyz", "--hello"]));
    let names: Vec<&str> = r.iter().map(|e| e.0.as_str()).collect();
    assert_eq!(names, vec!["hello", "hellolo", "--hello"]);
    for (text, s) in &r {
        assert_eq!(s.similarity, Ratio { num: 0, den: 1 });
        let own = Scorer::new("hello", None).score(text).unwrap();
        assert_eq!(s.regex, own.regex);
    }
}

#[test]
fn rank_twice_agrees() {
    let mut scorer = Scorer::new("ab", Some(Anchor::new("ab.rs")));
    let input = lines(&["a--b", "ab", "xab.rs", "a-b", "ba", "zzz"]);
    let first = scorer.rank(input.clone());
    let second = scorer.rank(input);
    assert_eq!(first.len(), second.len());
    for (a, b) in first.iter().zip(second.iter()) {
        assert_eq!(a.0, b.0);
        assert_eq!(a.1.regex, b.1.regex);
        assert_eq!(a.1.similarity, b.1.similarity);
    }
}

#[test]
fn value_is_exact_for_the_longest_lines() {
    let hi: u128 = 101 * (1u128 << 64);
    let lo: u128 = (1u128 << 64) + 5;
    let similarity = Ratio { num: (1u128 << 63) + 11, den: (1u128 << 64) + 7 };
    let s = Score { regex: Ratio { num: 100, den: 3 * (1u128 << 64) + 12345 }, similarity };
    assert_eq!(s.value(lo, hi), 34399);
    let worst = Score { regex: Ratio { num: 100, den: hi }, similarity };
    assert_eq!(worst.value(lo, hi), 5000);
    let best = Score { regex: Ratio { num: 100, den: lo }, similarity };
    assert_eq!(best.value(lo, hi), 95000);
}

#[test]
fn value_grows_with_closeness_and_similarity() {
    let near = Score::of_match(0, 2, 2, Ratio { num: 1, den: 2 });
    let far = Score::of_match(0, 3, 3, Ratio { num: 1, den: 4 });
    let (lo, hi) = (202, 404);
    assert!(far.value(lo, hi) <= near.value(lo, hi));
    assert_eq!(near.value(lo, hi), 30000 + 5000);
    assert_eq!(far.value(lo, hi), 2500);
}
