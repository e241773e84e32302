use scores::bigrams::Bigrams;
use scores::{Anchor, Ratio, Scorer};

fn as_f32(r: Ratio) -> f32 {
    r.num as f32 / r.den as f32
}


#[test]
fn it_awards_more_points_for_similar_paths() {
    let mut anchor = Anchor::new("app/assets/modules/test.js");
    let a = as_f32(anchor.score("app/assets/modules/hello.js"));
    let b = as_f32(anchor.score("test/assets/modules/hello.js"));
    assert!(a > 0.0);
    assert!(b > 0.0);
    assert!(a > b);
}

#[test]
fn it_awards_no_score_for_short_text() {
    let a = Bigrams::build("h");
    let b = Bigrams::build("hello");
    assert_eq!(0.0, as_f32(a.similarity(&b)));
    assert_eq!(0.0, as_f32(b.similarity(&a)));
}

#[test]
fn it_awards_full_score_for_identical_text() {
    let a = Bigrams::build("hello");
    let b = Bigrams::build("hello");
    assert_eq!(1.0, as_f32(a.similarity(&b)));
}

#[test]
fn it_awards_more_points_for_closer_matches() {
    let a = Bigrams::build("he");
    let b = Bigrams::build("hello");
    let c = Bigrams::build("helo");
    assert!(as_f32(a.similarity(&b)) > 0.0);
    assert!(as_f32(c.similarity(&b)) > 0.0);
    assert!(as_f32(c.similarity(&b)) > as_f32(a.similarity(&b)));
}

#[test]
fn it_awards_no_points_for_empty_term() {
    let mut scorer = Scorer::new("", None);
    assert!(scorer.score("hello").is_none())
}

#[test]
fn it_awards_no_points_for_empty_input() {
    let mut scorer = Scorer::new("hello", None);
    assert!(scorer.score("").is_none());
}

#[test]
fn it_awards_no_points_for_term_longer_than_input() {
    let mut scorer = Scorer::new("hello", None);
    assert!(scorer.score("hi").is_none());
}

#[test]
fn it_awards_more_points_for_exact_match_than_close_match() {
    let mut scorer = Scorer::new("hello", None);
    let a = scorer.score("hello").unwrap();
    let b = scorer.score("hellolo").unwrap();
    assert!(as_f32(a.regex) > 0.0);
    assert!(as_f32(b.regex) > 0.0);
    assert!(as_f32(a.regex) > as_f32(b.regex));
}

#[test]
fn it_awards_more_points_for_shorter_match_range() {
    let mut scorer = Scorer::new("hello", None);
    let a = scorer.score("-hel-lo").unwrap();
    let b = scorer.score("hel--lo").unwrap();
    assert!(as_f32(a.regex) > 0.0);
    assert!(as_f32(b.regex) > 0.0);
    assert!(as_f32(a.regex) > as_f32(b.regex));
}

#[test]
fn it_awards_more_points_for_shorter_input() {
    let mut scorer = Scorer::new("hello", None);
    let a = scorer.score("-hello").unwrap();
    let b = scorer.score("--hello").unwrap();
    assert!(as_f32(a.regex) > 0.0);
    assert!(as_f32(b.regex) > 0.0);
    assert!(as_f32(a.regex) > as_f32(b.regex));
}

#[test]
fn it_matches_case_insensitively() {
    let mut scorer = Scorer::new("hello", None);
    let a = scorer.score("Hello").unwrap();
    let b = scorer.score("hello").unwrap();
    assert!(as_f32(a.regex) > 0.0);
    assert_eq!(as_f32(a.regex), as_f32(b.regex));
}

#[test]
fn it_matches_case_sensitively() {
    let mut scorer = Scorer::new("Hello", None);
    let a = scorer.score("Hello");
    let b = scorer.score("hello");
    assert!(a.is_some());
    assert!(b.is_none());
    assert!(as_f32(a.unwrap().regex) > 0.0);
}
