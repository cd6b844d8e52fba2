use search_engine::model::Model;
use search_engine::ranking::{precedes, rank, search, str_le, top, Ranked, API_RESULTS, CLI_RESULTS};
use search_engine::searcher::{
    compute_idf, compute_search, compute_tf, compute_weights, is_zero, Ratio, Scored, Weight,
};
use search_engine::server::{
    find_char, parse_query, parse_url, query_value, serve_request, split_chars_once, status_code,
    Method, Reply,
};

fn example() -> Model {
    let mut model = Model::new();
    model.add_document("A".to_string(), "cat cat cat dog");
    model.add_document("B".to_string(), "dog dog dog dog dog");
    model
}

fn value(weights: &[Weight]) -> f32 {
    let mut score = 0.0;
    for w in weights {
        let tf = w.tf.numerator as f32 / w.tf.denominator as f32;
        let idf = (w.idf.numerator as f32 / w.idf.denominator as f32).log10();
        score += tf * idf;
    }
    score
}

fn keyed(scored: Vec<Scored>) -> Vec<Ranked> {
    scored.into_iter().map(|s| Ranked { key: value(&s.weights).to_bits(), id: s.id }).collect()
}

fn ids(ranked: &[Ranked]) -> Vec<&str> {
    ranked.iter().map(|r| r.id.as_str()).collect()
}

fn entry(id: &str, key: u32) -> Ranked {
    Ranked { id: id.to_string(), key }
}

fn pairs(items: &[(&str, &str)]) -> Vec<(String, String)> {
    items.iter().map(|(k, v)| (k.to_string(), v.to_string())).collect()
}

#[test]
fn term_frequency_is_count_over_length() {
    let model = example();
    let a = model.doc_index().get("A").unwrap();
    assert_eq!(compute_tf("CAT", a), Ratio { numerator: 3, denominator: 4 });
    assert_eq!(compute_tf("DOG", a), Ratio { numerator: 1, denominator: 4 });
    assert_eq!(compute_tf("BIRD", a), Ratio { numerator: 0, denominator: 4 });
}

#[test]
fn term_frequency_in_an_empty_document_is_zero() {
    let mut model = Model::new();
    model.add_document("E".to_string(), "");
    let e = model.doc_index().get("E").unwrap();
    assert_eq!(compute_tf("CAT", e), Ratio { numerator: 0, denominator: 1 });
}

#[test]
fn inverse_document_frequency_is_never_negative() {
    let model = example();
    assert_eq!(compute_idf("CAT", &model), Ratio { numerator: 3, denominator: 2 });
    assert_eq!(compute_idf("DOG", &model), Ratio { numerator: 3, denominator: 3 });
    assert_eq!(compute_idf("BIRD", &model), Ratio { numerator: 3, denominator: 1 });
    for term in ["CAT", "DOG", "BIRD"] {
        let idf = compute_idf(term, &model);
        let log = (idf.numerator as f32 / idf.denominator as f32).log10();
        assert!(log >= 0.0);
        assert_eq!(log == 0.0, model.frequency_of(term) == model.len());
    }
    assert_eq!(compute_idf("CAT", &Model::new()), Ratio { numerator: 1, denominator: 1 });
}

#[test]
fn the_document_with_the_term_ranks_first() {
    let model = example();
    let scored = compute_search("cat", &model);
    assert_eq!(scored.len(), 2);
    assert_eq!(scored[0].id, "A");
    assert_eq!(
        scored[0].weights,
        vec![Weight {
            tf: Ratio { numerator: 3, denominator: 4 },
            idf: Ratio { numerator: 3, denominator: 2 },
        }]
    );
    assert_eq!(scored[1].id, "B");
    assert!((value(&scored[0].weights) - 0.132).abs() < 0.0005);
    assert!(((1.5f32).log10() - 0.176).abs() < 0.0005);
    assert_eq!(value(&scored[1].weights), 0.0);
    assert!(is_zero(&scored[1].weights));
    assert!(!is_zero(&scored[0].weights));
    let ranked = rank(keyed(scored));
    assert_eq!(ids(&ranked), vec!["A", "B"]);
}

#[test]
fn a_term_of_every_document_adds_nothing() {
    let model = example();
    let scored = model.search("dog");
    assert!(is_zero(&scored[0].weights));
    assert!(is_zero(&scored[1].weights));
    assert_eq!(value(&scored[0].weights), 0.0);
    let ranked = rank(keyed(model.search("dog cat")));
    assert_eq!(ids(&ranked), vec!["A", "B"]);
}

#[test]
fn every_term_of_the_query_gives_one_weight() {
    let model = example();
    let query = vec!["CAT".to_string(), "DOG".to_string(), "CAT".to_string()];
    let b = model.doc_index().get("B").unwrap();
    let weights = compute_weights(&query, b, &model);
    assert_eq!(weights.len(), 3);
    assert_eq!(weights[1].tf, Ratio { numerator: 5, denominator: 5 });
    assert_eq!(weights[0], weights[2]);
    let scored = compute_search("cat, dog", &model);
    assert_eq!(scored[0].weights.len(), 3);
}

#[test]
fn an_empty_query_gives_every_document_with_score_zero_in_id_order() {
    let mut model = Model::new();
    for id in ["m", "a", "z", "b"] {
        model.add_document(id.to_string(), "cat dog");
    }
    for phrase in ["", "   "] {
        let scored = compute_search(phrase, &model);
        assert_eq!(scored.len(), 4);
        for s in &scored {
            assert!(s.weights.is_empty());
            assert!(is_zero(&s.weights));
            assert_eq!(value(&s.weights), 0.0);
        }
        let ranked = rank(keyed(scored));
        assert_eq!(ids(&ranked), vec!["a", "b", "m", "z"]);
    }
}

#[test]
fn ranking_puts_larger_keys_first_and_ties_in_id_order() {
    let ranked = rank(vec![
        entry("d", 1),
        entry("b", 7),
        entry("c", 7),
        entry("a", 0),
        entry("a", 7),
        entry("e", 9),
    ]);
    assert_eq!(ids(&ranked), vec!["e", "a", "b", "c", "d", "a"]);
    assert_eq!(ranked[0].key, 9);
    assert_eq!(ranked[5].key, 0);
    assert!(rank(vec![]).is_empty());
}

#[test]
fn keys_of_scores_order_as_the_scores() {
    let scores = [0.0f32, 0.132, 0.5, 0.1320001, 1.0e-30, 3.5];
    let entries = scores.iter().enumerate().map(|(i, s)| entry(&format!("d{i}"), s.to_bits())).collect();
    let ranked = rank(entries);
    let back: Vec<f32> = ranked.iter().map(|r| f32::from_bits(r.key)).collect();
    assert_eq!(back, vec![3.5, 0.5, 0.1320001, 0.132, 1.0e-30, 0.0]);
}

#[test]
fn identifiers_are_ordered_character_by_character() {
    assert!(str_le("", ""));
    assert!(str_le("", "a"));
    assert!(!str_le("a", ""));
    assert!(str_le("a", "a"));
    assert!(str_le("a", "ab"));
    assert!(!str_le("ab", "a"));
    assert!(str_le("ab", "b"));
    assert!(!str_le("b", "ab"));
    assert!(str_le("Z", "a"));
    assert!(str_le("docs/a.html", "docs/b.html"));
    assert!(precedes(&entry("b", 2), &entry("a", 1)));
    assert!(precedes(&entry("a", 1), &entry("b", 1)));
    assert!(!precedes(&entry("b", 1), &entry("a", 1)));
    assert!(!precedes(&entry("a", 1), &entry("b", 2)));
}

#[test]
fn only_the_best_are_kept() {
    let entries = |n: u32| (0..n).map(|i| entry(&format!("d{i:02}"), i)).collect::<Vec<_>>();
    assert_eq!(CLI_RESULTS, 10);
    assert_eq!(API_RESULTS, 20);
    let best = search(entries(25), CLI_RESULTS);
    assert_eq!(best.len(), 10);
    assert_eq!(best[0].id, "d24");
    assert_eq!(best[9].id, "d15");
    assert_eq!(search(entries(25), API_RESULTS).len(), 20);
    assert_eq!(search(entries(3), API_RESULTS).len(), 3);
    assert_eq!(ids(&top(entries(3), 2)), vec!["d00", "d01"]);
    assert_eq!(top(entries(3), 0).len(), 0);
}

#[test]
fn a_target_is_split_into_path_and_query() {
    assert_eq!(parse_url("/api/search?q=cat"), ("/api/search".to_string(), Some(pairs(&[("q", "cat")]))));
    assert_eq!(parse_url("/api/search"), ("/api/search".to_string(), None));
    assert_eq!(parse_url("/api/search?"), ("/api/search".to_string(), None));
    assert_eq!(parse_url("/a?b?c=d"), ("/a".to_string(), Some(pairs(&[("b?c", "d")]))));
    assert_eq!(parse_url(""), ("".to_string(), None));
    assert_eq!(parse_url("?x"), ("".to_string(), Some(vec![])));
}

#[test]
fn a_query_is_split_into_pairs() {
    assert_eq!(parse_query("a=1&b&c=3=4&a=2"), pairs(&[("a", "1"), ("c", "3=4"), ("a", "2")]));
    assert_eq!(parse_query(""), vec![]);
    assert_eq!(parse_query("&&"), vec![]);
    assert_eq!(parse_query("=&k="), pairs(&[("", ""), ("k", "")]));
    assert_eq!(query_value(&parse_query("a=1&b&c=3=4&a=2"), "a"), Some("2".to_string()));
    assert_eq!(query_value(&parse_query("a=1&b&c=3=4&a=2"), "c"), Some("3=4".to_string()));
    assert_eq!(query_value(&parse_query("a=1&b&c=3=4&a=2"), "b"), None);
    let chars: Vec<char> = "a&b".chars().collect();
    assert_eq!(find_char(&chars, 0, '&'), 1);
    assert_eq!(find_char(&chars, 2, '&'), 3);
    assert_eq!(split_chars_once(&chars, '&'), Some(("a".to_string(), "b".to_string())));
    assert_eq!(split_chars_once(&chars, '='), None);
}

#[test]
fn a_search_request_is_answered_with_the_phrase() {
    assert!(matches!(
        serve_request(Method::Get, "/api/search?q=cat"),
        Reply::Search { keyword_phrase } if keyword_phrase == "cat"
    ));
    assert!(matches!(
        serve_request(Method::Get, "/api/search?x=1&q=cat%20dog&q=bird"),
        Reply::Search { keyword_phrase } if keyword_phrase == "bird"
    ));
    assert!(matches!(
        serve_request(Method::Get, "/api/search"),
        Reply::Search { keyword_phrase } if keyword_phrase.is_empty()
    ));
    assert!(matches!(
        serve_request(Method::Get, "/api/search?p=1"),
        Reply::Search { keyword_phrase } if keyword_phrase.is_empty()
    ));
    assert_eq!(status_code(&serve_request(Method::Get, "/api/search?q=cat")), 200);
}

#[test]
fn any_other_request_is_not_found() {
    assert!(matches!(serve_request(Method::Get, "/unknown"), Reply::NotFound));
    assert!(matches!(serve_request(Method::Get, "/"), Reply::NotFound));
    assert!(matches!(serve_request(Method::Get, "/api/search/"), Reply::NotFound));
    assert!(matches!(serve_request(Method::Other, "/api/search?q=cat"), Reply::NotFound));
    assert_eq!(status_code(&serve_request(Method::Get, "/unknown")), 404);
}

#[test]
fn a_search_request_finds_the_document_with_the_term() {
    let model = example();
    let reply = serve_request(Method::Get, "/api/search?q=cat");
    let phrase = match reply {
        Reply::Search { keyword_phrase } => keyword_phrase,
        Reply::NotFound => panic!("the request is a search"),
    };
    let best = search(keyed(model.search(&phrase)), API_RESULTS);
    assert_eq!(best[0].id, "A");
    assert!((f32::from_bits(best[0].key) - 0.132).abs() < 0.0005);
    assert_eq!(best.len(), 2);
}
