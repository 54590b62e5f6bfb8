use simstring_rust::{
    Alpha, CharacterNgrams, Cosine, Dice, ExactMatch, HashDb, Jaccard, Overlap, Score,
    SearchError, Searcher,
};

fn approx_eq(a: f64, b: f64) -> bool {
    (a - b).abs() < 1e-9
}

fn score_value(s: &Score) -> f64 {
    s.num as f64 / (s.den_sq as f64).sqrt()
}

#[test]
fn test_cosine_search_basic() {
    let feature_extractor = CharacterNgrams::new(2, "$");
    let measure = Cosine;
    let mut db = HashDb::new(feature_extractor);

    db.insert("foo".to_string());
    db.insert("bar".to_string());
    db.insert("fooo".to_string());

    let searcher = Searcher::new(&db, measure);
    let results = searcher.ranked_search("foo", &Alpha::new(4, 5)).unwrap();

    assert_eq!(results.len(), 2, "Expected 2 results");
    assert_eq!(results[0].0, "foo", "First result should be 'foo'");
    assert!(
        approx_eq(score_value(&results[0].1), 1.0),
        "Score for 'foo' should be 1.0, got {}",
        score_value(&results[0].1)
    );
    assert_eq!(results[1].0, "fooo", "Second result should be 'fooo'");
    assert!(
        approx_eq(score_value(&results[1].1), 0.8944271909999159),
        "Score for 'fooo' should be ~0.8944, got {}",
        score_value(&results[1].1)
    );
}

#[test]
fn test_dice_search_basic() {
    let feature_extractor = CharacterNgrams::new(2, "$");
    let measure = Dice;
    let mut db = HashDb::new(feature_extractor);

    db.insert("foo".to_string());
    db.insert("bar".to_string());
    db.insert("fooo".to_string());

    let searcher = Searcher::new(&db, measure);
    let results = searcher.ranked_search("foo", &Alpha::new(4, 5)).unwrap();

    assert_eq!(results.len(), 2, "Expected 2 results");
    assert_eq!(results[0].0, "foo", "First result should be 'foo'");
    assert!(approx_eq(score_value(&results[0].1), 1.0));
    assert_eq!(results[1].0, "fooo", "Second result should be 'fooo'");
    assert!(
        approx_eq(score_value(&results[1].1), 0.8888888888888888),
        "Score for 'fooo' should be ~0.8889, got {}",
        score_value(&results[1].1)
    );
}

#[test]
fn test_jaccard_search_basic() {
    let feature_extractor = CharacterNgrams::new(2, "$");
    let measure = Jaccard;
    let mut db = HashDb::new(feature_extractor);

    db.insert("foo".to_string());
    db.insert("bar".to_string());
    db.insert("fooo".to_string());

    let searcher = Searcher::new(&db, measure);
    let results = searcher.ranked_search("foo", &Alpha::new(4, 5)).unwrap();

    assert_eq!(results.len(), 2, "Expected 2 results");
    assert_eq!(results[0].0, "foo", "First result should be 'foo'");
    assert!(approx_eq(score_value(&results[0].1), 1.0));
    assert_eq!(results[1].0, "fooo", "Second result should be 'fooo'");
    assert!(
        approx_eq(score_value(&results[1].1), 0.8),
        "Score for 'fooo' should be 0.8, got {}",
        score_value(&results[1].1)
    );
}

#[test]
fn test_overlap_search_basic() {
    let feature_extractor = CharacterNgrams::new(2, "$");
    let measure = Overlap;
    let mut db = HashDb::new(feature_extractor);

    db.insert("foo".to_string());
    db.insert("bar".to_string());
    db.insert("fooo".to_string());

    let searcher = Searcher::new(&db, measure);
    let results = searcher.ranked_search("foo", &Alpha::new(4, 5)).unwrap();

    assert_eq!(results.len(), 2, "Expected 2 results");
    assert_eq!(results[0].0, "foo");
    assert!(approx_eq(score_value(&results[0].1), 1.0));
    assert_eq!(results[1].0, "fooo");
    assert!(approx_eq(score_value(&results[1].1), 1.0));
}

#[test]
fn test_exact_match_search_basic() {
    let feature_extractor = CharacterNgrams::new(2, "$");
    let measure = ExactMatch;
    let mut db = HashDb::new(feature_extractor);

    db.insert("foo".to_string());
    db.insert("bar".to_string());
    db.insert("fooo".to_string());

    let searcher = Searcher::new(&db, measure);

    let thresholds = [
        Alpha::new(1, 10),
        Alpha::new(1, 2),
        Alpha::new(9, 10),
        Alpha::new(1, 1),
    ];
    for threshold in thresholds.iter() {
        let results = searcher.ranked_search("foo", threshold).unwrap();
        assert_eq!(results.len(), 1, "Expected 1 result");
        assert_eq!(results[0].0, "foo", "Result should be 'foo'");
        assert!(
            approx_eq(score_value(&results[0].1), 1.0),
            "Score for 'foo' should be 1.0, got {}",
            score_value(&results[0].1)
        );
    }

    let results_none = searcher.ranked_search("baz", &Alpha::new(1, 2)).unwrap();
    assert!(results_none.is_empty(), "Expected no results for 'baz'");
}

#[test]
fn test_search_with_different_endmarkers_cosine() {
    let measure = Cosine;

    let fe_dollar = CharacterNgrams::new(2, "$");
    let mut db_dollar = HashDb::new(fe_dollar);
    db_dollar.insert("test".to_string());
    let searcher_dollar = Searcher::new(&db_dollar, measure);
    let results_dollar = searcher_dollar
        .ranked_search("test", &Alpha::new(4, 5))
        .unwrap();
    assert_eq!(results_dollar.len(), 1, "Using '$' endmarker");
    assert!(approx_eq(score_value(&results_dollar[0].1), 1.0));

    let fe_hash = CharacterNgrams::new(2, "#");
    let mut db_hash = HashDb::new(fe_hash);
    db_hash.insert("test".to_string());
    let searcher_hash = Searcher::new(&db_hash, measure);
    let results_hash = searcher_hash
        .ranked_search("test", &Alpha::new(4, 5))
        .unwrap();
    assert_eq!(results_hash.len(), 1, "Using '#' endmarker");
    assert!(approx_eq(score_value(&results_hash[0].1), 1.0));
}

#[test]
fn test_search_with_different_ngram_sizes_cosine() {
    let measure = Cosine;
    let endmarker = "$";

    let fe_2 = CharacterNgrams::new(2, endmarker);
    let mut db_2 = HashDb::new(fe_2);
    db_2.insert("test".to_string());
    let searcher_2 = Searcher::new(&db_2, measure);
    let results_2 = searcher_2.ranked_search("test", &Alpha::new(4, 5)).unwrap();
    assert_eq!(results_2.len(), 1, "Using n=2 ngrams");
    assert!(approx_eq(score_value(&results_2[0].1), 1.0));

    let fe_3 = CharacterNgrams::new(3, endmarker);
    let mut db_3 = HashDb::new(fe_3);
    db_3.insert("test".to_string());
    let searcher_3 = Searcher::new(&db_3, measure);
    let results_3 = searcher_3.ranked_search("test", &Alpha::new(4, 5)).unwrap();
    assert_eq!(results_3.len(), 1, "Using n=3 ngrams");
    assert!(approx_eq(score_value(&results_3[0].1), 1.0));
}

#[test]
fn test_cosine_with_repeated_ngrams_in_query() {
    let query = "aaaa";
    let feature_extractor = CharacterNgrams::new(2, "$");
    let measure = Cosine;
    let mut db = HashDb::new(feature_extractor);

    db.insert("aaab".to_string());
    db.insert("bbbb".to_string());

    let searcher = Searcher::new(&db, measure);
    let results = searcher.ranked_search(query, &Alpha::new(1, 2)).unwrap();

    assert_eq!(results.len(), 1, "Expected 1 result for 'aaaa' vs 'aaab'");
    assert_eq!(results[0].0, "aaab");
    assert!(
        approx_eq(score_value(&results[0].1), 0.6),
        "Score for 'aaab' should be 0.6, got {}",
        score_value(&results[0].1)
    );
}

#[test]
fn test_unranked_search() {
    let feature_extractor = CharacterNgrams::new(2, "$");
    let measure = Cosine;
    let mut db = HashDb::new(feature_extractor);

    // Out of alphabetical order, to exercise the sorting.
    db.insert("fooo".to_string());
    db.insert("bar".to_string());
    db.insert("foo".to_string());

    let searcher = Searcher::new(&db, measure);

    let results = searcher.search("foo", &Alpha::new(4, 5)).unwrap();
    assert_eq!(results, vec!["foo", "fooo"]);

    let results_exact = searcher.search("bar", &Alpha::new(1, 1)).unwrap();
    assert_eq!(results_exact, vec!["bar"]);

    let results_none = searcher.search("xyz", &Alpha::new(9, 10)).unwrap();
    assert!(results_none.is_empty());

    let result_err = searcher.search("foo", &Alpha::new(-1, 2));
    assert!(result_err.is_err());
    assert_eq!(
        result_err.unwrap_err(),
        SearchError::InvalidThreshold(Alpha::new(-1, 2))
    );
}

#[test]
fn test_empty_string_insertion_and_search() {
    let feature_extractor = CharacterNgrams::new(2, "$");
    let measure = Cosine;
    let mut db = HashDb::new(feature_extractor);

    db.insert("".to_string());
    db.insert("foo".to_string());

    let searcher = Searcher::new(&db, measure);

    let results = searcher.search("", &Alpha::new(1, 1)).unwrap();
    assert!(
        results.contains(&"".to_string()),
        "Results should contain the empty string"
    );

    let results_foo = searcher.search("foo", &Alpha::new(1, 1)).unwrap();
    assert_eq!(
        results_foo,
        vec!["foo"],
        "Search for 'foo' should return exactly ['foo']"
    );
}

#[test]
fn test_unicode_handling() {
    let feature_extractor = CharacterNgrams::new(2, "$");
    let measure = Cosine;
    let mut db = HashDb::new(feature_extractor);

    let emoji_str = "ðŸ¦€ðŸš€";
    let cjk_str = "ä½ å¥½ä¸–ç•Œ";
    let mixed_str = "hello world ðŸŒ";

    db.insert(emoji_str.to_string());
    db.insert(cjk_str.to_string());
    db.insert(mixed_str.to_string());

    let searcher = Searcher::new(&db, measure);

    let results_emoji = searcher.search("ðŸ¦€ðŸš€", &Alpha::new(1, 1)).unwrap();
    assert_eq!(
        results_emoji,
        vec![emoji_str],
        "Search for emoji should return exact match"
    );

    let results_cjk = searcher.search("ä½ å¥½ä¸–ç•Œ", &Alpha::new(1, 1)).unwrap();
    assert_eq!(
        results_cjk,
        vec![cjk_str],
        "Search for CJK should return exact match"
    );

    let results_mixed = searcher.search("hello ðŸŒ", &Alpha::new(1, 2)).unwrap();
    assert!(
        results_mixed.contains(&mixed_str.to_string()),
        "Partial match should find the mixed string"
    );
}

#[test]
fn test_ngram_size_larger_than_string() {
    let feature_extractor = CharacterNgrams::new(5, "$");
    let measure = Cosine;
    let mut db = HashDb::new(feature_extractor);

    db.insert("hi".to_string());

    let searcher = Searcher::new(&db, measure);

    let results = searcher.search("hi", &Alpha::new(1, 1)).unwrap();
    assert_eq!(
        results,
        vec!["hi"],
        "Should find 'hi' even if the n-gram size is larger than the string"
    );
}

#[test]
fn test_threshold_boundaries() {
    let feature_extractor = CharacterNgrams::new(2, "$");
    let measure = Cosine;
    let mut db = HashDb::new(feature_extractor);

    db.insert("foo".to_string());
    let searcher = Searcher::new(&db, measure);

    let results_1 = searcher.search("foo", &Alpha::new(1, 1)).unwrap();
    assert_eq!(
        results_1,
        vec!["foo"],
        "Threshold 1 should return the exact match"
    );

    let err_0 = searcher.search("foo", &Alpha::new(0, 1));
    assert!(
        matches!(err_0, Err(SearchError::InvalidThreshold(_))),
        "Threshold 0 should be invalid"
    );

    let results_small = searcher.search("foo", &Alpha::new(1, 10000)).unwrap();
    assert_eq!(
        results_small,
        vec!["foo"],
        "A tiny positive threshold should return results"
    );

    let err_large = searcher.search("foo", &Alpha::new(11, 10));
    assert!(
        matches!(err_large, Err(SearchError::InvalidThreshold(_))),
        "A threshold above 1 should be invalid"
    );
}

#[test]
fn test_no_results() {
    let feature_extractor = CharacterNgrams::new(2, "$");
    let measure = Cosine;
    let mut db = HashDb::new(feature_extractor);

    db.insert("foo".to_string());
    let searcher = Searcher::new(&db, measure);

    let results = searcher.search("bar", &Alpha::new(9, 10)).unwrap();
    assert!(
        results.is_empty(),
        "Search for a faraway term should return empty results"
    );
}

#[test]
fn test_search_tau_equals_one_optimization() {
    let feature_extractor = CharacterNgrams::new(2, "$");
    let measure = Overlap;
    let mut db = HashDb::new(feature_extractor);

    db.insert("foo".to_string());
    db.insert("far".to_string());

    let searcher = Searcher::new(&db, measure);

    let results = searcher.search("far", &Alpha::new(1, 10)).unwrap();
    assert!(
        results.contains(&"foo".to_string()),
        "Results should contain 'foo', which shares a single feature"
    );
    assert!(results.contains(&"far".to_string()), "Results should contain 'far'");
}

#[test]
fn test_search_candidates_empty_query() {
    let feature_extractor = CharacterNgrams::new(100, ""); // No markers, large n.
    let measure = Overlap;
    let mut db = HashDb::new(feature_extractor);
    db.insert("foo".to_string());

    let searcher = Searcher::new(&db, measure);

    // "foo" has 3 characters and n is 100: no features at all.
    let results = searcher.search("foo", &Alpha::new(1, 2)).unwrap();
    assert!(
        results.is_empty(),
        "A query without features should return empty results"
    );
}

#[test]
fn test_cosine_prefix_family_ranked() {
    let feature_extractor = CharacterNgrams::new(2, "$");
    let measure = Cosine;
    let mut db = HashDb::new(feature_extractor);
    for s in ["a", "ab", "abc", "abcd", "abcde"] {
        db.insert(s.to_string());
    }

    let searcher = Searcher::new(&db, measure);
    let results = searcher.ranked_search("ab", &Alpha::new(1, 2)).unwrap();

    assert_eq!(results.len(), 3, "Exactly 3 results expected");
    assert_eq!(results[0].0, "ab");
    assert!(approx_eq(score_value(&results[0].1), 1.0));
    assert_eq!(results[1].0, "abc");
    assert!(approx_eq(score_value(&results[1].1), 0.5773502691896258));
    assert_eq!(results[2].0, "abcd");
    assert!(approx_eq(score_value(&results[2].1), 0.5163977794943222));
}

#[test]
fn test_threshold_monotonicity_on_corpus() {
    let feature_extractor = CharacterNgrams::new(2, "$");
    let measure = Cosine;
    let mut db = HashDb::new(feature_extractor);
    for s in ["foo", "bar", "fooo", "food", "fool"] {
        db.insert(s.to_string());
    }
    let searcher = Searcher::new(&db, measure);

    let lenient = searcher.search("foo", &Alpha::new(1, 2)).unwrap();
    let strict = searcher.search("foo", &Alpha::new(9, 10)).unwrap();
    for hit in &strict {
        assert!(lenient.contains(hit), "higher-threshold hits stay at lower thresholds");
    }
}

#[test]
fn test_search_deterministic() {
    let feature_extractor = CharacterNgrams::new(2, "$");
    let measure = Dice;
    let mut db = HashDb::new(feature_extractor);
    for s in ["foo", "bar", "fooo", "food"] {
        db.insert(s.to_string());
    }
    let searcher = Searcher::new(&db, measure);
    let a = searcher.ranked_search("foo", &Alpha::new(1, 2)).unwrap();
    let b = searcher.ranked_search("foo", &Alpha::new(1, 2)).unwrap();
    assert_eq!(a, b);
    let c = searcher.search("foo", &Alpha::new(1, 2)).unwrap();
    let d = searcher.search("foo", &Alpha::new(1, 2)).unwrap();
    assert_eq!(c, d);
}

#[test]
fn test_duplicate_inserts_both_returned() {
    let feature_extractor = CharacterNgrams::new(2, "$");
    let measure = Cosine;
    let mut db = HashDb::new(feature_extractor);
    db.insert("foo".to_string());
    db.insert("foo".to_string());
    let searcher = Searcher::new(&db, measure);
    let results = searcher.search("foo", &Alpha::new(1, 1)).unwrap();
    assert_eq!(results, vec!["foo", "foo"]);
}

#[test]
fn test_word_ngram_search_end_to_end() {
    let feature_extractor = simstring_rust::WordNgrams::new(2, " ", " ");
    let measure = Cosine;
    let mut db = HashDb::new(feature_extractor);
    db.insert("the quick brown fox".to_string());
    db.insert("the quick brown cat".to_string());
    db.insert("something else entirely".to_string());

    let searcher = Searcher::new(&db, measure);
    let results = searcher
        .search("the quick brown fox", &Alpha::new(1, 1))
        .unwrap();
    assert_eq!(results, vec!["the quick brown fox"]);

    let near = searcher
        .search("the quick brown fox", &Alpha::new(1, 2))
        .unwrap();
    assert_eq!(near, vec!["the quick brown cat", "the quick brown fox"]);
}
