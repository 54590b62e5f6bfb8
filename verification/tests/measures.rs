use simstring_rust::{
    Alpha, CharacterNgrams, Cosine, Dice, ExactMatch, HashDb, Interner, Jaccard, Measure, Overlap,
    Score,
};

fn approx_eq(a: f64, b: f64) -> bool {
    (a - b).abs() < 1e-9
}

fn score_value(s: &Score) -> f64 {
    s.num as f64 / (s.den_sq as f64).sqrt()
}

fn handles(interner: &mut Interner, items: &[&str]) -> Vec<usize> {
    let mut hs: Vec<usize> = items.iter().map(|s| interner.get_or_intern(s)).collect();
    hs.sort();
    hs
}

#[test]
fn test_cosine_similarity_score() {
    let mut interner = Interner::new();
    let cosine = Cosine;
    let x_spurs = handles(&mut interner, &["a", "b", "c"]);
    let y_spurs = handles(&mut interner, &["a", "b", "d", "e"]);

    let score = cosine.similarity(&x_spurs, &y_spurs);
    assert!(approx_eq(score_value(&score), 0.5773502691896258));

    let z_spurs = handles(&mut interner, &["a", "b", "c"]);
    let score_exact = cosine.similarity(&x_spurs, &z_spurs);
    assert!(approx_eq(score_value(&score_exact), 1.0));
}

#[test]
fn test_cosine_min_feature_size() {
    let cosine = Cosine;
    let query_size = 5;
    assert_eq!(cosine.min_feature_size(query_size, &Alpha::new(1, 1)), 5);
    assert_eq!(cosine.min_feature_size(query_size, &Alpha::new(1, 2)), 2);
}

#[test]
fn test_cosine_max_feature_size() {
    let cosine = Cosine;
    let feature_extractor = CharacterNgrams::new(2, "$");
    let mut db = HashDb::new(feature_extractor);
    db.insert("123456789".to_string());
    assert_eq!(db.max_feature_len(), 10);

    let query_size = 5;
    assert_eq!(
        cosine.max_feature_size(query_size, &Alpha::new(1, 1), db.max_feature_len()),
        5
    );
    assert_eq!(
        cosine.max_feature_size(query_size, &Alpha::new(1, 2), db.max_feature_len()),
        10
    );
}

#[test]
fn test_cosine_minimum_common_feature_count() {
    let cosine = Cosine;
    let query_size = 5;
    assert_eq!(
        cosine.minimum_common_feature_count(query_size, 5, &Alpha::new(1, 1)),
        5
    );
    assert_eq!(
        cosine.minimum_common_feature_count(query_size, 20, &Alpha::new(1, 1)),
        10
    );
    assert_eq!(
        cosine.minimum_common_feature_count(query_size, 5, &Alpha::new(1, 2)),
        3
    );
}

#[test]
fn test_dice_similarity_score() {
    let mut interner = Interner::new();
    let dice = Dice;
    let x_spurs = handles(&mut interner, &["a", "b", "c"]);
    let y_spurs = handles(&mut interner, &["a", "b", "d", "e"]);

    let score = dice.similarity(&x_spurs, &y_spurs);
    assert!(approx_eq(score_value(&score), 0.5714285714285714));
}

#[test]
fn test_dice_min_feature_size() {
    let dice = Dice;
    let query_size = 5;
    assert_eq!(dice.min_feature_size(query_size, &Alpha::new(1, 1)), 5);
    assert_eq!(dice.min_feature_size(query_size, &Alpha::new(1, 2)), 2);
}

#[test]
fn test_dice_max_feature_size() {
    let dice = Dice;
    let feature_extractor = CharacterNgrams::new(2, "$");
    let mut db = HashDb::new(feature_extractor);
    db.insert("123456789012345".to_string());

    let query_size = 5;
    assert_eq!(
        dice.max_feature_size(query_size, &Alpha::new(1, 1), db.max_feature_len()),
        5
    );
    assert_eq!(
        dice.max_feature_size(query_size, &Alpha::new(1, 2), db.max_feature_len()),
        15
    );
}

#[test]
fn test_dice_minimum_common_feature_count() {
    let dice = Dice;
    let query_size = 5;
    assert_eq!(
        dice.minimum_common_feature_count(query_size, 5, &Alpha::new(1, 1)),
        5
    );
    assert_eq!(
        dice.minimum_common_feature_count(query_size, 5, &Alpha::new(1, 2)),
        3
    );
}

#[test]
fn test_exact_match_similarity_score() {
    let mut interner = Interner::new();
    let measure = ExactMatch;

    let x_spurs = handles(&mut interner, &["a", "b", "c"]);
    // Same elements, different sighting order.
    let y_spurs = handles(&mut interner, &["c", "a", "b"]);
    // Different elements.
    let z_spurs = handles(&mut interner, &["a", "b", "d"]);

    assert_eq!(score_value(&measure.similarity(&x_spurs, &y_spurs)), 1.0);
    assert_eq!(score_value(&measure.similarity(&x_spurs, &z_spurs)), 0.0);
}

#[test]
fn test_exact_match_size_and_overlap_bounds() {
    let measure = ExactMatch;
    let query_size = 10;

    assert_eq!(
        measure.min_feature_size(query_size, &Alpha::new(1, 2)),
        query_size
    );
    assert_eq!(
        measure.min_feature_size(query_size, &Alpha::new(1, 1)),
        query_size
    );

    let feature_extractor = CharacterNgrams::default();
    let db = HashDb::new(feature_extractor);
    assert_eq!(
        measure.max_feature_size(query_size, &Alpha::new(1, 2), db.max_feature_len()),
        query_size
    );
    assert_eq!(
        measure.max_feature_size(query_size, &Alpha::new(1, 1), db.max_feature_len()),
        query_size
    );

    assert_eq!(
        measure.minimum_common_feature_count(query_size, query_size, &Alpha::new(1, 2)),
        query_size
    );
    assert_eq!(
        measure.minimum_common_feature_count(query_size, query_size, &Alpha::new(1, 1)),
        query_size
    );
}

#[test]
fn test_jaccard_similarity_score() {
    let mut interner = Interner::new();
    let measure = Jaccard;
    let x_spurs = handles(&mut interner, &["a", "b", "c"]);
    let y_spurs = handles(&mut interner, &["a", "b", "d", "e"]);

    let score = measure.similarity(&x_spurs, &y_spurs);
    assert!(approx_eq(score_value(&score), 0.4));
}

#[test]
fn test_jaccard_min_feature_size() {
    let measure = Jaccard;
    let query_size = 5;
    assert_eq!(measure.min_feature_size(query_size, &Alpha::new(1, 1)), 5);
    assert_eq!(measure.min_feature_size(query_size, &Alpha::new(1, 2)), 3);
}

#[test]
fn test_jaccard_max_feature_size() {
    let measure = Jaccard;
    let feature_extractor = CharacterNgrams::default();
    let mut db = HashDb::new(feature_extractor);

    db.insert("foo".to_string());
    db.insert("bar".to_string());
    db.insert("fooo".to_string());

    let query_size = 5;
    assert_eq!(
        measure.max_feature_size(query_size, &Alpha::new(1, 1), db.max_feature_len()),
        5
    );
    assert_eq!(
        measure.max_feature_size(query_size, &Alpha::new(1, 2), db.max_feature_len()),
        10
    );
}

#[test]
fn test_jaccard_minimum_common_feature_count() {
    let measure = Jaccard;
    let query_size = 5;
    assert_eq!(
        measure.minimum_common_feature_count(query_size, 5, &Alpha::new(1, 1)),
        5
    );
    assert_eq!(
        measure.minimum_common_feature_count(query_size, 5, &Alpha::new(1, 2)),
        4
    );
}

#[test]
fn test_overlap_similarity_score() {
    let mut interner = Interner::new();
    let measure = Overlap;
    let x_spurs = handles(&mut interner, &["a", "b", "c"]);
    let y_spurs = handles(&mut interner, &["a", "b", "d", "e"]);

    // The intersection is 2, the smaller size 3: the score is 2/3.
    let score = measure.similarity(&x_spurs, &y_spurs);
    assert!(approx_eq(score_value(&score), 2.0 / 3.0));

    let z_spurs = handles(&mut interner, &["a", "b", "c"]);
    let score_exact = measure.similarity(&x_spurs, &z_spurs);
    assert!(approx_eq(score_value(&score_exact), 1.0));
}

#[test]
fn test_overlap_min_feature_size() {
    let measure = Overlap;
    let query_size = 5;
    assert_eq!(measure.min_feature_size(query_size, &Alpha::new(1, 1)), 1);
    assert_eq!(measure.min_feature_size(query_size, &Alpha::new(1, 2)), 1);
}

#[test]
fn test_overlap_max_feature_size() {
    let measure = Overlap;
    let feature_extractor = CharacterNgrams::new(3, "$");
    let mut db = HashDb::new(feature_extractor);
    db.insert("fooo".to_string()); // The feature-set size is 6.
    let query_size = 5;

    assert_eq!(
        measure.max_feature_size(query_size, &Alpha::new(1, 1), db.max_feature_len()),
        6
    );
    assert_eq!(
        measure.max_feature_size(query_size, &Alpha::new(1, 2), db.max_feature_len()),
        6
    );
}

#[test]
fn test_overlap_minimum_common_feature_count() {
    let measure = Overlap;
    let query_size = 5;
    assert_eq!(
        measure.minimum_common_feature_count(query_size, 5, &Alpha::new(1, 1)),
        5
    );
    assert_eq!(
        measure.minimum_common_feature_count(query_size, 20, &Alpha::new(1, 1)),
        5
    );
    assert_eq!(
        measure.minimum_common_feature_count(query_size, 5, &Alpha::new(1, 2)),
        3
    );
}
