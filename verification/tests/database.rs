use simstring_rust::{CharacterNgrams, HashDb};

#[test]
fn test_insert_and_lookup_single_string() {
    let feature_extractor = CharacterNgrams::new(2, "$");
    let mut db = HashDb::new(feature_extractor);
    db.insert("hello".to_string());
    let string_id = 0;

    assert_eq!(db.get_string(string_id), Some("hello"));

    let features = db.get_features(string_id).unwrap().clone();

    let features_strings: Vec<String> = features
        .iter()
        .map(|&h| db.interner().resolve(h).unwrap())
        .collect();
    let mut expected_features: Vec<String> = vec!["$h1", "he1", "el1", "ll1", "lo1", "o$1"]
        .into_iter()
        .map(String::from)
        .collect();
    // The cached sequence is sorted by handle; with a fresh interner that is
    // the window order.
    assert_eq!(features_strings, expected_features);
    expected_features.sort();

    let feature_size = features.len();
    for &feature in &features {
        let ids = db.lookup_strings(feature_size, feature).unwrap();
        assert!(ids.contains(&string_id));
    }

    let non_existent = db.interner().get("xx1");
    if let Some(h) = non_existent {
        assert!(db.lookup_strings(feature_size, h).is_none());
    }
}

#[test]
fn test_lookup_separates_by_size() {
    let feature_extractor = CharacterNgrams::new(2, "#");
    let mut db = HashDb::new(feature_extractor);
    db.insert("hello".to_string());
    db.insert("hellos".to_string());

    let size_0 = db.get_features(0).unwrap().len();
    let size_1 = db.get_features(1).unwrap().len();
    assert_ne!(size_0, size_1);

    let common_feature = db.interner().get("#h1").unwrap();

    let ids_for_size_0 = db.lookup_strings(size_0, common_feature).unwrap();
    assert!(ids_for_size_0.contains(&0));
    assert!(!ids_for_size_0.contains(&1));

    let ids_for_size_1 = db.lookup_strings(size_1, common_feature).unwrap();
    assert!(ids_for_size_1.contains(&1));
    assert!(!ids_for_size_1.contains(&0));
}

#[test]
fn test_insert_multiple_strings_same_size() {
    let feature_extractor = CharacterNgrams::new(2, "$");
    let mut db = HashDb::new(feature_extractor);
    db.insert("cat".to_string());
    db.insert("bat".to_string());
    db.insert("dog".to_string());

    let feature_size = db.get_features(0).unwrap().len();

    let at1 = db.interner().get("at1").unwrap();
    let ids = db.lookup_strings(feature_size, at1).unwrap();
    assert!(ids.contains(&0));
    assert!(ids.contains(&1));
    assert!(!ids.contains(&2));

    let og1 = db.interner().get("og1").unwrap();
    let ids_dog = db.lookup_strings(feature_size, og1).unwrap();
    assert!(ids_dog.contains(&2));
    assert_eq!(ids_dog.len(), 1);
}

#[test]
fn test_initial_db_state() {
    let feature_extractor = CharacterNgrams::new(2, "$");
    let db = HashDb::new(feature_extractor);
    assert_eq!(db.max_feature_len(), 0);
    assert_eq!(db.get_string(0), None);
    assert!(db.get_features(0).is_none());
    assert_eq!(db.len(), 0);
}

#[test]
fn test_string_collection_retrieval() {
    let feature_extractor = CharacterNgrams::new(2, "$");
    let mut db = HashDb::new(feature_extractor);
    let corpus = vec!["foo", "bar", "fooo", "test"];
    for s in &corpus {
        db.insert(s.to_string());
    }
    for (id, &expected_string) in corpus.iter().enumerate() {
        assert_eq!(db.get_string(id), Some(expected_string));
    }
    assert_eq!(db.get_string(corpus.len()), None);
    assert_eq!(db.len(), corpus.len());
}

#[test]
fn test_db_clear() {
    let feature_extractor = CharacterNgrams::new(2, "$");
    let mut db = HashDb::new(feature_extractor);
    db.insert("test".to_string());

    // The index is not empty.
    assert_eq!(db.get_string(0), Some("test"));
    assert_eq!(db.max_feature_len(), 5);

    db.clear();

    // The index is empty again.
    assert_eq!(db.get_string(0), None);
    assert_eq!(db.max_feature_len(), 0);
    assert_eq!(db.interner().len(), 0);
}

#[test]
fn test_interner_is_shared_between_insertions() {
    let feature_extractor = CharacterNgrams::new(2, "$");
    let mut db = HashDb::new(feature_extractor);
    db.insert("test".to_string());
    db.insert("apple".to_string());
    assert_eq!(db.len(), 2);
    // "test" yields 5 distinct suffixed bigrams and "apple" 6 more.
    assert_eq!(db.interner().len(), 11);
}
