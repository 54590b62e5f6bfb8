use simstring_rust::loaders::{strings_from_csv, strings_from_json, strings_from_text};
use simstring_rust::{Alpha, CharacterNgrams, Cosine, FileLoadError, HashDb, Searcher};

#[test]
fn test_load_text_file() {
    let content = "hello\nworld\n\n  test  \n";
    let strings = strings_from_text(content);
    assert_eq!(strings, vec!["hello", "world", "  test  "]);
}

#[test]
fn test_load_text_file_crlf() {
    let content = "hello\r\nworld\r\n";
    let strings = strings_from_text(content);
    assert_eq!(strings, vec!["hello", "world"]);
}

#[test]
fn test_load_json_file() {
    let content = r#"["foo", "bar", "baz"]"#;
    let strings = strings_from_json(content).unwrap();
    assert_eq!(strings, vec!["foo", "bar", "baz"]);
}

#[test]
fn test_load_json_file_rejects_non_array() {
    let content = r#"{"foo": 1}"#;
    let result = strings_from_json(content);
    assert!(matches!(result, Err(FileLoadError::Json(_))));
}

#[test]
fn test_load_csv_file() {
    let content = "id,name,value\n1,hello,100\n2,world,200\n";
    let strings = strings_from_csv(content, 1).unwrap();
    assert_eq!(strings, vec!["name", "hello", "world"]);
}

#[test]
fn test_load_csv_file_column_out_of_bounds() {
    let content = "a,b\n";
    let result = strings_from_csv(content, 5);
    assert!(matches!(result, Err(FileLoadError::Csv { .. })));
    match result {
        Err(FileLoadError::Csv { line, column, width }) => {
            assert_eq!(line, 1);
            assert_eq!(column, 5);
            assert_eq!(width, 2);
        }
        _ => unreachable!(),
    }
}

#[test]
fn test_load_csv_skips_empty_cells() {
    let content = "a,b\n,x\nc,y\n";
    let strings = strings_from_csv(content, 0).unwrap();
    assert_eq!(strings, vec!["a", "c"]);
}

#[test]
fn test_loaded_strings_feed_the_index() {
    let content = "foo\nbar\nfooo\n";
    let mut db = HashDb::new(CharacterNgrams::new(2, "$"));
    for s in strings_from_text(content) {
        db.insert(s);
    }
    let searcher = Searcher::new(&db, Cosine);
    let results = searcher.search("foo", &Alpha::new(4, 5)).unwrap();
    assert_eq!(results, vec!["foo", "fooo"]);
}
