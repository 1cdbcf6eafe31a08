use pure_onnx_ocr_sync::{DictionaryError, RecDictionary};

#[test]
fn load_dictionary_successfully() {
    let dictionary = RecDictionary::parse_contents(
        "a\n\nb\n c \n# comment-like text should still be taken literally\n",
        "dict_success",
    )
    .unwrap();

    assert_eq!(dictionary.len(), 4);
    assert_eq!(dictionary.token(0), Some("a"));
    assert_eq!(dictionary.token(1), Some("b"));
    assert_eq!(dictionary.token(2), Some("c"));
    assert_eq!(dictionary.token(3), Some("# comment-like text should still be taken literally"));
    assert_eq!(dictionary.index_of("c"), Some(2));
    assert!(dictionary.index_of("missing").is_none());
}

#[test]
fn error_on_empty_dictionary() {
    let error = match RecDictionary::parse_contents("   \n\n\t", "dict_empty") {
        Err(e) => e,
        Ok(_) => panic!("expected an error"),
    };
    match error {
        DictionaryError::EmptyDictionary { .. } => {}
        _ => panic!("expected EmptyDictionary error, got {:?}", error),
    }
}

#[test]
fn error_on_duplicate_entry() {
    let error = match RecDictionary::parse_contents("foo\nbar\nfoo\n", "dict_dup") {
        Err(e) => e,
        Ok(_) => panic!("expected an error"),
    };
    match error {
        DictionaryError::DuplicateEntry { line_number, .. } => {
            assert_eq!(line_number, 3);
        }
        _ => panic!("expected DuplicateEntry error, got {:?}", error),
    }
}

#[test]
fn duplicate_reports_path_and_trimmed_token() {
    match RecDictionary::parse_contents("x\n  y\t\r\nz\ny\n", "vocab.txt") {
        Err(DictionaryError::DuplicateEntry { path, line_number, token }) => {
            assert_eq!(path, "vocab.txt");
            assert_eq!(line_number, 4);
            assert_eq!(token, "y");
        }
        _ => panic!("expected a duplicate entry"),
    }
}

#[test]
fn empty_dictionary_reports_path() {
    match RecDictionary::parse_contents("", "none.txt") {
        Err(DictionaryError::EmptyDictionary { path }) => assert_eq!(path, "none.txt"),
        _ => panic!("expected an empty dictionary"),
    }
}

#[test]
fn blank_id_follows_the_last_token() {
    let dictionary = RecDictionary::parse_contents("a\r\nb\r\n\u{3000}c\u{3000}\n", "d").unwrap();
    assert_eq!(dictionary.len(), 3);
    assert!(!dictionary.is_empty());
    assert_eq!(dictionary.blank_id(), 3);
    assert_eq!(dictionary.token(2), Some("c"));
    assert_eq!(dictionary.token(3), None);
    assert_eq!(dictionary.index_of("b"), Some(1));
}

#[test]
fn every_token_is_found_at_its_index() {
    let dictionary = RecDictionary::parse_contents("一\n二\n三\n", "d").unwrap();
    for i in 0..dictionary.len() {
        let token = dictionary.token(i).unwrap().to_string();
        assert_eq!(dictionary.index_of(&token), Some(i));
    }
}

#[test]
fn written_tokens_are_read_back_in_order() {
    let tokens = ["甲", "b", "c d", "#x", "ÿ"];
    let dictionary = RecDictionary::parse_contents(&tokens.join("\n"), "d").unwrap();
    assert_eq!(dictionary.len(), tokens.len());
    for (i, t) in tokens.iter().enumerate() {
        assert_eq!(dictionary.token(i), Some(*t));
        assert_eq!(dictionary.index_of(t), Some(i));
    }
}
