use wordpiece::builder::WordPieceBuilder;
use wordpiece::model::WordPiece;
use wordpiece::persist::{vocab_file_name, vocab_from_lines};
use wordpiece::token::{Error, Token};
use wordpiece::vocab::Vocab;

#[test]
fn test_error_display() {
    assert!(Error::MissingUnkToken.message().contains("Missing [UNK] token"));
}

#[test]
fn test_tokenize() {
    let mut vocab = Vocab::new();
    vocab.insert("a".to_string(), 0);
    vocab.insert("sentence".to_string(), 1);
    let builder = WordPieceBuilder::default().vocab(vocab);
    let model = builder.build().unwrap();

    assert_eq!(
        model.tokenize("a").unwrap(),
        vec![Token { value: "a".to_string(), id: 0, offsets: (0, 1) }]
    );

    assert_eq!(
        model.tokenize("sentence").unwrap(),
        vec![Token { value: "sentence".to_string(), id: 1, offsets: (0, 8) }]
    );
}

#[test]
fn test_tokenize_piece() {
    let mut vocab = Vocab::new();
    vocab.insert("##na".to_string(), 0);
    vocab.insert("ba".to_string(), 1);
    vocab.insert("[UNK]".to_string(), 2);
    let builder = WordPieceBuilder::default().vocab(vocab);
    let model = builder.build().unwrap();

    assert_eq!(
        model.tokenize("banana").unwrap(),
        vec![
            Token { value: "ba".to_string(), id: 1, offsets: (0, 2) },
            Token { value: "##na".to_string(), id: 0, offsets: (2, 4) },
            Token { value: "##na".to_string(), id: 0, offsets: (4, 6) },
        ]
    );

    // Starting `na` is invalid,
    assert_eq!(
        model.tokenize("nanana").unwrap(),
        vec![Token { value: "[UNK]".to_string(), id: 2, offsets: (0, 6) }]
    );
}

#[test]
fn test_length_guard() {
    let mut vocab = Vocab::new();
    vocab.insert("abc".to_string(), 0);
    vocab.insert("[UNK]".to_string(), 1);
    let model = WordPieceBuilder::default()
        .vocab(vocab)
        .max_input_chars_per_word(2)
        .build()
        .unwrap();
    // "abc" is a vocabulary entry, but the guard fires before the fast path
    assert_eq!(
        model.tokenize("abc").unwrap(),
        vec![Token { value: "[UNK]".to_string(), id: 1, offsets: (0, 3) }]
    );
}

#[test]
fn test_missing_unk_token() {
    let mut vocab = Vocab::new();
    vocab.insert("ab".to_string(), 0);
    let model = WordPieceBuilder::default().vocab(vocab).build().unwrap();
    assert_eq!(model.tokenize("cd").unwrap_err(), Error::MissingUnkToken);
}

#[test]
fn test_piece_missing_falls_back() {
    // A prefix/sentinel collision: stripping `##` from the key leaves a
    // sequence starting with the word-start sentinel, so the trie
    // matches the whole word "x", but the rebuilt piece text "x" is not
    // itself a vocabulary key. The defensive re-check must discard the
    // match and fall back for the whole word.
    let mut vocab = Vocab::new();
    vocab.insert("##\u{2581}x".to_string(), 0);
    vocab.insert("[UNK]".to_string(), 1);
    let model = WordPieceBuilder::default().vocab(vocab).build().unwrap();
    assert_eq!(
        model.tokenize("x").unwrap(),
        vec![Token { value: "[UNK]".to_string(), id: 1, offsets: (0, 1) }]
    );
}

#[test]
fn test_from_bpe_prefix_override() {
    // The derived model's trie is compiled under the prefix the
    // collaborator exposes, so continuation pieces written with that
    // prefix segment as usual.
    let mut vocab = Vocab::new();
    vocab.insert("@@na".to_string(), 0);
    vocab.insert("ba".to_string(), 1);
    vocab.insert("[UNK]".to_string(), 2);
    let model = WordPiece::from_bpe(vocab, None, Some("@@".to_string()));
    assert_eq!(
        model.tokenize("banana").unwrap(),
        vec![
            Token { value: "ba".to_string(), id: 1, offsets: (0, 2) },
            Token { value: "@@na".to_string(), id: 0, offsets: (2, 4) },
            Token { value: "@@na".to_string(), id: 0, offsets: (4, 6) },
        ]
    );
}

#[test]
fn test_from_bpe_defaults() {
    let mut vocab = Vocab::new();
    vocab.insert("ba".to_string(), 0);
    let model = WordPiece::from_bpe(vocab, None, None);
    assert_eq!(model.unk_token(), "[UNK]");
    assert_eq!(model.continuing_subword_prefix(), "##");
    assert_eq!(model.max_input_chars_per_word(), 100);
    let mut vocab2 = Vocab::new();
    vocab2.insert("ba".to_string(), 0);
    let model2 = WordPiece::from_bpe(vocab2, Some("<unk>".to_string()), Some("++".to_string()));
    assert_eq!(model2.unk_token(), "<unk>");
    assert_eq!(model2.continuing_subword_prefix(), "++");
}

#[test]
fn test_lookups() {
    let mut vocab = Vocab::new();
    vocab.insert("a".to_string(), 0);
    vocab.insert("b".to_string(), 1);
    let model = WordPieceBuilder::default().vocab(vocab).build().unwrap();
    assert_eq!(model.get_vocab_size(), 2);
    assert_eq!(model.token_to_id("a"), Some(0));
    assert_eq!(model.token_to_id("b"), Some(1));
    assert_eq!(model.token_to_id("c"), None);
    assert_eq!(model.id_to_token(0), Some("a".to_string()));
    assert_eq!(model.id_to_token(1), Some("b".to_string()));
    assert_eq!(model.id_to_token(7), None);
    let copy = model.get_vocab();
    assert_eq!(copy.get("a"), Some(0));
    assert_eq!(copy.len(), 2);
}

#[test]
fn test_vocab_insert_replaces() {
    let mut vocab = Vocab::new();
    vocab.insert("a".to_string(), 0);
    vocab.insert("a".to_string(), 5);
    assert_eq!(vocab.len(), 1);
    assert_eq!(vocab.get("a"), Some(5));
}

#[test]
fn test_vocab_file_name() {
    assert_eq!(vocab_file_name(Some("bert")), "bert-vocab.txt");
    assert_eq!(vocab_file_name(None), "vocab.txt");
}

#[test]
fn test_load_trims_trailing_whitespace() {
    let lines = vec!["ab \t".to_string(), "c".to_string(), "".to_string()];
    let vocab = vocab_from_lines(&lines);
    assert_eq!(vocab.get("ab"), Some(0));
    assert_eq!(vocab.get("ab "), None);
    assert_eq!(vocab.get("c"), Some(1));
    assert_eq!(vocab.get(""), Some(2));
}

#[test]
fn test_save_load_round_trip() {
    let mut vocab = Vocab::new();
    vocab.insert("##b".to_string(), 1);
    vocab.insert("a".to_string(), 0);
    vocab.insert("[UNK]".to_string(), 2);
    let model = WordPieceBuilder::default().vocab(vocab).build().unwrap();
    let lines = model.save_lines();
    assert_eq!(lines, vec!["a".to_string(), "##b".to_string(), "[UNK]".to_string()]);
    let reloaded = vocab_from_lines(&lines);
    assert_eq!(reloaded.len(), 3);
    assert_eq!(reloaded.get("a"), Some(0));
    assert_eq!(reloaded.get("##b"), Some(1));
    assert_eq!(reloaded.get("[UNK]"), Some(2));
}

#[test]
fn test_concat_reconstructs() {
    let mut vocab = Vocab::new();
    vocab.insert("un".to_string(), 0);
    vocab.insert("##able".to_string(), 1);
    vocab.insert("##think".to_string(), 2);
    let model = WordPieceBuilder::default().vocab(vocab).build().unwrap();
    let tokens = model.tokenize("unthinkable").unwrap();
    let mut rebuilt = String::new();
    for t in &tokens {
        let stripped = if t.offsets.0 > 0 {
            t.value.strip_prefix("##").unwrap()
        } else {
            &t.value
        };
        rebuilt.push_str(stripped);
    }
    assert_eq!(rebuilt, "unthinkable");
    assert_eq!(
        tokens,
        vec![
            Token { value: "un".to_string(), id: 0, offsets: (0, 2) },
            Token { value: "##think".to_string(), id: 2, offsets: (2, 7) },
            Token { value: "##able".to_string(), id: 1, offsets: (7, 11) },
        ]
    );
}

#[test]
fn test_builder_configuration() {
    let builder = WordPieceBuilder::new()
        .unk_token("<unk>".to_string())
        .continuing_subword_prefix("++".to_string())
        .max_input_chars_per_word(7);
    let mut vocab = Vocab::new();
    vocab.insert("ab".to_string(), 0);
    vocab.insert("++cd".to_string(), 1);
    vocab.insert("<unk>".to_string(), 2);
    let model = builder.vocab(vocab).build().unwrap();
    assert_eq!(model.unk_token(), "<unk>");
    assert_eq!(model.continuing_subword_prefix(), "++");
    assert_eq!(model.max_input_chars_per_word(), 7);
    assert_eq!(
        model.tokenize("abcd").unwrap(),
        vec![
            Token { value: "ab".to_string(), id: 0, offsets: (0, 2) },
            Token { value: "++cd".to_string(), id: 1, offsets: (2, 4) },
        ]
    );
}

#[test]
fn test_from_file_builder() {
    let builder = WordPiece::from_file("some/vocab.txt");
    assert_eq!(builder.configured_files().as_deref(), Some("some/vocab.txt"));
    let builder2 = WordPieceBuilder::new();
    assert!(builder2.configured_files().is_none());
}

#[test]
fn test_empty_word() {
    let mut vocab = Vocab::new();
    vocab.insert("".to_string(), 0);
    let model = WordPieceBuilder::default().vocab(vocab).build().unwrap();
    assert_eq!(
        model.tokenize("").unwrap(),
        vec![Token { value: "".to_string(), id: 0, offsets: (0, 0) }]
    );
}

#[test]
fn test_duplicate_ids() {
    let mut vocab = Vocab::new();
    vocab.insert("a".to_string(), 0);
    vocab.insert("b".to_string(), 0);
    let model = WordPieceBuilder::default().vocab(vocab).build().unwrap();
    let t = model.id_to_token(0).unwrap();
    assert!(t == "a" || t == "b");
    assert_eq!(model.get_vocab_size(), 2);
}

#[test]
fn test_length_bound_boundary() {
    let mut vocab = Vocab::new();
    vocab.insert("abc".to_string(), 0);
    let model = WordPieceBuilder::default()
        .vocab(vocab)
        .max_input_chars_per_word(3)
        .build()
        .unwrap();
    assert_eq!(
        model.tokenize("abc").unwrap(),
        vec![Token { value: "abc".to_string(), id: 0, offsets: (0, 3) }]
    );
}

#[test]
fn test_model_default_and_eq() {
    let d = WordPiece::default();
    assert_eq!(d.unk_token(), "[UNK]");
    assert_eq!(d.continuing_subword_prefix(), "##");
    assert_eq!(d.max_input_chars_per_word(), 100);
    assert_eq!(d.get_vocab_size(), 0);

    let mut v1 = Vocab::new();
    v1.insert("a".to_string(), 0);
    let mut v2 = Vocab::new();
    v2.insert("a".to_string(), 0);
    let m1 = WordPieceBuilder::default().vocab(v1).build().unwrap();
    let m2 = WordPieceBuilder::default().vocab(v2).build().unwrap();
    assert!(m1 == m2);
    let mut v3 = Vocab::new();
    v3.insert("a".to_string(), 1);
    let m3 = WordPieceBuilder::default().vocab(v3).build().unwrap();
    assert!(m1 != m3);
    let mut v4 = Vocab::new();
    v4.insert("a".to_string(), 0);
    let m4 = WordPieceBuilder::default()
        .vocab(v4)
        .unk_token("<unk>".to_string())
        .build()
        .unwrap();
    assert!(m1 != m4);
}

#[test]
fn test_greedy_longest_match() {
    // both "ab" and "abc" start the word: the longest one is taken
    let mut vocab = Vocab::new();
    vocab.insert("ab".to_string(), 0);
    vocab.insert("abc".to_string(), 1);
    vocab.insert("##d".to_string(), 2);
    let model = WordPieceBuilder::default().vocab(vocab).build().unwrap();
    assert_eq!(
        model.tokenize("abcd").unwrap(),
        vec![
            Token { value: "abc".to_string(), id: 1, offsets: (0, 3) },
            Token { value: "##d".to_string(), id: 2, offsets: (3, 4) },
        ]
    );
}
