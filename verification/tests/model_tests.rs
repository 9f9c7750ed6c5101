use simple_bpe::bpe::BPE;
use simple_bpe::tokenizer::Tokenizer;

#[test]
fn test_word_counts() {
    let counts = BPE::get_word_counts("aa bb aa");
    assert_eq!(counts.len(), 2);
    assert_eq!(counts[0].0, "aa");
    assert_eq!(counts[0].1, 2);
    assert_eq!(counts[1].0, "bb");
    assert_eq!(counts[1].1, 1);
}

#[test]
fn test_empty_training() {
    let mut bpe = BPE::new();
    bpe.train("", 5);
    assert_eq!(bpe.merges.len(), 0);
    let tokens = bpe.tokenize("abc");
    assert_eq!(tokens, vec!["a".to_string(), "b".to_string(), "c".to_string()]);
}

#[test]
fn test_first_merge_and_tie_break() {
    let mut bpe = BPE::new();
    bpe.train("hello hello world world world", 2);
    assert_eq!(bpe.merges.len(), 2);
    // all maximal pairs come from "world" (weighted count 3); ties go to the
    // lexicographically least pair
    assert_eq!(bpe.merges[0], ("l".to_string(), "d".to_string()));
    assert_eq!(bpe.merges[1], ("o".to_string(), "r".to_string()));
    let tokens = bpe.tokenize("hello world");
    assert!(tokens.len() < 11);
    assert_eq!(tokens.join(""), "helloworld");
}

#[test]
fn test_concat_preserves_characters() {
    let mut bpe = BPE::new();
    bpe.train("ab ab cd", 2);
    let tokens = bpe.tokenize("  ab \t cd\nef  ");
    assert_eq!(tokens.join(""), "abcdef");
}

#[test]
fn test_token_count_bound() {
    let mut bpe = BPE::new();
    bpe.train("abc abc", 3);
    let tokens = bpe.tokenize("abc xyz");
    assert!(tokens.len() <= 6);
    let empty_model = BPE::new();
    assert_eq!(empty_model.tokenize("abc xyz").len(), 6);
}

#[test]
fn test_encode_idempotent() {
    let mut bpe = BPE::new();
    bpe.train("abc abc", 2);
    assert_eq!(bpe.tokenize("abc"), bpe.tokenize("abc"));
}

#[test]
fn test_serialize_round_trip() {
    let mut bpe = BPE::new();
    bpe.train("hello hello world world world", 5);
    let text = bpe.serialize();
    let back = BPE::deserialize(text.as_str()).unwrap();
    assert_eq!(bpe.merges, back.merges);
    assert_eq!(bpe.vocab, back.vocab);
    assert_eq!(bpe.tokenize("hello world"), back.tokenize("hello world"));
}

#[test]
fn test_deserialize_rejects_garbage() {
    assert!(BPE::deserialize("").is_err());
    assert!(BPE::deserialize("hello").is_err());
    assert!(BPE::deserialize("sa sb").is_err());
    assert!(BPE::deserialize("sa m").is_err());
    assert!(BPE::deserialize("m q").is_err());
}

#[test]
fn test_deserialize_empty_model() {
    let model = BPE::deserialize("m").unwrap();
    assert_eq!(model.merges.len(), 0);
    assert_eq!(model.vocab.len(), 0);
    assert_eq!(model.tokenize("ab").join(""), "ab");
}

#[test]
fn test_encode_batch() {
    let mut bpe = BPE::new();
    bpe.train("aa bb cc aa bb dd", 3);
    let tokenizer = Tokenizer::new(bpe);
    let texts = vec!["aa bb".to_string(), "cc".to_string()];
    let out = tokenizer.encode_batch(&texts);
    assert_eq!(out.len(), 2);
    assert_eq!(out[0], tokenizer.encode("aa bb"));
    assert_eq!(out[1].join(""), "cc");
}
