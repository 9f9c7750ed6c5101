use simple_bpe::bpe::BPE;

#[test]
fn test_unicode_support() {
    // Test with non-ASCII text
    let text = "Привет мир! こんにちは世界! 你好，世界!";

    let mut bpe = BPE::new();
    bpe.train(text, 5);

    let tokens = bpe.tokenize("Привет мир!");

    assert!(!tokens.is_empty());
    assert!(tokens.len() < "Привет мир!".chars().count());

    let joined = tokens.join("");
    assert_eq!(joined, "Приветмир!");
}
