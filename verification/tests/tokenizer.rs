use pocketwiki_core::Tokenizer;

#[test]
fn test_basic_tokenization() {
    let tokenizer = Tokenizer::default();
    let tokens = tokenizer.tokenize("Hello World! This is a test.");
    assert_eq!(tokens, vec!["hello", "world", "this", "is", "test"]);
}

#[test]
fn test_min_length() {
    let tokenizer = Tokenizer::new(3);
    let tokens = tokenizer.tokenize("a bb ccc dddd");
    assert_eq!(tokens, vec!["ccc", "dddd"]);
}

#[test]
fn test_unicode() {
    let tokenizer = Tokenizer::default();
    let tokens = tokenizer.tokenize("Café résumé naïve");
    assert_eq!(tokens, vec!["café", "résumé", "naïve"]);
}

#[test]
fn test_unique() {
    let tokenizer = Tokenizer::default();
    let tokens = tokenizer.tokenize_unique("the quick brown fox jumps over the lazy dog");
    assert_eq!(tokens, vec!["brown", "dog", "fox", "jumps", "lazy", "over", "quick", "the"]);
}

#[test]
fn test_empty_text() {
    let tokenizer = Tokenizer::default();
    assert!(tokenizer.tokenize("").is_empty());
    assert!(tokenizer.tokenize_unique("").is_empty());
}

#[test]
fn test_duplicates_preserved() {
    let tokenizer = Tokenizer::default();
    let tokens = tokenizer.tokenize("dog dog cat dog");
    assert_eq!(tokens, vec!["dog", "dog", "cat", "dog"]);
}
