use bibleref::tokenizer::Tokenizer;

#[test]
fn test_thing() {
    let tokenizer = Tokenizer::new("hello world");
    tokenizer.tokenize();
}
