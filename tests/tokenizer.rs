use instant_clip_tokenizer::alphabet::{byte_table, byte_token_exec};
use instant_clip_tokenizer::merge::apply_merge_rules;
use instant_clip_tokenizer::{Token, Tokenizer, TokenizerError};

const VOCABULARY: [&str; 15] = [
    "#version: 0.2",
    "h e",
    "l l",
    "he ll",
    "hell o</w>",
    "h i</w>",
    "a r",
    "ar e</w>",
    "o w</w>",
    "h ow</w>",
    "y o",
    "yo u</w>",
    "i t</w>",
    "! !",
    "!! !</w>",
];

const MAX_VOCABULARY_SIZE: u16 = 528;

fn lines() -> Vec<String> {
    VOCABULARY.iter().map(|l| l.to_string()).collect()
}

fn tokenizer() -> Tokenizer {
    Tokenizer::with_vocabulary(&lines(), MAX_VOCABULARY_SIZE).unwrap()
}

fn encode(input: &str) -> Vec<u16> {
    let tokenizer = tokenizer();
    let mut tokens = Vec::with_capacity(input.len());
    tokenizer.encode(input, &mut tokens);
    tokens.into_iter().map(Token::to_u16).collect()
}

fn tokens(tokenizer: &Tokenizer, numbers: &[u16]) -> Vec<Token> {
    numbers
        .iter()
        .map(|n| Token::from_u16(*n, tokenizer).unwrap())
        .collect()
}

#[test]
fn byte_alphabet_ranges() {
    assert_eq!(byte_token_exec(b'!'), 0);
    assert_eq!(byte_token_exec(b'~'), 93);
    assert_eq!(byte_token_exec(0xa1), 94);
    assert_eq!(byte_token_exec(0xac), 105);
    assert_eq!(byte_token_exec(0xae), 106);
    assert_eq!(byte_token_exec(0xff), 187);
    assert_eq!(byte_token_exec(0x00), 188);
    assert_eq!(byte_token_exec(b' '), 220);
    assert_eq!(byte_token_exec(0x7f), 221);
    assert_eq!(byte_token_exec(0xa0), 254);
    assert_eq!(byte_token_exec(0xad), 255);
}

#[test]
fn byte_table_is_one_to_one() {
    let table = byte_table();
    assert_eq!(table.len(), 256);
    let mut seen = vec![false; 256];
    for t in &table {
        assert!(*t < 256);
        assert!(!seen[*t as usize]);
        seen[*t as usize] = true;
    }
}

#[test]
fn markers_follow_last_rule() {
    let tokenizer = tokenizer();
    assert_eq!(tokenizer.start_of_text().to_u16(), 526);
    assert_eq!(tokenizer.end_of_text().to_u16(), 527);
}

#[test]
fn rule_budget_limits_lines_read() {
    let tokenizer = Tokenizer::with_vocabulary(&lines(), 516).unwrap();
    assert_eq!(tokenizer.start_of_text().to_u16(), 514);
    assert_eq!(tokenizer.end_of_text().to_u16(), 515);
    let mut out = Vec::new();
    tokenizer.encode("hello", &mut out);
    let out: Vec<u16> = out.into_iter().map(Token::to_u16).collect();
    assert_eq!(out, [512, 513, 334]);
}

#[test]
fn header_only_source() {
    let tokenizer = Tokenizer::with_vocabulary(&vec!["#version: 0.2".to_string()], 600).unwrap();
    assert_eq!(tokenizer.start_of_text().to_u16(), 512);
    assert_eq!(tokenizer.end_of_text().to_u16(), 513);
}

#[test]
fn line_with_one_field_is_invalid() {
    let source = vec!["#version: 0.2".to_string(), "h".to_string()];
    assert!(matches!(
        Tokenizer::with_vocabulary(&source, 600),
        Err(TokenizerError::InvalidVocabulary)
    ));
}

#[test]
fn unknown_key_is_invalid() {
    let source = vec!["#version: 0.2".to_string(), "h zz".to_string()];
    assert!(matches!(
        Tokenizer::with_vocabulary(&source, 600),
        Err(TokenizerError::InvalidVocabulary)
    ));
    let source = vec!["#version: 0.2".to_string(), "qq h".to_string()];
    assert!(matches!(
        Tokenizer::with_vocabulary(&source, 600),
        Err(TokenizerError::InvalidVocabulary)
    ));
}

#[test]
fn invalid_line_beyond_budget_is_ignored() {
    let mut source = lines();
    source.push("broken".to_string());
    assert!(Tokenizer::with_vocabulary(&source, MAX_VOCABULARY_SIZE).is_ok());
    assert!(Tokenizer::with_vocabulary(&source, MAX_VOCABULARY_SIZE + 1).is_err());
}

#[test]
fn earliest_rule_wins() {
    let mut rules = ahash::AHashMap::new();
    rules.insert((1u16, 2u16), 600u16);
    rules.insert((2u16, 3u16), 550u16);
    let mut tokens = vec![1u16, 2, 3];
    apply_merge_rules(&rules, &mut tokens);
    assert_eq!(tokens, [1, 550]);
}

#[test]
fn every_occurrence_of_the_pair_merges() {
    let mut rules = ahash::AHashMap::new();
    rules.insert((5u16, 5u16), 700u16);
    let mut tokens = vec![5u16, 5, 5, 5, 5];
    apply_merge_rules(&rules, &mut tokens);
    assert_eq!(tokens, [700, 700, 5]);
}

#[test]
fn encode_repeated_punctuation() {
    assert_eq!(encode("hello world!!!"), [515, 86, 78, 81, 75, 323, 525]);
}

#[test]
fn decode_repeated_punctuation() {
    let tokenizer = tokenizer();
    let decoded = tokenizer
        .decode(&tokens(&tokenizer, &[515, 86, 78, 81, 75, 323, 525]))
        .unwrap();
    assert_eq!(decoded, "hello world !!! ");
}

#[test]
fn encode_lowercases() {
    assert_eq!(encode("Hello"), [515]);
    assert_eq!(encode("HELLO"), encode("hello"));
}

#[test]
fn encode_apostrophe_suffix() {
    assert_eq!(encode("it's"), [523, 6, 338]);
}

#[test]
fn encode_digits_one_by_one() {
    assert_eq!(encode("A 12"), [320, 272, 273]);
}

#[test]
fn encode_appends_to_output() {
    let tokenizer = tokenizer();
    let mut out = vec![tokenizer.start_of_text()];
    tokenizer.encode("Hi", &mut out);
    tokenizer.encode("Hi", &mut out);
    out.push(tokenizer.end_of_text());
    let out: Vec<u16> = out.into_iter().map(Token::to_u16).collect();
    assert_eq!(out, [526, 516, 516, 527]);
}

#[test]
fn encode_empty_text() {
    assert_eq!(encode(""), Vec::<u16>::new());
    assert_eq!(encode("   "), Vec::<u16>::new());
}

#[test]
fn encode_marker_substrings() {
    assert_eq!(encode("<start_of_text>Hi<end_of_text>"), [526, 516, 527]);
}

#[test]
fn encode_marker_after_punctuation_is_not_a_marker() {
    assert_eq!(
        encode("Hi!<end_of_text>"),
        [516, 0, 283, 68, 77, 323, 318, 78, 325, 318, 83, 68, 87, 339, 285]
    );
}

#[test]
fn encode_words_takes_split_words() {
    let tokenizer = tokenizer();
    let words = vec![
        b"hello".to_vec(),
        b"<end_of_text>".to_vec(),
        b"!!!".to_vec(),
        Vec::new(),
    ];
    let mut out = Vec::new();
    tokenizer.encode_words(&words, &mut out);
    let out: Vec<u16> = out.into_iter().map(Token::to_u16).collect();
    assert_eq!(out, [515, 527, 525]);
}

#[test]
fn decode_marker_tokens() {
    let tokenizer = tokenizer();
    let decoded = tokenizer
        .decode(&tokens(&tokenizer, &[526, 516, 526, 515, 527]))
        .unwrap();
    assert_eq!(decoded, "<start_of_text>hi <start_of_text>hello <end_of_text>");
}

#[test]
fn decode_to_bytes_keeps_markers() {
    let tokenizer = tokenizer();
    let bytes = tokenizer
        .decode_to_bytes(&tokens(&tokenizer, &[515, 0, 256]))
        .unwrap();
    assert_eq!(bytes, b"hello</w>!!</w>".to_vec());
}

#[test]
fn decode_invalid_utf8_is_replaced() {
    let tokenizer = tokenizer();
    let decoded = tokenizer.decode(&tokens(&tokenizer, &[187, 71])).unwrap();
    assert_eq!(decoded, "\u{FFFD}h");
}

#[test]
fn decode_unknown_token_fails() {
    let small = Tokenizer::with_vocabulary(&lines(), 516).unwrap();
    let big = tokenizer();
    let foreign = big.end_of_text();
    assert!(matches!(
        small.decode(&[Token::from_u16(71, &small).unwrap(), foreign]),
        Err(TokenizerError::UnknownToken)
    ));
    assert!(matches!(
        small.decode_to_bytes(&[foreign]),
        Err(TokenizerError::UnknownToken)
    ));
}

#[test]
fn from_u16_checks_range() {
    let tokenizer = tokenizer();
    assert_eq!(Token::from_u16(527, &tokenizer).map(Token::to_u16), Some(527));
    assert!(Token::from_u16(528, &tokenizer).is_none());
    assert_eq!(Token::from_u16(0, &tokenizer).map(Token::to_u16), Some(0));
}

#[test]
fn encode_then_decode_on_normalized_text() {
    let tokenizer = tokenizer();
    let mut out = Vec::new();
    tokenizer.encode("hello how are you", &mut out);
    let text = tokenizer.decode(&out).unwrap();
    assert_eq!(text, "hello how are you ");
    let mut again = Vec::new();
    tokenizer.encode(&text, &mut again);
    assert_eq!(tokenizer.decode(&again).unwrap(), text);
}

#[test]
fn tokenize_batch_rows() {
    let tokenizer = tokenizer();
    let rows = tokenizer.tokenize_batch(&["Hi", "How are you?"], 5).unwrap();
    assert_eq!(rows, vec![vec![526, 516, 527, 0, 0], vec![526, 520, 518, 522, 527]]);
}

#[test]
fn tokenize_batch_wide_rows() {
    let tokenizer = tokenizer();
    let rows = tokenizer.tokenize_batch(&["Hi", "How are you?"], 7).unwrap();
    assert_eq!(
        rows,
        vec![vec![526, 516, 527, 0, 0, 0, 0], vec![526, 520, 518, 522, 286, 527, 0]]
    );
}

#[test]
fn tokenize_batch_smallest_context() {
    let tokenizer = tokenizer();
    let rows = tokenizer.tokenize_batch(&["How are you?", ""], 3).unwrap();
    assert_eq!(rows, vec![vec![526, 520, 527], vec![526, 527, 0]]);
}

#[test]
fn tokenize_batch_rejects_short_context() {
    let tokenizer = tokenizer();
    assert!(matches!(
        tokenizer.tokenize_batch(&["Hi"], 2),
        Err(TokenizerError::InvalidArgument)
    ));
    assert!(matches!(
        tokenizer.tokenize_batch(&[], 0),
        Err(TokenizerError::InvalidArgument)
    ));
}

#[test]
fn batch_row_truncates() {
    let tokenizer = tokenizer();
    let encoded = tokens(&tokenizer, &[1, 2, 3, 4, 5]);
    assert_eq!(tokenizer.batch_row(&encoded, 4), vec![526, 1, 2, 527]);
    assert_eq!(tokenizer.batch_row(&encoded, 8), vec![526, 1, 2, 3, 4, 5, 527, 0]);
}
