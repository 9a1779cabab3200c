use vocab::tokenizer::split_runs;
use vocab::{Vocab, VocabError};

fn strings(items: &[&str]) -> Vec<String> {
    items.iter().map(|s| s.to_string()).collect()
}

#[test]
fn it_works() {
    assert_eq!(2 + 2, 4);
}

#[test]
fn tokenize_strips_punctuation() {
    assert_eq!(Vocab::tokenize("Hello, world!".to_string()), strings(&["Hello", "world"]));
}

#[test]
fn tokenize_keeps_apostrophes() {
    assert_eq!(Vocab::tokenize("don't stop".to_string()), strings(&["don't", "stop"]));
}

#[test]
fn tokenize_splits_on_dashes() {
    assert_eq!(Vocab::tokenize("a--b".to_string()), strings(&["a", "b"]));
}

#[test]
fn tokenize_empty_text() {
    assert!(Vocab::tokenize(String::new()).is_empty());
}

#[test]
fn tokenize_only_delimiters() {
    assert!(Vocab::tokenize("   ".to_string()).is_empty());
    assert!(Vocab::tokenize(" ,.;-- \t\n!?".to_string()).is_empty());
}

#[test]
fn tokenize_is_repeatable() {
    let text = "One, two; three... one!".to_string();
    assert_eq!(Vocab::tokenize(text.clone()), Vocab::tokenize(text));
}

#[test]
fn tokenize_has_no_empty_tokens() {
    let tokens = Vocab::tokenize("  ,a,,b  c,, ".to_string());
    assert_eq!(tokens, strings(&["a", "b", "c"]));
    assert!(tokens.iter().all(|t| !t.is_empty()));
}

#[test]
fn tokenize_trailing_possessive() {
    assert_eq!(Vocab::tokenize("the dogs' bone.".to_string()), strings(&["the", "dogs'", "bone"]));
}

#[test]
fn tokenize_unicode_alphanumerics() {
    assert_eq!(Vocab::tokenize("héllo—wörld 42".to_string()), strings(&["héllo", "wörld", "42"]));
}

#[test]
fn tokenize_keeps_case() {
    assert_eq!(Vocab::tokenize("The THE the".to_string()), strings(&["The", "THE", "the"]));
}

#[test]
fn build_folds_case() {
    let v = Vocab::build("The the THE");
    assert_eq!(v.size(), 1);
    assert_eq!(v.get("the"), Some(0));
    assert_eq!(v.get("The"), None);
    assert_eq!(v.entries(), vec![("the".to_string(), 0)]);
}

#[test]
fn build_lowercases_keys() {
    let v = Vocab::build("ABC Def");
    assert_eq!(v.get("abc"), Some(0));
    assert_eq!(v.get("def"), Some(1));
    assert_eq!(v.get("ABC"), None);
}

#[test]
fn build_numbers_in_first_occurrence_order() {
    let v = Vocab::build("b a, B c A");
    assert_eq!(v.size(), 3);
    assert_eq!(
        v.entries(),
        vec![("b".to_string(), 0), ("a".to_string(), 1), ("c".to_string(), 2)]
    );
}

#[test]
fn build_indices_are_dense() {
    let v = Vocab::build("x y z x y w");
    let mut indices: Vec<usize> = v.entries().iter().map(|e| e.1).collect();
    indices.sort();
    assert_eq!(indices, vec![0, 1, 2, 3]);
    assert_eq!(v.size(), 4);
}

#[test]
fn build_is_repeatable() {
    let text = "Hello, world! Hello again, World.";
    assert_eq!(Vocab::build(text).entries(), Vocab::build(text).entries());
}

#[test]
fn build_empty_text() {
    let v = Vocab::build("");
    assert_eq!(v.size(), 0);
    assert!(v.entries().is_empty());
}

#[test]
fn from_keys_keeps_first_index() {
    let v = Vocab::from_keys(&strings(&["x", "y", "x", "z", "y"]));
    assert_eq!(
        v.entries(),
        vec![("x".to_string(), 0), ("y".to_string(), 1), ("z".to_string(), 2)]
    );
}

#[test]
fn serialize_exact_text() {
    let v = Vocab::build("Hello hello world");
    assert_eq!(v.serialize(), "hello\t0\nworld\t1\n");
}

#[test]
fn serialize_two_digit_index() {
    let v = Vocab::build("a b c d e f g h i j k");
    assert!(v.serialize().ends_with("j\t9\nk\t10\n"));
}

#[test]
fn round_trip_keeps_entries() {
    let v = Vocab::build("the quick brown fox jumps over the lazy dog's back");
    let w = Vocab::parse(&v.serialize()).unwrap();
    assert_eq!(w.entries(), v.entries());
    assert_eq!(w.size(), v.size());
}

#[test]
fn round_trip_empty() {
    let v = Vocab::build("");
    let w = Vocab::parse(&v.serialize()).unwrap();
    assert_eq!(w.size(), 0);
}

#[test]
fn parse_line_without_tab() {
    assert_eq!(Vocab::parse("a\t0\nb 1\n").err(), Some(VocabError::MalformedRecord));
}

#[test]
fn parse_index_not_a_number() {
    assert_eq!(Vocab::parse("a\tx\n").err(), Some(VocabError::MalformedRecord));
    assert_eq!(Vocab::parse("a\t\n").err(), Some(VocabError::MalformedRecord));
    assert_eq!(Vocab::parse("a\t1\t2\n").err(), Some(VocabError::MalformedRecord));
    assert_eq!(Vocab::parse("a\t-1\n").err(), Some(VocabError::MalformedRecord));
}

#[test]
fn parse_index_too_large() {
    assert_eq!(
        Vocab::parse("a\t999999999999999999999999\n").err(),
        Some(VocabError::MalformedRecord)
    );
}

#[test]
fn parse_empty_line_is_malformed() {
    assert_eq!(Vocab::parse("a\t0\n\nb\t1\n").err(), Some(VocabError::MalformedRecord));
}

#[test]
fn parse_takes_terms_verbatim() {
    let v = Vocab::parse("Hello, World\t7\n\t3").unwrap();
    assert_eq!(v.get("Hello, World"), Some(7));
    assert_eq!(v.get(""), Some(3));
    assert_eq!(v.size(), 2);
}

#[test]
fn parse_later_line_replaces_index() {
    let v = Vocab::parse("a\t1\nb\t5\na\t2\n").unwrap();
    assert_eq!(v.size(), 2);
    assert_eq!(v.get("a"), Some(2));
    assert_eq!(v.entries(), vec![("a".to_string(), 2), ("b".to_string(), 5)]);
}

#[test]
fn parse_accepts_crlf_and_missing_final_newline() {
    let v = Vocab::parse("a\t+4\r\nb\t12").unwrap();
    assert_eq!(v.get("a"), Some(4));
    assert_eq!(v.get("b"), Some(12));
}

#[test]
fn parse_empty_text() {
    assert_eq!(Vocab::parse("").unwrap().size(), 0);
}

#[test]
fn error_variants_differ() {
    assert_ne!(VocabError::SourceUnavailable, VocabError::MalformedRecord);
}

#[test]
fn split_runs_follows_marks() {
    assert_eq!(split_runs("a b", &vec![true, false, true]), strings(&["a", "b"]));
    assert_eq!(split_runs("a, b", &vec![true, true, true, true]), strings(&["a, b"]));
    assert_eq!(split_runs("abc", &vec![false, true, false]), strings(&["b"]));
    assert!(split_runs("xyz", &vec![false, false, false]).is_empty());
    assert!(split_runs("", &vec![]).is_empty());
}

#[test]
fn get_absent_term() {
    let v = Vocab::build("alpha beta");
    assert_eq!(v.get("gamma"), None);
    assert_eq!(v.get("beta"), Some(1));
}
