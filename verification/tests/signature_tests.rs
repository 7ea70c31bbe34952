use anagrams::parse::parse_words;
use anagrams::sig::word_signature;

#[test]
fn word_sig_test() {
    assert_eq!(word_signature("test"), "estt");
    assert_eq!(word_signature(""), "");
    assert_eq!(word_signature("a"), "a");
    assert_eq!(word_signature("431"), "134");
    assert_eq!(word_signature("stop"), "opst");
}

#[test]
fn test_read_words_simple() {
    let test_input = "test\na\nstop";
    let expected_dict = vec!["test".to_string(), "a".to_string(), "stop".to_string()];
    let empty_vec: Vec<String> = vec![];
    assert_eq!(parse_words(test_input), expected_dict);
    assert_eq!(parse_words(""), empty_vec);
    assert_eq!(parse_words("a"), vec!["a".to_string()]);
    assert_eq!(parse_words("\n \n \n\n"), empty_vec)
}

#[test]
fn signature_is_case_insensitive() {
    assert_eq!(word_signature("Stop"), word_signature("pots"));
    assert_eq!(word_signature("pots"), word_signature("OPTS"));
    assert_eq!(word_signature("STOP"), "opst");
}

#[test]
fn signature_sorts_duplicates_stably() {
    assert_eq!(word_signature("banana"), "aaabnn");
    assert_eq!(word_signature("listen"), "eilnst");
}

#[test]
fn signature_distinguishes_different_letter_multisets() {
    assert_ne!(word_signature("ab"), word_signature("abb"));
    assert_ne!(word_signature("tea"), word_signature("tee"));
}

#[test]
fn blank_lines_are_discarded() {
    assert_eq!(parse_words("\n   \n\nword\n"), vec!["word".to_string()]);
}

#[test]
fn crlf_line_endings_are_split() {
    assert_eq!(
        parse_words("tea\r\neat\r\n"),
        vec!["tea".to_string(), "eat".to_string()]
    );
}

#[test]
fn interior_whitespace_is_one_word() {
    assert_eq!(parse_words("two words\n"), vec!["two words".to_string()]);
}
