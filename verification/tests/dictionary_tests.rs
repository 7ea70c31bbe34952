use anagrams::dictionary::{Dictionary, DictionaryMethods};
use anagrams::errors::CommandError;

fn sorted_group(group: &Vec<String>) -> Vec<String> {
    let mut g = group.clone();
    g.sort();
    g
}

#[test]
fn duplicate_words_join_the_group_once() {
    let dict = Dictionary::from_source("stop\nstop\npots");
    let group = dict.lookup("stop").expect("group expected");
    assert_eq!(group.len(), 2);
    assert_eq!(sorted_group(group), vec!["pots".to_string(), "stop".to_string()]);
}

#[test]
fn unique_signature_words_are_pruned() {
    let dict = Dictionary::from_source("alpha\nbeta");
    assert_eq!(dict.key_count(), 0);
    assert!(dict.lookup("alpha").is_none());
    assert!(dict.lookup("beta").is_none());
}

#[test]
fn merge_is_cumulative_within_one_source() {
    let mut dict = Dictionary::new();
    dict.update("tea\neat");
    let group = dict.lookup("tea").expect("group expected");
    assert_eq!(sorted_group(group), vec!["eat".to_string(), "tea".to_string()]);
}

#[test]
fn merge_is_cumulative_across_sources() {
    let mut dict = Dictionary::new();
    dict.update("tea");
    assert_eq!(dict.key_count(), 0);
    assert!(dict.lookup("tea").is_none());
    dict.update("eat");
    assert_eq!(dict.key_count(), 1);
    let group = dict.lookup("tea").expect("group expected");
    assert_eq!(sorted_group(group), vec!["eat".to_string(), "tea".to_string()]);
}

#[test]
fn lookup_round_trip() {
    let dict = Dictionary::from_source("listen\nsilent\nenlist\nbanana");
    assert_eq!(dict.key_count(), 1);
    let group = dict.lookup("LISTEN").expect("group expected");
    assert_eq!(group.len(), 3);
    assert_eq!(
        sorted_group(group),
        vec!["enlist".to_string(), "listen".to_string(), "silent".to_string()]
    );
    assert!(dict.lookup("banana").is_none());
}

#[test]
fn lookup_includes_the_queried_word() {
    let dict = Dictionary::from_source("stop\npots");
    let group = dict.lookup("stop").expect("group expected");
    assert!(group.contains(&"stop".to_string()));
    assert!(group.contains(&"pots".to_string()));
}

#[test]
fn blank_line_source_yields_one_word() {
    let mut dict = Dictionary::new();
    dict.update("\n   \n\nword\n");
    assert_eq!(dict.key_count(), 0);
    dict.update("word\ndrow\n");
    let group = dict.lookup("word").expect("group expected");
    assert_eq!(sorted_group(group), vec!["drow".to_string(), "word".to_string()]);
}

#[test]
fn clear_empties_the_dictionary() {
    let mut dict = Dictionary::from_source("stop\npots");
    assert_eq!(dict.key_count(), 1);
    dict.clear();
    assert_eq!(dict.key_count(), 0);
    assert!(dict.lookup("stop").is_none());
}

#[test]
fn key_count_counts_distinct_signatures() {
    let dict = Dictionary::from_source("stop\npots\ntea\neat\nbanana");
    assert_eq!(dict.key_count(), 2);
}

#[test]
fn io_failure_converts_to_command_error() {
    let e = std::io::Error::from(std::io::ErrorKind::NotFound);
    let ce = CommandError::from(e);
    assert!(matches!(ce, CommandError::IoError(_)));
    assert!(matches!(CommandError::ExitCommand, CommandError::ExitCommand));
}
