//! Scenario tests of the dictionary index and the search engine.

use anagrammer::Anagrammer;
use anagrammer::make_key;

fn dictionary(words: &[&str]) -> Anagrammer {
    let mut lines: Vec<String> = Vec::new();
    for w in words {
        lines.push(w.to_string());
    }
    Anagrammer::from_word_list(&lines)
}

/// Reverses each row back into phrase order, joins it with spaces, and
/// returns the sorted list of phrases.
fn phrases(results: Vec<Vec<String>>) -> Vec<String> {
    let mut out: Vec<String> = Vec::new();
    for row in results {
        let mut words: Vec<String> = row.clone();
        words.reverse();
        out.push(words.join(" "));
    }
    out.sort();
    out
}

fn small_dict() -> Anagrammer {
    dictionary(&["a", "at", "tea", "eat", "ate", "tab"])
}

#[test]
fn single_word_anagrams_of_tea() {
    let d = small_dict();
    let key = make_key("tea").unwrap();
    let results = d.find_anagrams(&key, 0, 1);
    assert_eq!(phrases(results), vec!["ate", "eat", "tea"]);
}

#[test]
fn two_word_partition_of_ata() {
    // "ata" has signature {a,a,t}, which splits as {a} + {a,t} and nothing else.
    let d = small_dict();
    let key = make_key("ata").unwrap();
    let results = d.find_anagrams(&key, 2, 2);
    assert_eq!(phrases(results), vec!["a at"]);
}

#[test]
fn tea_has_no_two_word_partition() {
    // {a,e,t} cannot be split into two signatures of this dictionary:
    // neither {e,t} nor {e} names a dictionary entry.
    let d = small_dict();
    let key = make_key("tea").unwrap();
    let results = d.find_anagrams(&key, 2, 2);
    assert!(results.is_empty());
}

#[test]
fn unmatched_query_yields_nothing() {
    let d = small_dict();
    let key = make_key("xyz").unwrap();
    let results = d.find_anagrams(&key, 0, usize::MAX);
    assert!(results.is_empty());
}

#[test]
fn letter_restriction_drops_short_words() {
    let mut d = small_dict();
    d.restrict_letters(3, usize::MAX);
    let key = make_key("tea").unwrap();
    let results = d.find_anagrams(&key, 0, usize::MAX);
    assert_eq!(phrases(results), vec!["ate", "eat", "tea"]);
}

#[test]
fn letter_restriction_drops_long_words() {
    let mut d = small_dict();
    d.restrict_letters(0, 1);
    let key = make_key("a").unwrap();
    let results = d.find_anagrams(&key, 0, usize::MAX);
    assert_eq!(phrases(results), vec!["a"]);
}

#[test]
fn empty_query_gives_one_empty_sequence() {
    let d = small_dict();
    let results = d.find_anagrams(&[], 0, usize::MAX);
    assert_eq!(results.len(), 1);
    assert!(results[0].is_empty());
}

#[test]
fn infeasible_bounds_give_nothing() {
    let d = small_dict();
    let key = make_key("tea").unwrap();
    let results = d.find_anagrams(&key, 3, 2);
    assert!(results.is_empty());
}

#[test]
fn repeated_signature_may_recur_in_a_partition() {
    let d = dictionary(&["ma", "mama"]);
    let key = make_key("mama").unwrap();
    let results = d.find_anagrams(&key, 0, usize::MAX);
    assert_eq!(phrases(results), vec!["ma ma", "mama"]);
}

#[test]
fn synonyms_multiply_spellings() {
    let d = dictionary(&["tea", "eat", "a", "te"]);
    let key = make_key("atea").unwrap();
    let results = d.find_anagrams(&key, 2, 2);
    // {a,a,e,t} = {a,e,t} + {a}, and the first signature has two spellings.
    assert_eq!(phrases(results), vec!["eat a", "tea a"]);
}

#[test]
fn word_count_bounds_are_respected() {
    let d = dictionary(&["a", "aa", "aaa"]);
    let key = make_key("aaa").unwrap();
    let all = d.find_anagrams(&key, 0, usize::MAX);
    for row in &all {
        assert!(row.len() >= 1 && row.len() <= 3);
    }
    let exactly_two: Vec<String> = phrases(
        dictionary(&["a", "aa", "aaa"]).find_anagrams(&make_key("aaa").unwrap(), 2, 2),
    );
    // Only one ordering of the partition {a} + {aa} is emitted.
    assert_eq!(exactly_two, vec!["a aa"]);
}

#[test]
fn case_and_punctuation_fold_into_the_same_search() {
    let d = dictionary(&["Tea", "EAT"]);
    let key = make_key("e.t.a").unwrap();
    let results = d.find_anagrams(&key, 0, 1);
    assert_eq!(phrases(results), vec!["EAT", "Tea"]);
}

#[test]
fn build_skips_blank_and_non_ascii_lines() {
    let d = dictionary(&["  tea  ", "", "   ", "caf\u{e9}", "eat"]);
    let key = make_key("tea").unwrap();
    let results = d.find_anagrams(&key, 0, 1);
    assert_eq!(phrases(results), vec!["eat", "tea"]);
}

#[test]
fn restrict_to_pool_is_idempotent() {
    let mut d1 = small_dict();
    let mut d2 = small_dict();
    let pool = make_key("tea").unwrap();
    d1.restrict(&pool);
    d2.restrict(&pool);
    d2.restrict(&pool);
    assert_eq!(d1.entries.len(), d2.entries.len());
    for (e1, e2) in d1.entries.iter().zip(d2.entries.iter()) {
        assert_eq!(e1.key, e2.key);
        assert_eq!(e1.words, e2.words);
    }
}

#[test]
fn default_list_is_usable() {
    let d = Anagrammer::from_default_list();
    let key = make_key("tea").unwrap();
    let results = d.find_anagrams(&key, 1, 1);
    let out = phrases(results);
    assert!(out.contains(&"tea".to_string()));
    assert!(out.contains(&"ate".to_string()));
    assert!(out.contains(&"eat".to_string()));
}

#[test]
fn no_partition_is_emitted_through_two_orderings() {
    // Both orderings of {a} then {a,t} would cover "ata"; exactly one of
    // them may appear.
    let d = dictionary(&["a", "at"]);
    let key = make_key("ata").unwrap();
    let results = d.find_anagrams(&key, 0, usize::MAX);
    assert_eq!(results.len(), 1);
}
