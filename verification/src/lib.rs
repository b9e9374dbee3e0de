//! Anagram search over a signature-indexed dictionary.
//!
//! A word's *signature* is the sorted sequence of its case-folded
//! alphanumeric bytes; two words are anagrams of each other exactly when
//! their signatures are equal.  A dictionary groups words by signature, and
//! the search engine enumerates every way to partition the letters of a
//! query phrase into dictionary signatures, expanding each signature into
//! all of its spellings.

pub mod sig;
pub mod dict;
pub mod search;

pub use sig::make_key;
pub use sig::subtract;
pub use sig::insert_sorted;
pub use dict::Anagrammer;
pub use dict::Entry;
pub use dict::trim_ascii;
pub use dict::default_word_list;
