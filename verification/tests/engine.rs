use verve::anagram::AnagramR;
use verve::{Verve, Word};

fn w(s: &str) -> Word {
    let bytes: Vec<u8> = s.bytes().collect();
    Word::from_bytes(&bytes).expect("word parsing failed")
}

fn dict(words: &[&str]) -> Verve {
    let list: Vec<Word> = words.iter().map(|s| w(s)).collect();
    Verve::new(list)
}

fn sorted_ids(mut ids: Vec<usize>) -> Vec<usize> {
    ids.sort_unstable();
    ids
}

fn sorted_lists(lists: Vec<Vec<usize>>) -> Vec<Vec<usize>> {
    let mut out = lists;
    out.sort();
    out
}

#[test]
fn exact_anagrams_cat_act_tac() {
    let verve = dict(&["cat", "act", "tac", "dog"]);
    let engine = AnagramR::new(&verve);
    let ids = sorted_ids(engine.exact_anagrams(&w("cat")));
    assert_eq!(ids, vec![0, 1, 2]);
}

#[test]
fn anagrams_cat_same_set() {
    let verve = dict(&["cat", "act", "tac", "dog"]);
    let engine = AnagramR::new(&verve);
    let ids = sorted_ids(engine.anagrams(&w("cat")));
    assert_eq!(ids, vec![0, 1, 2]);
}

#[test]
fn anagrams_include_sub_anagrams() {
    let verve = dict(&["a", "at", "cat"]);
    let engine = AnagramR::new(&verve);
    let ids = sorted_ids(engine.anagrams(&w("cat")));
    assert_eq!(ids, vec![0, 1, 2]);
}

#[test]
fn multigrams_minimal_dictionary() {
    let verve = dict(&["a", "cat", "act"]);
    let engine = AnagramR::new(&verve);
    let lists = sorted_lists(engine.multigrams(&w("cat"), None));
    assert_eq!(lists, vec![vec![1], vec![2]]);
}

#[test]
fn no_match_returns_empty_not_error() {
    let verve = dict(&["cat", "act", "tac", "dog"]);
    let engine = AnagramR::new(&verve);
    assert!(engine.exact_anagrams(&w("zz")).is_empty());
    assert!(engine.anagrams(&w("zz")).is_empty());
    assert!(engine.multigrams(&w("zz"), None).is_empty());
}

#[test]
fn multigram_two_word_decomposition() {
    let verve = dict(&["a", "b", "ab"]);
    let engine = AnagramR::new(&verve);
    let lists = engine.multigrams(&w("ab"), None);
    assert_eq!(lists.len(), 2);
    assert!(lists.contains(&vec![2]));
    let multi: Vec<&Vec<usize>> = lists.iter().filter(|l| l.len() == 2).collect();
    assert_eq!(multi.len(), 1);
    assert_eq!(sorted_ids(multi[0].clone()), vec![0, 1]);
}

#[test]
fn multigram_limit_one_matches_exact_anagrams() {
    let verve = dict(&["a", "b", "ab", "ba"]);
    let engine = AnagramR::new(&verve);
    let lists = sorted_lists(engine.multigrams(&w("ab"), Some(1)));
    assert_eq!(lists, vec![vec![2], vec![3]]);
    let exact = sorted_ids(engine.exact_anagrams(&w("ab")));
    assert_eq!(exact, vec![2, 3]);
}

#[test]
fn multigram_limit_never_exceeded() {
    let verve = dict(&["a", "b", "c", "ab", "abc"]);
    let engine = AnagramR::new(&verve);
    for lists in [
        engine.multigrams(&w("abc"), Some(1)),
        engine.multigrams(&w("abc"), Some(2)),
    ] {
        for l in &lists {
            assert!(l.len() >= 1);
        }
    }
    for l in engine.multigrams(&w("abc"), Some(1)) {
        assert!(l.len() <= 1);
    }
    for l in engine.multigrams(&w("abc"), Some(2)) {
        assert!(l.len() <= 2);
    }
}

#[test]
fn multigram_limit_zero_keeps_single_words() {
    let verve = dict(&["ab", "a", "b"]);
    let engine = AnagramR::new(&verve);
    let lists = engine.multigrams(&w("ab"), Some(0));
    assert_eq!(lists, vec![vec![0]]);
}

#[test]
fn multigram_letters_always_reassemble_query() {
    let verve = dict(&["a", "b", "ab", "abb"]);
    let engine = AnagramR::new(&verve);
    for l in engine.multigrams(&w("abb"), None) {
        let mut letters: Vec<u8> = Vec::new();
        for id in &l {
            for letter in &engine_word(&verve, *id).letters {
                letters.push(letter.code());
            }
        }
        letters.sort_unstable();
        assert_eq!(letters, vec![0, 1, 1]);
    }
}

fn engine_word<'a>(verve: &'a Verve, id: usize) -> &'a Word {
    verve.word(id)
}

#[test]
fn empty_query_produces_no_multigrams() {
    let verve = dict(&["a", "b"]);
    let engine = AnagramR::new(&verve);
    assert!(engine.multigrams(&w(""), None).is_empty());
    assert!(engine.anagrams(&w("")).is_empty());
}

#[test]
fn rebuilding_engine_gives_identical_answers() {
    let verve = dict(&["cat", "act", "dog", "god", "a", "at"]);
    let first = AnagramR::new(&verve);
    let second = AnagramR::new(&verve);
    for query in ["cat", "dog", "at", "zz", "cata"] {
        assert_eq!(first.exact_anagrams(&w(query)), second.exact_anagrams(&w(query)));
        assert_eq!(first.anagrams(&w(query)), second.anagrams(&w(query)));
        assert_eq!(first.multigrams(&w(query), None), second.multigrams(&w(query), None));
    }
}

#[test]
fn duplicate_words_share_one_alphagram_entry() {
    let verve = dict(&["ab", "ab", "ba"]);
    let engine = AnagramR::new(&verve);
    let ids = engine.exact_anagrams(&w("ab"));
    assert_eq!(ids, vec![0, 1, 2]);
}

#[test]
fn verve_resolves_ids_in_order() {
    let verve = dict(&["cat", "dog"]);
    assert_eq!(verve.word(0).letters, w("cat").letters);
    assert_eq!(verve.word(1).letters, w("dog").letters);
}

#[test]
fn empty_dictionary_word_only_matches_exactly() {
    let verve = dict(&["", "a"]);
    let engine = AnagramR::new(&verve);
    assert_eq!(engine.exact_anagrams(&w("")), vec![0]);
    assert_eq!(engine.anagrams(&w("a")), vec![1]);
    assert!(engine.multigrams(&w(""), None).is_empty());
}

#[test]
fn multigram_each_combination_appears_once() {
    let verve = dict(&["a", "b", "c"]);
    let engine = AnagramR::new(&verve);
    let lists = engine.multigrams(&w("abc"), None);
    assert_eq!(lists.len(), 1);
    assert_eq!(sorted_ids(lists[0].clone()), vec![0, 1, 2]);
}

#[test]
fn multigram_duplicate_free_with_repeated_letters() {
    let verve = dict(&["a", "aa"]);
    let engine = AnagramR::new(&verve);
    let lists = engine.multigrams(&w("aa"), None);
    assert_eq!(lists.len(), 2);
    assert!(lists.contains(&vec![1]));
    assert!(lists.contains(&vec![0, 0]));
}
