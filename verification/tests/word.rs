use verve::{Letter, Word};

#[test]
fn from_bytes_accepts_lowercase_ascii() {
    let word = Word::from_bytes(&b"cat".to_vec()).unwrap();
    assert_eq!(word.letters, vec![Letter::C, Letter::A, Letter::T]);
}

#[test]
fn from_bytes_rejects_uppercase() {
    assert!(Word::from_bytes(&b"Cat".to_vec()).is_none());
}

#[test]
fn from_bytes_rejects_digits_and_punctuation() {
    assert!(Word::from_bytes(&b"c4t".to_vec()).is_none());
    assert!(Word::from_bytes(&b"ca-t".to_vec()).is_none());
}

#[test]
fn from_bytes_accepts_empty_input() {
    let word = Word::from_bytes(&Vec::new()).unwrap();
    assert!(word.letters.is_empty());
}

#[test]
fn letter_from_covers_exactly_the_alphabet() {
    assert_eq!(Letter::from(0), Some(Letter::A));
    assert_eq!(Letter::from(25), Some(Letter::Z));
    assert_eq!(Letter::from(26), None);
}

#[test]
fn letter_codes_count_from_zero() {
    assert_eq!(Letter::A.code(), 0);
    assert_eq!(Letter::Z.code(), 25);
}

#[test]
fn letter_iter_walks_the_alphabet_once() {
    let mut it = Letter::iter();
    let mut seen: Vec<Letter> = Vec::new();
    while let Some(l) = it.next() {
        seen.push(l);
    }
    assert_eq!(seen.len(), 26);
    assert_eq!(seen[0], Letter::A);
    assert_eq!(seen[25], Letter::Z);
}
