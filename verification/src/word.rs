use vstd::prelude::*;
use vstd::relations::{sorted_by, total_ordering};
use vstd::seq_lib::lemma_sorted_unique;

verus! {

broadcast use vstd::seq_lib::group_to_multiset_ensures;

/// One of the 26 lowercase letters, the only symbols a word may hold.
#[derive(Copy, Clone, Debug, PartialEq, Eq, Structural, Hash)]
pub enum Letter {
    A,
    B,
    C,
    D,
    E,
    F,
    G,
    H,
    I,
    J,
    K,
    L,
    M,
    N,
    O,
    P,
    Q,
    R,
    S,
    T,
    U,
    V,
    W,
    X,
    Y,
    Z,
}

/// The position of a letter in the alphabet, `A` being 0 and `Z` being 25.
pub open spec fn lidx(l: Letter) -> int {
    match l {
        Letter::A => 0,
        Letter::B => 1,
        Letter::C => 2,
        Letter::D => 3,
        Letter::E => 4,
        Letter::F => 5,
        Letter::G => 6,
        Letter::H => 7,
        Letter::I => 8,
        Letter::J => 9,
        Letter::K => 10,
        Letter::L => 11,
        Letter::M => 12,
        Letter::N => 13,
        Letter::O => 14,
        Letter::P => 15,
        Letter::Q => 16,
        Letter::R => 17,
        Letter::S => 18,
        Letter::T => 19,
        Letter::U => 20,
        Letter::V => 21,
        Letter::W => 22,
        Letter::X => 23,
        Letter::Y => 24,
        Letter::Z => 25,
    }
}

/// The letter at a given alphabet position; positions outside 0..26 give `Z`.
pub open spec fn letter_from(i: int) -> Letter {
    if i == 0 {
        Letter::A
    } else if i == 1 {
        Letter::B
    } else if i == 2 {
        Letter::C
    } else if i == 3 {
        Letter::D
    } else if i == 4 {
        Letter::E
    } else if i == 5 {
        Letter::F
    } else if i == 6 {
        Letter::G
    } else if i == 7 {
        Letter::H
    } else if i == 8 {
        Letter::I
    } else if i == 9 {
        Letter::J
    } else if i == 10 {
        Letter::K
    } else if i == 11 {
        Letter::L
    } else if i == 12 {
        Letter::M
    } else if i == 13 {
        Letter::N
    } else if i == 14 {
        Letter::O
    } else if i == 15 {
        Letter::P
    } else if i == 16 {
        Letter::Q
    } else if i == 17 {
        Letter::R
    } else if i == 18 {
        Letter::S
    } else if i == 19 {
        Letter::T
    } else if i == 20 {
        Letter::U
    } else if i == 21 {
        Letter::V
    } else if i == 22 {
        Letter::W
    } else if i == 23 {
        Letter::X
    } else if i == 24 {
        Letter::Y
    } else {
        Letter::Z
    }
}

pub proof fn lemma_letter_from_lidx(l: Letter)
    ensures
        letter_from(lidx(l)) == l,
{
}

pub open spec fn letter_le(a: Letter, b: Letter) -> bool {
    lidx(a) <= lidx(b)
}

/// The letter ordering as a relation value, for vstd's sorting vocabulary.
pub open spec fn letter_leq_fn() -> spec_fn(Letter, Letter) -> bool {
    |a: Letter, b: Letter| letter_le(a, b)
}

pub proof fn lemma_letter_total()
    ensures
        total_ordering(letter_leq_fn()),
{
    assert forall|a: Letter, b: Letter| lidx(a) == lidx(b) implies a == b by {
        lemma_letter_from_lidx(a);
        lemma_letter_from_lidx(b);
    }
}

/// A sequence of letters in non-decreasing alphabet order.
pub open spec fn sorted(s: Seq<Letter>) -> bool {
    forall|p: int, q: int| 0 <= p < q < s.len() ==> letter_le(#[trigger] s[p], #[trigger] s[q])
}

pub proof fn lemma_sorted_equiv(s: Seq<Letter>)
    ensures
        sorted(s) <==> sorted_by(s, letter_leq_fn()),
{
    if sorted(s) {
        assert forall|p: int, q: int| 0 <= p < q < s.len() implies letter_leq_fn()(
            s[p],
            s[q],
        ) by {
            assert(letter_le(s[p], s[q]));
        }
        assert(sorted_by(s, letter_leq_fn()));
    }
    if sorted_by(s, letter_leq_fn()) {
        assert forall|p: int, q: int| 0 <= p < q < s.len() implies letter_le(s[p], s[q]) by {
            assert(letter_leq_fn()(s[p], s[q]));
        }
    }
}

/// The alphagram of a letter sequence: the same letters, sorted ascending.
pub open spec fn alpha_spec(w: Seq<Letter>) -> Seq<Letter> {
    w.sort_by(letter_leq_fn())
}

pub proof fn lemma_alpha_spec(w: Seq<Letter>)
    ensures
        sorted(alpha_spec(w)),
        alpha_spec(w).to_multiset() == w.to_multiset(),
{
    lemma_letter_total();
    w.lemma_sort_by_ensures(letter_leq_fn());
    lemma_sorted_equiv(alpha_spec(w));
}

/// A sorted sequence is the alphagram of anything with the same letters.
pub proof fn lemma_sorted_is_alpha(s: Seq<Letter>, w: Seq<Letter>)
    requires
        sorted(s),
        s.to_multiset() == w.to_multiset(),
    ensures
        s == alpha_spec(w),
{
    lemma_letter_total();
    lemma_alpha_spec(w);
    lemma_sorted_equiv(s);
    lemma_sorted_equiv(alpha_spec(w));
    lemma_sorted_unique(s, alpha_spec(w), letter_leq_fn());
}

impl Letter {
    /// The letter's alphabet position as a machine integer.
    pub fn code(self) -> (r: u8)
        ensures
            r as int == lidx(self),
            r < 26,
    {
        match self {
            Letter::A => 0,
            Letter::B => 1,
            Letter::C => 2,
            Letter::D => 3,
            Letter::E => 4,
            Letter::F => 5,
            Letter::G => 6,
            Letter::H => 7,
            Letter::I => 8,
            Letter::J => 9,
            Letter::K => 10,
            Letter::L => 11,
            Letter::M => 12,
            Letter::N => 13,
            Letter::O => 14,
            Letter::P => 15,
            Letter::Q => 16,
            Letter::R => 17,
            Letter::S => 18,
            Letter::T => 19,
            Letter::U => 20,
            Letter::V => 21,
            Letter::W => 22,
            Letter::X => 23,
            Letter::Y => 24,
            Letter::Z => 25,
        }
    }

    pub fn iter() -> (r: LetterIter)
        ensures
            r.pos() == 0,
    {
        LetterIter { cur: 0 }
    }

    /// The letter at an alphabet position, or `None` past the alphabet's end.
    pub fn from(i: u8) -> (r: Option<Letter>)
        ensures
            i < 26 ==> r == Some(letter_from(i as int)),
            i >= 26 ==> r is None,
    {
        let result = match i {
            0 => Letter::A,
            1 => Letter::B,
            2 => Letter::C,
            3 => Letter::D,
            4 => Letter::E,
            5 => Letter::F,
            6 => Letter::G,
            7 => Letter::H,
            8 => Letter::I,
            9 => Letter::J,
            10 => Letter::K,
            11 => Letter::L,
            12 => Letter::M,
            13 => Letter::N,
            14 => Letter::O,
            15 => Letter::P,
            16 => Letter::Q,
            17 => Letter::R,
            18 => Letter::S,
            19 => Letter::T,
            20 => Letter::U,
            21 => Letter::V,
            22 => Letter::W,
            23 => Letter::X,
            24 => Letter::Y,
            25 => Letter::Z,
            _ => {
                return None;
            },
        };
        Some(result)
    }
}

/// Walks the alphabet once, from `A` to `Z`.
pub struct LetterIter {
    cur: u8,
}

impl LetterIter {
    pub closed spec fn pos(self) -> int {
        self.cur as int
    }

    pub fn next(&mut self) -> (r: Option<Letter>)
        requires
            old(self).pos() <= 26,
        ensures
            final(self).pos() == old(self).pos() + 1,
            old(self).pos() < 26 ==> r == Some(letter_from(old(self).pos())),
            old(self).pos() >= 26 ==> r is None,
    {
        let result = Letter::from(self.cur);
        self.cur = self.cur + 1;
        result
    }
}

/// An ordered sequence of letters, exactly as read.
#[derive(Clone, Debug, PartialEq, Eq, Hash)]
pub struct Word {
    pub letters: Vec<Letter>,
}

impl View for Word {
    type V = Seq<Letter>;

    open spec fn view(&self) -> Seq<Letter> {
        self.letters@
    }
}

pub type Id = usize;

/// A dictionary word together with its stable, zero-based identifier.
#[derive(Debug)]
pub struct WordDatum {
    pub word: Word,
    pub id: Id,
}

impl Word {
    /// Reads a word from lowercase ASCII bytes; any byte outside `a`..=`z`
    /// rejects the whole input.
    pub fn from_bytes(s: &Vec<u8>) -> (r: Option<Word>)
        ensures
            r is Some <==> (forall|i: int| 0 <= i < s@.len() ==> 97 <= #[trigger] s@[i] <= 122),
            r matches Some(w) ==> w@.len() == s@.len() && (forall|i: int|
                0 <= i < s@.len() ==> lidx(#[trigger] w@[i]) == s@[i] - 97),
    {
        let mut letters: Vec<Letter> = Vec::new();
        let mut i: usize = 0;
        while i < s.len()
            invariant
                i <= s@.len(),
                letters@.len() == i,
                forall|j: int| 0 <= j < i ==> 97 <= #[trigger] s@[j] <= 122,
                forall|j: int| 0 <= j < i ==> lidx(#[trigger] letters@[j]) == s@[j] - 97,
            decreases s@.len() - i,
        {
            let b = s[i];
            if b < 97 || b > 122 {
                return None;
            }
            match Letter::from(b - 97) {
                Some(l) => {
                    proof {
                        lemma_letter_from_lidx(l);
                        assert(lidx(letter_from((b - 97) as int)) == b - 97);
                    }
                    letters.push(l);
                },
                None => {
                    return None;
                },
            }
            i = i + 1;
        }
        Some(Word { letters })
    }
}

/// True exactly when the two words hold the same letters in the same order.
pub fn word_eq(a: &Word, b: &Word) -> (r: bool)
    ensures
        r <==> a@ == b@,
{
    if a.letters.len() != b.letters.len() {
        return false;
    }
    let mut i: usize = 0;
    while i < a.letters.len()
        invariant
            i <= a.letters@.len(),
            a.letters@.len() == b.letters@.len(),
            forall|j: int| 0 <= j < i ==> a.letters@[j] == b.letters@[j],
        decreases a.letters@.len() - i,
    {
        if a.letters[i] != b.letters[i] {
            return false;
        }
        i = i + 1;
    }
    proof {
        assert(a@ =~= b@);
    }
    true
}

/// A copy of the word whose letters are provably the same.
pub fn word_clone(w: &Word) -> (r: Word)
    ensures
        r@ == w@,
{
    let mut letters: Vec<Letter> = Vec::new();
    let mut i: usize = 0;
    while i < w.letters.len()
        invariant
            i <= w.letters@.len(),
            letters@ == w.letters@.take(i as int),
        decreases w.letters@.len() - i,
    {
        letters.push(w.letters[i]);
        proof {
            assert(letters@ =~= w.letters@.take(i as int + 1));
        }
        i = i + 1;
    }
    proof {
        assert(letters@ =~= w.letters@);
    }
    Word { letters }
}

pub proof fn lemma_to_multiset_insert(s: Seq<Letter>, i: int, x: Letter)
    requires
        0 <= i <= s.len(),
    ensures
        s.insert(i, x).to_multiset() == s.to_multiset().insert(x),
{
    let t = s.insert(i, x);
    s.insert_ensures(i, x);
    assert(t.remove(i) =~= s);
    assert(t.remove(i).to_multiset() == t.to_multiset().remove(t[i]));
    assert(t[i] == x);
    assert(t.to_multiset().count(x) > 0) by {
        assert(t[i] == x);
        assert(t.contains(x));
    }
    assert(t.to_multiset() =~= s.to_multiset().insert(x)) by {
        assert(t.to_multiset().remove(x) == s.to_multiset());
        assert forall|y: Letter| t.to_multiset().count(y) == s.to_multiset().insert(x).count(
            y,
        ) by {
            if y == x {
                assert(t.to_multiset().remove(x).count(x) == t.to_multiset().count(x) - 1);
            } else {
                assert(t.to_multiset().remove(x).count(y) == t.to_multiset().count(y));
            }
        }
    }
}

/// Puts one letter into its place in an already sorted vector.
fn insert_sorted(v: &mut Vec<Letter>, l: Letter)
    requires
        sorted(old(v)@),
    ensures
        sorted(final(v)@),
        final(v)@.to_multiset() == old(v)@.to_multiset().insert(l),
        final(v)@.len() == old(v)@.len() + 1,
{
    let mut j: usize = 0;
    while j < v.len() && v[j].code() <= l.code()
        invariant
            j <= v@.len(),
            v@ == old(v)@,
            forall|k: int| 0 <= k < j ==> letter_le(#[trigger] v@[k], l),
        decreases v@.len() - j,
    {
        j = j + 1;
    }
    proof {
        old(v)@.insert_ensures(j as int, l);
        lemma_to_multiset_insert(old(v)@, j as int, l);
    }
    v.insert(j, l);
    proof {
        let t = v@;
        assert forall|p: int, q: int| 0 <= p < q < t.len() implies letter_le(t[p], t[q]) by {
            if p < j && q < j {
                assert(t[p] == old(v)@[p] && t[q] == old(v)@[q]);
            } else if p < j && q == j {
                assert(letter_le(t[p], l));
            } else if p < j && q > j {
                assert(t[p] == old(v)@[p] && t[q] == old(v)@[q - 1]);
            } else if p == j && q > j {
                assert(t[q] == old(v)@[q - 1]);
                if j < old(v)@.len() {
                    assert(!letter_le(old(v)@[j as int], l));
                    assert(letter_le(old(v)@[j as int], old(v)@[q - 1]));
                }
            } else {
                assert(t[p] == old(v)@[p - 1] && t[q] == old(v)@[q - 1]);
            }
        }
    }
}

/// The word's alphagram: its letters sorted into canonical ascending order.
pub fn alphatize(word: &Word) -> (r: Word)
    ensures
        r@ == alpha_spec(word@),
{
    let mut letters: Vec<Letter> = Vec::new();
    let mut i: usize = 0;
    while i < word.letters.len()
        invariant
            i <= word.letters@.len(),
            sorted(letters@),
            letters@.to_multiset() == word.letters@.take(i as int).to_multiset(),
        decreases word.letters@.len() - i,
    {
        proof {
            assert(word.letters@.take(i as int + 1) =~= word.letters@.take(i as int).push(
                word.letters@[i as int],
            ));
        }
        insert_sorted(&mut letters, word.letters[i]);
        i = i + 1;
    }
    proof {
        assert(word.letters@.take(word.letters@.len() as int) =~= word.letters@);
        lemma_sorted_is_alpha(letters@, word@);
    }
    Word { letters }
}

} // verus!
