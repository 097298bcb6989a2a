use vstd::prelude::*;
use crate::word::{
    alpha_spec, alphatize, lemma_letter_from_lidx, lemma_sorted_is_alpha, lemma_to_multiset_insert,
    letter_from, letter_le, lidx, sorted, word_clone, word_eq, Id, Letter, Word,
};
use crate::Verve;
use vstd::multiset::Multiset;

verus! {

broadcast use vstd::seq_lib::group_to_multiset_ensures;

/// A 26-ary trie over sorted letter sequences. A `Full` node holds one child
/// slot per letter and, where a dictionary alphagram ends here, that
/// alphagram itself.
pub enum TrieNode {
    Empty,
    Full { next: Vec<TrieNode>, alpha: Option<Word> },
}

/// Whether following `q` letter by letter from `n` ends at a node that
/// carries a stored alphagram.
pub open spec fn trie_has(n: TrieNode, q: Seq<Letter>) -> bool
    decreases q.len(),
{
    match n {
        TrieNode::Empty => false,
        TrieNode::Full { next, alpha } => {
            if q.len() == 0 {
                alpha is Some
            } else {
                next@.len() == 26 && trie_has(next@[lidx(q[0])], q.drop_first())
            }
        },
    }
}

/// Every `Full` node has all 26 child slots, and a stored alphagram equals
/// the path that leads to it from the root.
pub open spec fn trie_wf(n: TrieNode, path: Seq<Letter>) -> bool
    decreases n,
{
    match n {
        TrieNode::Empty => true,
        TrieNode::Full { next, alpha } => {
            &&& next@.len() == 26
            &&& (alpha matches Some(w) ==> w@ == path)
            &&& (forall|i: int|
                0 <= i < 26 ==> trie_wf(#[trigger] next@[i], path.push(letter_from(i))))
        },
    }
}

impl Default for TrieNode {
    fn default() -> (r: Self)
        ensures
            r is Empty,
    {
        TrieNode::Empty
    }
}

impl TrieNode {
    pub fn new() -> (r: TrieNode)
        ensures
            r is Empty,
    {
        TrieNode::Empty
    }

    /// A node with 26 empty child slots and no stored alphagram.
    pub fn new_full() -> (r: TrieNode)
        ensures
            r matches TrieNode::Full { next, alpha } && alpha is None && next@.len() == 26 && (
            forall|i: int| 0 <= i < 26 ==> (#[trigger] next@[i]) is Empty),
            forall|path: Seq<Letter>| trie_wf(r, path),
            forall|q: Seq<Letter>| !trie_has(r, q),
    {
        let mut next: Vec<TrieNode> = Vec::new();
        let mut i: usize = 0;
        while i < 26
            invariant
                next@.len() == i,
                i <= 26,
                forall|j: int| 0 <= j < i ==> next@[j] is Empty,
            decreases 26 - i,
        {
            next.push(TrieNode::Empty);
            i = i + 1;
        }
        let r = TrieNode::Full { next, alpha: None };
        proof {
            assert forall|path: Seq<Letter>| trie_wf(r, path) by {
                assert forall|k: int| 0 <= k < 26 implies trie_wf(
                    #[trigger] next@[k],
                    path.push(letter_from(k)),
                ) by {
                    assert(next@[k] is Empty);
                }
            }
            assert forall|q: Seq<Letter>| !trie_has(r, q) by {
                if q.len() > 0 {
                    assert(next@[lidx(q[0])] is Empty);
                    assert(!trie_has(next@[lidx(q[0])], q.drop_first()));
                }
            }
        }
        r
    }
}

/// Adds the alphagram's suffix that starts at `pos` below the node `n`,
/// which sits at the end of the path holding the first `pos` letters.
fn trie_insert(n: TrieNode, alpha: &Word, pos: usize, Ghost(path): Ghost<Seq<Letter>>) -> (r:
    TrieNode)
    requires
        n is Full,
        trie_wf(n, path),
        pos <= alpha@.len(),
        path == alpha@.take(pos as int),
    ensures
        r is Full,
        trie_wf(r, path),
        forall|q: Seq<Letter>|
            #[trigger] trie_has(r, q) <==> trie_has(n, q) || q == alpha@.skip(pos as int),
    decreases alpha@.len() - pos,
{
    let ghost n0 = n;
    match n {
        TrieNode::Empty => {
            proof {
                assert(false);
            }
            TrieNode::Empty
        },
        TrieNode::Full { mut next, alpha: term } => {
            if pos == alpha.letters.len() {
                let new_term = match term {
                    None => Some(word_clone(alpha)),
                    Some(w) => Some(w),
                };
                let r = TrieNode::Full { next, alpha: new_term };
                proof {
                    assert(alpha@.take(pos as int) =~= alpha@);
                    assert(alpha@.skip(pos as int) =~= Seq::<Letter>::empty());
                    assert(trie_wf(r, path));
                    assert forall|q: Seq<Letter>| #[trigger]
                        trie_has(r, q) <==> trie_has(n0, q) || q == alpha@.skip(pos as int) by {
                        if q.len() == 0 {
                            assert(q =~= Seq::<Letter>::empty());
                            assert(trie_has(r, q));
                        }
                    }
                }
                r
            } else {
                let l = alpha.letters[pos];
                let li = l.code() as usize;
                let ghost next0 = next@;
                let ghost child_path = path.push(l);
                proof {
                    lemma_letter_from_lidx(l);
                    assert(trie_wf(next0[li as int], path.push(letter_from(li as int))));
                    assert(child_path =~= alpha@.take(pos as int + 1));
                }
                let child = next.remove(li);
                let child_full = match child {
                    TrieNode::Empty => TrieNode::new_full(),
                    other => other,
                };
                proof {
                    if next0[li as int] is Empty {
                        assert forall|q2: Seq<Letter>| !trie_has(next0[li as int], q2) by {}
                        assert forall|q2: Seq<Letter>| #[trigger]
                            trie_has(child_full, q2) == trie_has(next0[li as int], q2) by {
                            assert(!trie_has(child_full, q2));
                        }
                    }
                    assert(child_full is Full);
                    assert(trie_wf(child_full, child_path));
                }
                let new_child = trie_insert(child_full, alpha, pos + 1, Ghost(child_path));
                next.insert(li, new_child);
                let r = TrieNode::Full { next, alpha: term };
                proof {
                    assert(next@ =~= next0.update(li as int, new_child));
                    assert(trie_wf(r, path)) by {
                        assert forall|i: int| 0 <= i < 26 implies trie_wf(
                            #[trigger] next@[i],
                            path.push(letter_from(i)),
                        ) by {
                            if i != li as int {
                                assert(next@[i] == next0[i]);
                            } else {
                                assert(letter_from(i) == l);
                            }
                        }
                    }
                    let suffix = alpha@.skip(pos as int);
                    assert(suffix.len() > 0);
                    assert(suffix[0] == alpha@[pos as int]);
                    assert(suffix.drop_first() =~= alpha@.skip(pos as int + 1));
                    assert forall|q: Seq<Letter>| #[trigger]
                        trie_has(r, q) <==> trie_has(n0, q) || q == suffix by {
                        if q.len() == 0 {
                            assert(q != suffix);
                            assert(trie_has(r, q) == (term is Some));
                        } else {
                            let qi = lidx(q[0]);
                            assert(0 <= qi < 26);
                            if qi == li as int {
                                lemma_letter_from_lidx(q[0]);
                                assert(q[0] == l);
                                assert(trie_has(r, q) == trie_has(new_child, q.drop_first()));
                                assert(trie_has(n0, q) == trie_has(
                                    next0[li as int],
                                    q.drop_first(),
                                ));
                                assert(trie_has(new_child, q.drop_first()) <==> trie_has(
                                    child_full,
                                    q.drop_first(),
                                ) || q.drop_first() == alpha@.skip(pos as int + 1));
                                assert(trie_has(child_full, q.drop_first()) == trie_has(
                                    next0[li as int],
                                    q.drop_first(),
                                ));
                                if q.drop_first() == suffix.drop_first() {
                                    assert(q[0] == suffix[0]);
                                    assert(q.len() == q.drop_first().len() + 1);
                                    assert(suffix.len() == suffix.drop_first().len() + 1);
                                    assert forall|k: int| 0 <= k < q.len() implies q[k]
                                        == suffix[k] by {
                                        if k > 0 {
                                            assert(q[k] == q.drop_first()[k - 1]);
                                            assert(suffix[k] == suffix.drop_first()[k - 1]);
                                        }
                                    }
                                    assert(q =~= suffix);
                                }
                                if q == suffix {
                                    assert(q.drop_first() == suffix.drop_first());
                                }
                            } else {
                                assert(next@[qi] == next0[qi]);
                                assert(trie_has(r, q) == trie_has(next0[qi], q.drop_first()));
                                assert(q[0] != l) by {
                                    lemma_letter_from_lidx(q[0]);
                                    lemma_letter_from_lidx(l);
                                }
                                assert(q != suffix);
                            }
                        }
                    }
                }
                r
            }
        },
    }
}

/// Head decomposition of a suffix's letter multiset.
proof fn lemma_skip_head(s: Seq<Letter>, i: int)
    requires
        0 <= i < s.len(),
    ensures
        s.skip(i).to_multiset() == s.skip(i + 1).to_multiset().insert(s[i]),
{
    assert(s.skip(i) =~= s.skip(i + 1).insert(0, s[i]));
    lemma_to_multiset_insert(s.skip(i + 1), 0, s[i]);
}

/// Tail extension of a prefix's letter multiset.
proof fn lemma_take_push(s: Seq<Letter>, i: int)
    requires
        0 <= i < s.len(),
    ensures
        s.take(i + 1).to_multiset() == s.take(i).to_multiset().insert(s[i]),
{
    assert(s.take(i + 1) =~= s.take(i).push(s[i]));
}

/// Removes one sorted word's letters from another, duplicate-aware; both
/// stay sorted and the result is the exact multiset difference.
fn alpha_subtract(source: &Word, to_subtract: &Word) -> (r: Word)
    requires
        sorted(source@),
        sorted(to_subtract@),
        to_subtract@.to_multiset().subset_of(source@.to_multiset()),
    ensures
        sorted(r@),
        r@.to_multiset() == source@.to_multiset().sub(to_subtract@.to_multiset()),
        r@.len() == source@.len() - to_subtract@.len(),
{
    let mut out: Vec<Letter> = Vec::new();
    let mut i: usize = 0;
    let mut j: usize = 0;
    proof {
        assert(to_subtract@.skip(0) =~= to_subtract@);
        assert(source@.skip(0) =~= source@);
        assert(out@.to_multiset().add(to_subtract@.take(0).to_multiset()) =~= source@.take(
            0,
        ).to_multiset());
    }
    while i < source.letters.len()
        invariant
            i <= source@.len(),
            j <= to_subtract@.len(),
            sorted(source@),
            sorted(to_subtract@),
            sorted(out@),
            out@.len() + j == i,
            out@.to_multiset().add(to_subtract@.take(j as int).to_multiset())
                == source@.take(i as int).to_multiset(),
            to_subtract@.skip(j as int).to_multiset().subset_of(
                source@.skip(i as int).to_multiset(),
            ),
            forall|k: int, m: int|
                0 <= k < out@.len() && i <= m < source@.len() ==> letter_le(
                    #[trigger] out@[k],
                    #[trigger] source@[m],
                ),
        decreases source@.len() - i,
    {
        let c = source.letters[i];
        proof {
            lemma_skip_head(source@, i as int);
            lemma_take_push(source@, i as int);
        }
        if j < to_subtract.letters.len() && c == to_subtract.letters[j] {
            proof {
                lemma_skip_head(to_subtract@, j as int);
                lemma_take_push(to_subtract@, j as int);
                let outm = out@.to_multiset();
                let subm = to_subtract@.take(j as int).to_multiset();
                assert(outm.add(subm.insert(c)) =~= outm.add(subm).insert(c));
                assert(out@.to_multiset().add(to_subtract@.take(j as int + 1).to_multiset())
                    =~= source@.take(i as int + 1).to_multiset());
                assert forall|y: Letter|
                    #![trigger to_subtract@.skip(j as int + 1).to_multiset().count(y)]
                    to_subtract@.skip(j as int + 1).to_multiset().count(y) <= source@.skip(
                        i as int + 1,
                    ).to_multiset().count(y) by {
                    let subr = to_subtract@.skip(j as int).to_multiset();
                    let srcr = source@.skip(i as int).to_multiset();
                    assert(subr.count(y) <= srcr.count(y));
                }
            }
            j = j + 1;
        } else {
            proof {
                let subr = to_subtract@.skip(j as int);
                let srcr = source@.skip(i as int);
                if j < to_subtract@.len() {
                    let d = to_subtract@[j as int];
                    assert(subr[0] == d);
                    assert(subr.contains(d));
                    assert(subr.to_multiset().count(d) > 0);
                    assert(srcr.to_multiset().count(d) > 0);
                    assert(srcr.contains(d));
                    let m = choose|m: int| 0 <= m < srcr.len() && srcr[m] == d;
                    assert(source@[i + m] == d);
                    assert(letter_le(c, d));
                    assert(c != d);
                    assert(lidx(c) < lidx(d));
                    if subr.to_multiset().count(c) > 0 {
                        assert(subr.contains(c));
                        let m2 = choose|m2: int| 0 <= m2 < subr.len() && subr[m2] == c;
                        assert(to_subtract@[j + m2] == c);
                        assert(letter_le(d, c));
                        assert(false);
                    }
                    assert(subr.to_multiset().count(c) == 0);
                } else {
                    assert(to_subtract@.take(j as int) =~= to_subtract@);
                    assert(subr =~= Seq::<Letter>::empty());
                    assert(subr.to_multiset().count(c) == 0) by {
                        if subr.to_multiset().count(c) > 0 {
                            assert(subr.contains(c));
                        }
                    }
                }
                assert forall|y: Letter|
                    #![trigger subr.to_multiset().count(y)]
                    subr.to_multiset().count(y) <= source@.skip(i as int + 1).to_multiset().count(
                        y,
                    ) by {
                    assert(subr.to_multiset().count(y) <= srcr.to_multiset().count(y));
                    if y == c {
                        assert(subr.to_multiset().count(c) == 0);
                    } else {
                        assert(srcr.to_multiset().count(y) == source@.skip(
                            i as int + 1,
                        ).to_multiset().insert(c).count(y));
                    }
                }
                let outm = out@.to_multiset();
                let subm = to_subtract@.take(j as int).to_multiset();
                assert(out@.push(c).to_multiset() =~= outm.insert(c));
                assert(outm.insert(c).add(subm) =~= outm.add(subm).insert(c));
                assert forall|k: int| 0 <= k < out@.len() implies letter_le(out@[k], c) by {
                    assert(letter_le(out@[k], source@[i as int]));
                }
            }
            out.push(c);
        }
        i = i + 1;
    }
    proof {
        assert(source@.take(i as int) =~= source@);
        if j < to_subtract@.len() {
            let subr = to_subtract@.skip(j as int);
            assert(subr[0] == to_subtract@[j as int]);
            assert(subr.contains(to_subtract@[j as int]));
            assert(subr.to_multiset().count(to_subtract@[j as int]) > 0);
            assert(source@.skip(i as int) =~= Seq::<Letter>::empty());
            assert(source@.skip(i as int).to_multiset().count(to_subtract@[j as int]) == 0) by {
                if source@.skip(i as int).to_multiset().count(to_subtract@[j as int]) > 0 {
                    assert(source@.skip(i as int).contains(to_subtract@[j as int]));
                }
            }
            assert(false);
        }
        assert(to_subtract@.take(j as int) =~= to_subtract@);
        assert(out@.to_multiset() =~= source@.to_multiset().sub(to_subtract@.to_multiset()));
    }
    Word { letters: out }
}


// The engine: alphagram index plus trie, with the dictionary snapshot they
// were built from kept as the ghost reference point of every contract.
/// One index entry: an alphagram and, in dictionary order, the identifiers
/// of every word with exactly that letter multiset.
struct IndexEntry {
    alpha: Word,
    ids: Vec<Id>,
}

/// The identifiers, in ascending dictionary order, of the words whose
/// alphagram is `a`.
pub open spec fn ids_with_alpha(dict: Seq<Seq<Letter>>, a: Seq<Letter>) -> Seq<Id>
    decreases dict.len(),
{
    if dict.len() == 0 {
        Seq::empty()
    } else if alpha_spec(dict.last()) == a {
        ids_with_alpha(dict.drop_last(), a).push((dict.len() - 1) as usize)
    } else {
        ids_with_alpha(dict.drop_last(), a)
    }
}

pub proof fn lemma_ids_with_alpha(dict: Seq<Seq<Letter>>, a: Seq<Letter>)
    requires
        dict.len() <= usize::MAX,
    ensures
        forall|id: Id| #[trigger]
            ids_with_alpha(dict, a).contains(id) <==> id < dict.len() && alpha_spec(
                dict[id as int],
            ) == a,
        forall|k1: int, k2: int|
            0 <= k1 < k2 < ids_with_alpha(dict, a).len() ==> ids_with_alpha(dict, a)[k1]
                < ids_with_alpha(dict, a)[k2],
        forall|k: int|
            0 <= k < ids_with_alpha(dict, a).len() ==> #[trigger] ids_with_alpha(dict, a)[k]
                < dict.len(),
    decreases dict.len(),
{
    if dict.len() > 0 {
        let prev = dict.drop_last();
        lemma_ids_with_alpha(prev, a);
        let ids0 = ids_with_alpha(prev, a);
        let ids1 = ids_with_alpha(dict, a);
        assert(forall|i: int| 0 <= i < prev.len() ==> prev[i] == dict[i]);
        if alpha_spec(dict.last()) == a {
            let nid = (dict.len() - 1) as usize;
            assert forall|id: Id| #[trigger]
                ids1.contains(id) <==> id < dict.len() && alpha_spec(dict[id as int]) == a by {
                if ids1.contains(id) {
                    let k = choose|k: int| 0 <= k < ids1.len() && ids1[k] == id;
                    if k < ids0.len() {
                        assert(ids0[k] == id);
                        assert(ids0.contains(id));
                    } else {
                        assert(id == nid);
                    }
                }
                if id < dict.len() && alpha_spec(dict[id as int]) == a {
                    if id < dict.len() - 1 {
                        assert(ids0.contains(id));
                        let k = choose|k: int| 0 <= k < ids0.len() && ids0[k] == id;
                        assert(ids1[k] == id);
                        assert(ids1.contains(id));
                    } else {
                        assert(ids1[ids1.len() - 1] == nid);
                        assert(ids1.contains(id));
                    }
                }
            }
        } else {
            assert(ids1 == ids0);
            assert forall|id: Id| #[trigger]
                ids1.contains(id) <==> id < dict.len() && alpha_spec(dict[id as int]) == a by {
                if id < dict.len() && alpha_spec(dict[id as int]) == a {
                    assert(id != dict.len() - 1);
                }
            }
        }
    } else {
        assert forall|id: Id| !(#[trigger] ids_with_alpha(dict, a).contains(id)) by {}
    }
}

/// The anagram and multigram engine: an alphagram index and a trie, built
/// once from one dictionary snapshot and read-only afterwards.
pub struct AnagramR {
    alpha_to_words: Vec<IndexEntry>,
    alpha_trie: TrieNode,
    dict_snapshot: Ghost<Seq<Seq<Letter>>>,
}

impl AnagramR {
    /// The dictionary snapshot the engine was built from.
    pub closed spec fn dict(self) -> Seq<Seq<Letter>> {
        self.dict_snapshot@
    }

    /// Some dictionary word has `a` as its alphagram.
    pub open spec fn has_dict_alpha(self, a: Seq<Letter>) -> bool {
        exists|i: int| 0 <= i < self.dict().len() && alpha_spec(#[trigger] self.dict()[i]) == a
    }

    /// The index holds an entry for the alphagram `a`.
    pub closed spec fn index_has(self, a: Seq<Letter>) -> bool {
        exists|k: int|
            0 <= k < self.alpha_to_words@.len() && (#[trigger] self.alpha_to_words@[k]).alpha@
                == a
    }

    /// The identifier list the index holds for the alphagram `a`.
    pub closed spec fn index_ids(self, a: Seq<Letter>) -> Seq<Id> {
        self.alpha_to_words@[choose|k: int|
            0 <= k < self.alpha_to_words@.len() && (#[trigger] self.alpha_to_words@[k]).alpha@
                == a].ids@
    }

    /// The trie stores a terminal alphagram at the end of the path `a`.
    pub closed spec fn trie_contains(self, a: Seq<Letter>) -> bool {
        trie_has(self.alpha_trie, a)
    }

    pub closed spec fn wf(self) -> bool {
        &&& self.dict().len() <= usize::MAX
        &&& (forall|k1: int, k2: int|
            0 <= k1 < k2 < self.alpha_to_words@.len() ==> (
            #[trigger] self.alpha_to_words@[k1]).alpha@ != (
            #[trigger] self.alpha_to_words@[k2]).alpha@)
        &&& (forall|k: int|
            0 <= k < self.alpha_to_words@.len() ==> sorted(
                (#[trigger] self.alpha_to_words@[k]).alpha@,
            ))
        &&& (forall|k: int|
            0 <= k < self.alpha_to_words@.len() ==> (#[trigger] self.alpha_to_words@[k]).ids@
                == ids_with_alpha(self.dict(), self.alpha_to_words@[k].alpha@))
        &&& (forall|k: int|
            0 <= k < self.alpha_to_words@.len() ==> (#[trigger] self.alpha_to_words@[k]).ids@.len()
                > 0)
        &&& (forall|a: Seq<Letter>| #[trigger]
            self.has_dict_alpha(a) ==> exists|k: int|
                0 <= k < self.alpha_to_words@.len() && (#[trigger] self.alpha_to_words@[k]).alpha@
                    == a)
        &&& self.alpha_trie is Full
        &&& trie_wf(self.alpha_trie, Seq::empty())
        &&& (forall|a: Seq<Letter>| #[trigger]
            trie_has(self.alpha_trie, a) <==> (a.len() >= 1 && self.has_dict_alpha(a)))
    }

    /// Builds the index and trie from the dictionary: every word's alphagram
    /// is inserted into the trie, and its identifier appended to that
    /// alphagram's index entry.
    #[verifier::loop_isolation(false)]
    pub fn new(verve: &Verve) -> (r: AnagramR)
        requires
            verve.wf(),
        ensures
            r.wf(),
            r.dict() == verve.words(),
    {
        let ghost dict = verve.words();
        let mut alpha_to_words: Vec<IndexEntry> = Vec::new();
        let mut alpha_trie = TrieNode::new_full();
        let mut idx: usize = 0;
        while idx < verve.word_data.len()
            invariant
                idx <= verve.word_data@.len(),
                alpha_trie is Full,
                trie_wf(alpha_trie, Seq::empty()),
                forall|a: Seq<Letter>| #[trigger]
                    trie_has(alpha_trie, a) <==> (a.len() >= 1 && exists|i: int|
                        0 <= i < idx && alpha_spec(#[trigger] dict[i]) == a),
                forall|k1: int, k2: int|
                    0 <= k1 < k2 < alpha_to_words@.len() ==> (
                    #[trigger] alpha_to_words@[k1]).alpha@ != (
                    #[trigger] alpha_to_words@[k2]).alpha@,
                forall|k: int|
                    0 <= k < alpha_to_words@.len() ==> sorted(
                        (#[trigger] alpha_to_words@[k]).alpha@,
                    ),
                forall|k: int|
                    0 <= k < alpha_to_words@.len() ==> (#[trigger] alpha_to_words@[k]).ids@
                        == ids_with_alpha(dict.take(idx as int), alpha_to_words@[k].alpha@),
                forall|k: int|
                    0 <= k < alpha_to_words@.len() ==> (#[trigger] alpha_to_words@[k]).ids@.len()
                        > 0,
                forall|i: int|
                    0 <= i < idx ==> exists|k: int|
                        0 <= k < alpha_to_words@.len() && (#[trigger] alpha_to_words@[k]).alpha@
                            == alpha_spec(#[trigger] dict[i]),
            decreases verve.word_data@.len() - idx,
        {
            let word = &verve.word_data[idx].word;
            let alpha_key = alphatize(word);
            proof {
                crate::word::lemma_alpha_spec(word@);
                assert(word@ == dict[idx as int]);
                assert(alpha_key@ == alpha_spec(dict[idx as int]));
            }
            if alpha_key.letters.len() > 0 {
                proof {
                    assert(Seq::<Letter>::empty() =~= alpha_key@.take(0));
                    assert(alpha_key@.skip(0) =~= alpha_key@);
                }
                alpha_trie = trie_insert(alpha_trie, &alpha_key, 0, Ghost(Seq::<Letter>::empty()));
                proof {
                    assert forall|a: Seq<Letter>| #[trigger]
                        trie_has(alpha_trie, a) <==> (a.len() >= 1 && exists|i: int|
                            0 <= i < idx + 1 && alpha_spec(#[trigger] dict[i]) == a) by {
                        if trie_has(alpha_trie, a) {
                            if a == alpha_key@ {
                                assert(alpha_spec(dict[idx as int]) == a);
                            }
                        }
                        if a.len() >= 1 && exists|i: int|
                            0 <= i < idx + 1 && alpha_spec(#[trigger] dict[i]) == a {
                            let i = choose|i: int|
                                0 <= i < idx + 1 && alpha_spec(#[trigger] dict[i]) == a;
                            if i < idx {
                                assert(trie_has(alpha_trie, a));
                            } else {
                                assert(a == alpha_key@);
                            }
                        }
                    }
                }
            } else {
                proof {
                    assert forall|a: Seq<Letter>| #[trigger]
                        trie_has(alpha_trie, a) <==> (a.len() >= 1 && exists|i: int|
                            0 <= i < idx + 1 && alpha_spec(#[trigger] dict[i]) == a) by {
                        if a.len() >= 1 && exists|i: int|
                            0 <= i < idx + 1 && alpha_spec(#[trigger] dict[i]) == a {
                            let i = choose|i: int|
                                0 <= i < idx + 1 && alpha_spec(#[trigger] dict[i]) == a;
                            if i == idx {
                                assert(alpha_spec(dict[i]).to_multiset() == dict[i].to_multiset());
                                assert(a.len() == 0);
                            }
                        }
                    }
                }
            }
            let mut k: usize = 0;
            let mut found: bool = false;
            while k < alpha_to_words.len() && !found
                invariant
                    k <= alpha_to_words@.len(),
                    !found ==> forall|k2: int|
                        0 <= k2 < k ==> (#[trigger] alpha_to_words@[k2]).alpha@ != alpha_key@,
                    found ==> k < alpha_to_words@.len() && alpha_to_words@[k as int].alpha@
                        == alpha_key@,
                decreases alpha_to_words@.len() - k, (if found { 0int } else { 1int }),
            {
                if word_eq(&alpha_to_words[k].alpha, &alpha_key) {
                    found = true;
                } else {
                    k = k + 1;
                }
            }
            proof {
                lemma_ids_step(dict, idx as int);
            }
            let ghost entries0 = alpha_to_words@;
            if found {
                let ghost ki = k as int;
                let mut entry = alpha_to_words.remove(k);
                entry.ids.push(idx);
                alpha_to_words.insert(k, entry);
                proof {
                    assert(alpha_to_words@ =~= entries0.update(ki, alpha_to_words@[ki]));
                    assert(alpha_to_words@[ki].alpha@ == alpha_key@);
                    assert(alpha_to_words@[ki].ids@ == entries0[ki].ids@.push(idx));
                    assert forall|kk: int| 0 <= kk < alpha_to_words@.len() implies (
                    #[trigger] alpha_to_words@[kk]).ids@ == ids_with_alpha(
                        dict.take(idx as int + 1),
                        alpha_to_words@[kk].alpha@,
                    ) && alpha_to_words@[kk].ids@.len() > 0 && sorted(
                        alpha_to_words@[kk].alpha@,
                    ) by {
                        if kk != ki {
                            assert(alpha_to_words@[kk] == entries0[kk]);
                            assert(entries0[kk].alpha@ != alpha_key@);
                        }
                    }
                    assert forall|i: int| 0 <= i < idx + 1 implies exists|kk: int|
                        0 <= kk < alpha_to_words@.len() && (#[trigger] alpha_to_words@[kk]).alpha@
                            == alpha_spec(#[trigger] dict[i]) by {
                        if i < idx {
                            let kk = choose|kk: int|
                                0 <= kk < entries0.len() && (#[trigger] entries0[kk]).alpha@
                                    == alpha_spec(dict[i]);
                            assert(alpha_to_words@[kk].alpha@ == entries0[kk].alpha@);
                        } else {
                            assert(alpha_to_words@[ki].alpha@ == alpha_spec(dict[i]));
                        }
                    }
                }
            } else {
                let ghost klen = alpha_to_words@.len() as int;
                let mut ids: Vec<Id> = Vec::new();
                ids.push(idx);
                proof {
                    lemma_ids_with_alpha(dict.take(idx as int), alpha_key@);
                    if ids_with_alpha(dict.take(idx as int), alpha_key@).len() > 0 {
                        let ids0 = ids_with_alpha(dict.take(idx as int), alpha_key@);
                        assert(ids0.contains(ids0[0]));
                        assert(false);
                    }
                    assert(ids@ =~= ids_with_alpha(dict.take(idx as int), alpha_key@).push(idx));
                }
                alpha_to_words.push(IndexEntry { alpha: alpha_key, ids });
                proof {
                    assert forall|kk: int| 0 <= kk < alpha_to_words@.len() implies (
                    #[trigger] alpha_to_words@[kk]).ids@ == ids_with_alpha(
                        dict.take(idx as int + 1),
                        alpha_to_words@[kk].alpha@,
                    ) && alpha_to_words@[kk].ids@.len() > 0 && sorted(
                        alpha_to_words@[kk].alpha@,
                    ) by {
                        if kk < klen {
                            assert(alpha_to_words@[kk] == entries0[kk]);
                            assert(entries0[kk].alpha@ != alpha_key@);
                        } else {
                            assert(alpha_to_words@[kk].alpha@ == alpha_key@);
                        }
                    }
                    assert forall|i: int| 0 <= i < idx + 1 implies exists|kk: int|
                        0 <= kk < alpha_to_words@.len() && (#[trigger] alpha_to_words@[kk]).alpha@
                            == alpha_spec(#[trigger] dict[i]) by {
                        if i < idx {
                            let kk = choose|kk: int|
                                0 <= kk < entries0.len() && (#[trigger] entries0[kk]).alpha@
                                    == alpha_spec(dict[i]);
                            assert(alpha_to_words@[kk].alpha@ == entries0[kk].alpha@);
                        } else {
                            assert(alpha_to_words@[klen].alpha@ == alpha_spec(dict[i]));
                        }
                    }
                }
            }
            idx = idx + 1;
        }
        proof {
            assert(dict.take(idx as int) =~= dict);
            assert(idx as int == dict.len());
        }
        let r = AnagramR { alpha_to_words, alpha_trie, dict_snapshot: Ghost(dict) };
        proof {
            assert(r.dict() == dict);
            assert(r.dict().len() <= usize::MAX);
            assert forall|a: Seq<Letter>| #[trigger]
                trie_has(r.alpha_trie, a) <==> (a.len() >= 1 && r.has_dict_alpha(a)) by {
                if a.len() >= 1 && r.has_dict_alpha(a) {
                    let i = choose|i: int|
                        0 <= i < r.dict().len() && alpha_spec(#[trigger] r.dict()[i]) == a;
                    assert(alpha_spec(dict[i]) == a);
                    assert(trie_has(r.alpha_trie, a));
                }
                if trie_has(r.alpha_trie, a) {
                    let i = choose|i: int| 0 <= i < idx && alpha_spec(#[trigger] dict[i]) == a;
                    assert(alpha_spec(r.dict()[i]) == a);
                }
            }
            assert forall|a: Seq<Letter>| #[trigger] r.has_dict_alpha(a) implies exists|kk: int|
                0 <= kk < r.alpha_to_words@.len() && (#[trigger] r.alpha_to_words@[kk]).alpha@
                    == a by {
                let i = choose|i: int|
                    0 <= i < r.dict().len() && alpha_spec(#[trigger] r.dict()[i]) == a;
                assert(alpha_spec(dict[i]) == a);
                let kk = choose|kk: int|
                    0 <= kk < alpha_to_words@.len() && (#[trigger] alpha_to_words@[kk]).alpha@
                        == alpha_spec(dict[i]);
                assert(r.alpha_to_words@[kk].alpha@ == a);
            }
            assert(r.wf());
        }
        r
    }
}

/// Extending the dictionary by one word appends its identifier to exactly
/// its own alphagram's identifier list.
proof fn lemma_ids_step(dict: Seq<Seq<Letter>>, i: int)
    requires
        0 <= i < dict.len(),
        dict.len() <= usize::MAX,
    ensures
        forall|a: Seq<Letter>|
            alpha_spec(dict[i]) == a ==> #[trigger] ids_with_alpha(dict.take(i + 1), a)
                == ids_with_alpha(dict.take(i), a).push(i as usize),
        forall|a: Seq<Letter>|
            alpha_spec(dict[i]) != a ==> #[trigger] ids_with_alpha(dict.take(i + 1), a)
                == ids_with_alpha(dict.take(i), a),
{
    assert(dict.take(i + 1).drop_last() =~= dict.take(i));
    assert(dict.take(i + 1).last() == dict[i]);
    assert forall|a: Seq<Letter>|
        alpha_spec(dict[i]) == a implies #[trigger] ids_with_alpha(dict.take(i + 1), a)
        == ids_with_alpha(dict.take(i), a).push(i as usize) by {
        assert(dict.take(i + 1).len() == i + 1);
    }
}


/// Some element of `ws` views to the letter sequence `s`.
spec fn contains_view(ws: Seq<Word>, s: Seq<Letter>) -> bool {
    exists|k: int| 0 <= k < ws.len() && (#[trigger] ws[k])@ == s
}

/// What one walk result means, seen from the node at the end of `path`:
/// the result extends the path, its extension ends at a stored alphagram,
/// and the extension draws only on the target's letters from `index` on.
spec fn walk_item_ok(
    node: TrieNode,
    path: Seq<Letter>,
    target: Seq<Letter>,
    index: int,
    w: Seq<Letter>,
) -> bool {
    &&& path.is_prefix_of(w)
    &&& trie_has(node, w.skip(path.len() as int))
    &&& w.skip(path.len() as int).to_multiset().subset_of(target.skip(index).to_multiset())
}

/// Dropping more of a sequence's front keeps a sub-multiset of its letters.
proof fn lemma_skip_subset(s: Seq<Letter>, i: int, j: int)
    requires
        0 <= i <= j <= s.len(),
    ensures
        s.skip(j).to_multiset().subset_of(s.skip(i).to_multiset()),
    decreases j - i,
{
    if i < j {
        lemma_skip_subset(s, i + 1, j);
        lemma_skip_head(s, i);
        assert forall|y: Letter|
            s.skip(j).to_multiset().count(y) <= s.skip(i).to_multiset().count(y) by {
            assert(s.skip(j).to_multiset().count(y) <= s.skip(i + 1).to_multiset().count(y));
        }
    } else {
        assert(s.skip(i) =~= s.skip(j));
    }
}

/// The empty sequence's letters form a sub-multiset of anything.
proof fn lemma_empty_subset(s: Seq<Letter>, m: Multiset<Letter>)
    requires
        s.len() == 0,
    ensures
        s.to_multiset().subset_of(m),
{
    assert forall|y: Letter| s.to_multiset().count(y) <= m.count(y) by {
        if s.to_multiset().count(y) > 0 {
            assert(s.contains(y));
        }
    }
}

/// The walk's stop order: `a` sits at or below `stop` when `a` is a prefix
/// of `stop` or falls below it at the first differing letter.
pub open spec fn alpha_below(a: Seq<Letter>, stop: Seq<Letter>) -> bool
    decreases a.len(),
{
    if a.len() == 0 {
        true
    } else if stop.len() == 0 {
        false
    } else if lidx(a[0]) < lidx(stop[0]) {
        true
    } else if lidx(a[0]) == lidx(stop[0]) {
        alpha_below(a.drop_first(), stop.drop_first())
    } else {
        false
    }
}

/// The three-way comparison against the stop bound: `Stop` prunes the
/// branch, `Equal` keeps it constrained, `Less` frees it.
enum StopStatus {
    Stop,
    Equal,
    Less,
}

impl AnagramR {
    /// Compares the letter about to be consumed with the stop alphagram's
    /// letter at the current depth.
    fn stop_status(test_letter: Letter, stop_alpha: Option<&Word>, stop_index: usize) -> (r:
        StopStatus)
        ensures
            stop_alpha is None ==> r is Less,
            stop_alpha matches Some(stop) ==> {
                &&& (stop_index >= stop@.len() ==> r is Stop)
                &&& (stop_index < stop@.len() && lidx(stop@[stop_index as int]) < lidx(test_letter)
                    ==> r is Stop)
                &&& (stop_index < stop@.len() && lidx(stop@[stop_index as int]) == lidx(
                    test_letter,
                ) ==> r is Equal)
                &&& (stop_index < stop@.len() && lidx(stop@[stop_index as int]) > lidx(test_letter)
                    ==> r is Less)
            },
    {
        if let Some(stop) = stop_alpha {
            if stop_index >= stop.letters.len() {
                return StopStatus::Stop;
            }
            let stop_letter = stop.letters[stop_index];
            if stop_letter.code() < test_letter.code() {
                return StopStatus::Stop;
            } else if stop_letter.code() == test_letter.code() {
                proof {
                    lemma_letter_from_lidx(stop_letter);
                    lemma_letter_from_lidx(test_letter);
                }
                return StopStatus::Equal;
            }
        }
        StopStatus::Less
    }

    /// The depth-first walk: records the node's stored alphagram on first
    /// visit, then tries consuming the next distinct target letter and, in
    /// turn, skipping the whole run of its duplicates. A branch leaves the
    /// constrained state only once it has consumed a letter strictly below
    /// the stop's, so the walk reaches exactly the stored alphagrams at or
    /// below the stop bound, each once.
    #[verifier::loop_isolation(false)]
    #[verifier::rlimit(100)]
    fn walk_trie(
        node: &TrieNode,
        target: &Word,
        index: usize,
        length: usize,
        less: bool,
        stop_alpha: Option<&Word>,
        new_node: bool,
        out: &mut Vec<Word>,
        Ghost(path): Ghost<Seq<Letter>>,
    )
        requires
            trie_wf(*node, path),
            index <= target@.len(),
            length == path.len(),
            length <= index,
            !less ==> (stop_alpha matches Some(st) && length <= st@.len() && path == st@.take(
                length as int,
            )),
        ensures
            final(out)@.len() >= old(out)@.len(),
            forall|k: int| 0 <= k < old(out)@.len() ==> final(out)@[k] == old(out)@[k],
            forall|k: int|
                old(out)@.len() <= k < final(out)@.len() ==> walk_item_ok(
                    *node,
                    path,
                    target@,
                    index as int,
                    (#[trigger] final(out)@[k])@,
                ),
            forall|q: Seq<Letter>|
                ((less || (stop_alpha matches Some(st) && alpha_below(
                    q,
                    st@.skip(length as int),
                ))) && (new_node || q.len() > 0) && sorted(target@) && sorted(q) && #[trigger]
                trie_has(*node, q) && q.to_multiset().subset_of(
                    target@.skip(index as int).to_multiset(),
                )) ==> contains_view(final(out)@, path + q),
            (!less && sorted(target@)) ==> (forall|k: int|
                old(out)@.len() <= k < final(out)@.len() ==> alpha_below(
                    (#[trigger] final(out)@[k])@.skip(path.len() as int),
                    stop_alpha.unwrap()@.skip(length as int),
                )),
            !new_node ==> (forall|k: int|
                old(out)@.len() <= k < final(out)@.len() ==> (#[trigger] final(out)@[k])@.len()
                    > path.len()),
            sorted(target@) ==> (forall|k1: int, k2: int|
                old(out)@.len() <= k1 < k2 < final(out)@.len() ==> (#[trigger] final(out)@[k1])@
                    != (#[trigger] final(out)@[k2])@),
        decreases target@.len() - index,
    {
        match node {
            TrieNode::Empty => {
                proof {
                    assert forall|q: Seq<Letter>| !trie_has(*node, q) by {}
                }
            },
            TrieNode::Full { next, alpha } => {
                if new_node {
                    match alpha {
                        Some(w) => {
                            out.push(word_clone(w));
                            proof {
                                assert(w@ == path);
                                assert(out@[out@.len() - 1]@ == path);
                                assert(contains_view(out@, path));
                                assert(path.is_prefix_of(path)) by {
                                    assert(path.take(path.len() as int) =~= path);
                                }
                                assert(path.skip(path.len() as int) =~= Seq::<Letter>::empty());
                                assert(trie_has(*node, path.skip(path.len() as int)));
                                lemma_empty_subset(
                                    path.skip(path.len() as int),
                                    target@.skip(index as int).to_multiset(),
                                );
                            }
                        },
                        None => {},
                    }
                }
                let ghost out_base = out@;
                if index < target.letters.len() {
                    let letter = target.letters[index];
                    let li = letter.code() as usize;
                    let mut new_less = less;
                    let mut pruned = false;
                    if !less {
                        match Self::stop_status(letter, stop_alpha, length) {
                            StopStatus::Stop => {
                                pruned = true;
                            },
                            StopStatus::Less => {
                                new_less = true;
                            },
                            StopStatus::Equal => {},
                        }
                    }
                    if !pruned {
                        let mut new_index = index + 1;
                        while new_index < target.letters.len()
                            && target.letters[new_index].code() == letter.code()
                            invariant
                                index < new_index <= target@.len(),
                                forall|p: int| index <= p < new_index ==> target@[p] == letter,
                            decreases target@.len() - new_index,
                        {
                            proof {
                                lemma_letter_from_lidx(letter);
                                lemma_letter_from_lidx(target@[new_index as int]);
                            }
                            new_index = new_index + 1;
                        }
                        let ghost child_path = path.push(letter);
                        proof {
                            lemma_letter_from_lidx(letter);
                            assert(trie_wf(next@[li as int], path.push(letter_from(li as int))));
                            if !new_less {
                                let st = stop_alpha.unwrap();
                                assert(length < st@.len());
                                assert(lidx(st@[length as int]) == lidx(letter));
                                lemma_letter_from_lidx(st@[length as int]);
                                assert(st@[length as int] == letter);
                                assert(child_path =~= st@.take(length as int + 1));
                            }
                        }
                        Self::walk_trie(
                            &next[li],
                            target,
                            index + 1,
                            length + 1,
                            new_less,
                            stop_alpha,
                            true,
                            out,
                            Ghost(child_path),
                        );
                        let ghost out_mid = out@;
                        proof {
                            lemma_skip_head(target@, index as int);
                            assert forall|k: int|
                                out_base.len() <= k < out_mid.len() implies walk_item_ok(
                                *node,
                                path,
                                target@,
                                index as int,
                                (#[trigger] out_mid[k])@,
                            ) by {
                                let w = out_mid[k]@;
                                assert(walk_item_ok(
                                    next@[li as int],
                                    child_path,
                                    target@,
                                    index as int + 1,
                                    w,
                                ));
                                assert(child_path.is_prefix_of(w));
                                assert(path.is_prefix_of(w)) by {
                                    assert(w.take(child_path.len() as int) == child_path);
                                    assert(path.len() < w.len());
                                    assert forall|m: int| 0 <= m < path.len() implies path[m]
                                        == w[m] by {
                                        assert(child_path[m] == w[m]);
                                    }
                                    assert(w.take(path.len() as int) =~= path);
                                }
                                let q = w.skip(path.len() as int);
                                assert(q.len() > 0);
                                assert(q[0] == w[path.len() as int]);
                                assert(w[path.len() as int] == child_path[path.len() as int]);
                                assert(q[0] == letter);
                                assert(q.drop_first() =~= w.skip(path.len() as int + 1));
                                assert(trie_has(next@[lidx(q[0])], q.drop_first()));
                                assert(trie_has(*node, q));
                                lemma_skip_head(w, path.len() as int);
                                assert(q.to_multiset() == w.skip(
                                    path.len() as int + 1,
                                ).to_multiset().insert(letter));
                                assert(target@.skip(index as int).to_multiset() == target@.skip(
                                    index as int + 1,
                                ).to_multiset().insert(letter));
                                assert forall|y: Letter|
                                    q.to_multiset().count(y) <= target@.skip(
                                        index as int,
                                    ).to_multiset().count(y) by {
                                    assert(w.skip(path.len() as int + 1).to_multiset().count(y)
                                        <= target@.skip(index as int + 1).to_multiset().count(y));
                                }
                            }
                        }
                        Self::walk_trie(
                            node,
                            target,
                            new_index,
                            length,
                            less,
                            stop_alpha,
                            false,
                            out,
                            Ghost(path),
                        );
                        proof {
                            lemma_skip_subset(target@, index as int, new_index as int);
                            assert forall|k: int|
                                out_mid.len() <= k < out@.len() implies walk_item_ok(
                                *node,
                                path,
                                target@,
                                index as int,
                                (#[trigger] out@[k])@,
                            ) by {
                                let w = out@[k]@;
                                assert(walk_item_ok(*node, path, target@, new_index as int, w));
                                let q = w.skip(path.len() as int);
                                assert forall|y: Letter|
                                    q.to_multiset().count(y) <= target@.skip(
                                        index as int,
                                    ).to_multiset().count(y) by {
                                    assert(q.to_multiset().count(y) <= target@.skip(
                                        new_index as int,
                                    ).to_multiset().count(y));
                                    assert(target@.skip(new_index as int).to_multiset().count(y)
                                        <= target@.skip(index as int).to_multiset().count(y));
                                }
                            }
                            assert forall|k: int|
                                out_base.len() <= k < out@.len() implies walk_item_ok(
                                *node,
                                path,
                                target@,
                                index as int,
                                (#[trigger] out@[k])@,
                            ) by {
                                if k < out_mid.len() {
                                    assert(out@[k] == out_mid[k]);
                                }
                            }
                            if !new_node {
                                assert forall|k: int|
                                    old(out)@.len() <= k < out@.len() implies (
                                #[trigger] out@[k])@.len() > path.len() by {
                                    if k < out_mid.len() {
                                        assert(out@[k] == out_mid[k]);
                                        assert(walk_item_ok(
                                            next@[li as int],
                                            child_path,
                                            target@,
                                            index as int + 1,
                                            out_mid[k]@,
                                        ));
                                        assert(child_path.is_prefix_of(out_mid[k]@));
                                    }
                                }
                            }
                            if sorted(target@) {
                                assert forall|k1: int, k2: int|
                                    old(out)@.len() <= k1 < k2 < out@.len() implies (
                                #[trigger] out@[k1])@ != (#[trigger] out@[k2])@ by {
                                    let w1 = out@[k1]@;
                                    let w2 = out@[k2]@;
                                    if k2 < out_base.len() {
                                        assert(false);
                                    } else if k1 < out_base.len() {
                                        assert(out_base[k1]@ == path);
                                        assert(out_mid[k1] == out_base[k1]);
                                        assert(out@[k1] == out_mid[k1]);
                                        if k2 < out_mid.len() {
                                            assert(out@[k2] == out_mid[k2]);
                                            assert(walk_item_ok(
                                                next@[li as int],
                                                child_path,
                                                target@,
                                                index as int + 1,
                                                out_mid[k2]@,
                                            ));
                                            assert(child_path.is_prefix_of(w2));
                                            assert(w2.len() > path.len());
                                        } else {
                                            assert(w2.len() > path.len());
                                        }
                                    } else if k2 < out_mid.len() {
                                        assert(out@[k1] == out_mid[k1]);
                                        assert(out@[k2] == out_mid[k2]);
                                    } else if k1 >= out_mid.len() {
                                    } else {
                                        assert(out@[k1] == out_mid[k1]);
                                        assert(walk_item_ok(
                                            next@[li as int],
                                            child_path,
                                            target@,
                                            index as int + 1,
                                            out_mid[k1]@,
                                        ));
                                        assert(child_path.is_prefix_of(w1));
                                        assert(w1[path.len() as int] == child_path[path.len() as int]);
                                        assert(w1[path.len() as int] == letter);
                                        assert(w2.len() > path.len());
                                        assert(walk_item_ok(
                                            *node,
                                            path,
                                            target@,
                                            new_index as int,
                                            w2,
                                        ));
                                        let q2 = w2.skip(path.len() as int);
                                        assert(q2.len() > 0);
                                        assert(q2[0] == w2[path.len() as int]);
                                        assert(q2.contains(q2[0]));
                                        assert(q2.to_multiset().count(q2[0]) > 0);
                                        assert(target@.skip(new_index as int).to_multiset().count(
                                            q2[0],
                                        ) > 0);
                                        if new_index as int == target@.len() {
                                            assert(target@.skip(new_index as int)
                                                =~= Seq::<Letter>::empty());
                                            assert(!target@.skip(new_index as int).contains(
                                                q2[0],
                                            ));
                                            assert(false);
                                        } else {
                                            assert(target@.skip(new_index as int).contains(
                                                q2[0],
                                            ));
                                            let m3 = choose|m3: int|
                                                0 <= m3 < target@.skip(new_index as int).len()
                                                    && target@.skip(new_index as int)[m3] == q2[0];
                                            assert(target@[new_index + m3] == q2[0]);
                                            lemma_letter_from_lidx(letter);
                                            lemma_letter_from_lidx(target@[new_index as int]);
                                            assert(lidx(target@[new_index as int]) != lidx(
                                                letter,
                                            ));
                                            assert(letter_le(
                                                target@[index as int],
                                                target@[new_index as int],
                                            ));
                                            assert(letter_le(
                                                target@[new_index as int],
                                                target@[new_index + m3],
                                            )) by {
                                                if m3 > 0 {
                                                }
                                            }
                                            assert(lidx(q2[0]) > lidx(letter));
                                            if w1 == w2 {
                                                assert(w1[path.len() as int] == w2[path.len() as int]);
                                                assert(false);
                                            }
                                        }
                                    }
                                }
                            }
                            if !less && sorted(target@) {
                                let st = stop_alpha.unwrap();
                                assert(length < st@.len());
                                assert(st@.skip(length as int)[0] == st@[length as int]);
                                assert forall|k: int|
                                    old(out)@.len() <= k < out@.len() implies alpha_below(
                                    (#[trigger] out@[k])@.skip(path.len() as int),
                                    st@.skip(length as int),
                                ) by {
                                    if k < out_base.len() {
                                        assert(out_base[k]@ == path);
                                        assert(out_mid[k] == out_base[k]);
                                        assert(out@[k] == out_mid[k]);
                                        assert(out@[k]@.skip(path.len() as int)
                                            =~= Seq::<Letter>::empty());
                                    } else if k < out_mid.len() {
                                        assert(out@[k] == out_mid[k]);
                                        let w = out_mid[k]@;
                                        assert(walk_item_ok(
                                            next@[li as int],
                                            child_path,
                                            target@,
                                            index as int + 1,
                                            w,
                                        ));
                                        assert(child_path.is_prefix_of(w));
                                        assert(w[path.len() as int] == child_path[path.len() as int]);
                                        let ext = w.skip(path.len() as int);
                                        assert(ext.len() > 0);
                                        assert(ext[0] == w[path.len() as int]);
                                        assert(ext[0] == letter);
                                        if new_less {
                                            assert(lidx(st@[length as int]) > lidx(letter));
                                            assert(alpha_below(ext, st@.skip(length as int)));
                                        } else {
                                            assert(st@[length as int] == letter);
                                            assert(alpha_below(
                                                w.skip(path.len() as int + 1),
                                                st@.skip(length as int + 1),
                                            ));
                                            assert(ext.drop_first() =~= w.skip(
                                                path.len() as int + 1,
                                            ));
                                            assert(st@.skip(length as int).drop_first()
                                                =~= st@.skip(length as int + 1));
                                            assert(alpha_below(ext, st@.skip(length as int)));
                                        }
                                    } else {
                                        assert(alpha_below(
                                            out@[k]@.skip(path.len() as int),
                                            st@.skip(length as int),
                                        ));
                                    }
                                }
                            }
                            assert forall|q: Seq<Letter>|
                                ((less || (stop_alpha matches Some(st2) && alpha_below(
                                    q,
                                    st2@.skip(length as int),
                                ))) && (new_node || q.len() > 0) && sorted(target@) && sorted(q)
                                    && #[trigger] trie_has(*node, q)
                                    && q.to_multiset().subset_of(
                                    target@.skip(index as int).to_multiset(),
                                )) implies contains_view(out@, path + q) by {
                                if q.len() == 0 {
                                    assert(contains_view(out_base, path));
                                    let kw = choose|kw: int|
                                        0 <= kw < out_base.len() && (#[trigger] out_base[kw])@
                                            == path;
                                    assert(out_mid[kw] == out_base[kw]);
                                    assert(out@[kw] == out_mid[kw]);
                                    assert(path + q =~= path);
                                } else {
                                    let cq = q[0];
                                    lemma_letter_from_lidx(cq);
                                    lemma_letter_from_lidx(letter);
                                    assert(q.contains(cq));
                                    assert(q.to_multiset().count(cq) > 0);
                                    assert(target@.skip(index as int).to_multiset().count(cq)
                                        > 0);
                                    assert(target@.skip(index as int).contains(cq));
                                    let mm = choose|mm: int|
                                        0 <= mm < target@.skip(index as int).len() && target@.skip(
                                            index as int,
                                        )[mm] == cq;
                                    assert(target@[index + mm] == cq);
                                    assert(letter_le(letter, cq)) by {
                                        if mm > 0 {
                                            assert(letter_le(
                                                target@[index as int],
                                                target@[index + mm],
                                            ));
                                        }
                                    }
                                    if lidx(cq) == lidx(letter) {
                                        assert(cq == letter);
                                        let q2 = q.drop_first();
                                        assert(sorted(q2)) by {
                                            assert forall|p1: int, p2: int|
                                                0 <= p1 < p2 < q2.len() implies letter_le(
                                                q2[p1],
                                                q2[p2],
                                            ) by {
                                                assert(q2[p1] == q[p1 + 1] && q2[p2] == q[p2
                                                    + 1]);
                                            }
                                        }
                                        assert(trie_has(next@[li as int], q2)) by {
                                            assert(lidx(q[0]) == li as int);
                                        }
                                        assert(q =~= q.skip(0));
                                        lemma_skip_head(q, 0);
                                        assert(q.skip(1) =~= q2);
                                        assert(q.to_multiset() == q2.to_multiset().insert(cq));
                                        assert forall|y: Letter|
                                            q2.to_multiset().count(y) <= target@.skip(
                                                index as int + 1,
                                            ).to_multiset().count(y) by {
                                            assert(q.to_multiset().count(y) <= target@.skip(
                                                index as int,
                                            ).to_multiset().count(y));
                                        }
                                        if !less {
                                            let st = stop_alpha.unwrap();
                                            assert(alpha_below(q, st@.skip(length as int)));
                                            assert(st@.skip(length as int).len() > 0);
                                            assert(st@.skip(length as int)[0]
                                                == st@[length as int]);
                                            if lidx(q[0]) < lidx(st@[length as int]) {
                                                assert(new_less);
                                            } else {
                                                assert(lidx(q[0]) == lidx(st@[length as int]));
                                                assert(!new_less ==> alpha_below(
                                                    q2,
                                                    st@.skip(length as int + 1),
                                                )) by {
                                                    assert(q.drop_first() == q2);
                                                    assert(st@.skip(length as int).drop_first()
                                                        =~= st@.skip(length as int + 1));
                                                }
                                            }
                                        }
                                        assert(contains_view(out_mid, child_path + q2));
                                        let kw = choose|kw: int|
                                            0 <= kw < out_mid.len() && (#[trigger] out_mid[kw])@
                                                == child_path + q2;
                                        assert(out@[kw] == out_mid[kw]);
                                        assert(child_path + q2 =~= path + q);
                                    } else {
                                        assert(lidx(letter) < lidx(cq));
                                        assert(q.to_multiset().count(letter) == 0) by {
                                            if q.to_multiset().count(letter) > 0 {
                                                assert(q.contains(letter));
                                                let m2 = choose|m2: int|
                                                    0 <= m2 < q.len() && q[m2] == letter;
                                                if m2 > 0 {
                                                    assert(letter_le(q[0], q[m2]));
                                                }
                                                assert(false);
                                            }
                                        }
                                        let run = target@.subrange(index as int, new_index as int);
                                        assert(target@.skip(index as int) =~= run + target@.skip(
                                            new_index as int,
                                        ));
                                        vstd::seq_lib::lemma_multiset_commutative(
                                            run,
                                            target@.skip(new_index as int),
                                        );
                                        assert forall|y: Letter|
                                            y != letter implies run.to_multiset().count(y)
                                            == 0 by {
                                            if run.to_multiset().count(y) > 0 {
                                                assert(run.contains(y));
                                                let p3 = choose|p3: int|
                                                    0 <= p3 < run.len() && run[p3] == y;
                                                assert(target@[index + p3] == y);
                                                assert(target@[index + p3] == letter);
                                            }
                                        }
                                        assert forall|y: Letter|
                                            q.to_multiset().count(y) <= target@.skip(
                                                new_index as int,
                                            ).to_multiset().count(y) by {
                                            if y != letter {
                                                assert(q.to_multiset().count(y) <= target@.skip(
                                                    index as int,
                                                ).to_multiset().count(y));
                                                assert(target@.skip(
                                                    index as int,
                                                ).to_multiset().count(y) == run.to_multiset().count(
                                                    y,
                                                ) + target@.skip(
                                                    new_index as int,
                                                ).to_multiset().count(y));
                                            }
                                        }
                                        assert(contains_view(out@, path + q));
                                    }
                                }
                            }
                        }
                    } else {
                        proof {
                            if !less && sorted(target@) {
                                let st = stop_alpha.unwrap();
                                assert forall|k: int|
                                    old(out)@.len() <= k < out@.len() implies alpha_below(
                                    (#[trigger] out@[k])@.skip(path.len() as int),
                                    st@.skip(length as int),
                                ) by {
                                    assert(out@[k]@ == path);
                                    assert(out@[k]@.skip(path.len() as int)
                                        =~= Seq::<Letter>::empty());
                                }
                            }
                            assert forall|q: Seq<Letter>|
                                ((less || (stop_alpha matches Some(st2) && alpha_below(
                                    q,
                                    st2@.skip(length as int),
                                ))) && (new_node || q.len() > 0) && sorted(target@) && sorted(q)
                                    && #[trigger] trie_has(*node, q)
                                    && q.to_multiset().subset_of(
                                    target@.skip(index as int).to_multiset(),
                                )) implies contains_view(out@, path + q) by {
                                if q.len() == 0 {
                                    assert(contains_view(out_base, path));
                                    assert(path + q =~= path);
                                } else {
                                    let st = stop_alpha.unwrap();
                                    assert(q.contains(q[0]));
                                    assert(q.to_multiset().count(q[0]) > 0);
                                    assert(target@.skip(index as int).to_multiset().count(q[0])
                                        > 0);
                                    assert(target@.skip(index as int).contains(q[0]));
                                    let mm = choose|mm: int|
                                        0 <= mm < target@.skip(index as int).len() && target@.skip(
                                            index as int,
                                        )[mm] == q[0];
                                    assert(target@[index + mm] == q[0]);
                                    assert(letter_le(letter, q[0])) by {
                                        if mm > 0 {
                                            assert(letter_le(
                                                target@[index as int],
                                                target@[index + mm],
                                            ));
                                        }
                                    }
                                    if length as int >= st@.len() {
                                        assert(st@.skip(length as int).len() == 0);
                                        assert(!alpha_below(q, st@.skip(length as int)));
                                    } else {
                                        assert(lidx(st@[length as int]) < lidx(letter));
                                        assert(st@.skip(length as int)[0] == st@[length as int]);
                                        assert(!alpha_below(q, st@.skip(length as int)));
                                    }
                                    assert(false);
                                }
                            }
                        }
                    }
                } else {
                    proof {
                        if !less && sorted(target@) {
                            let st = stop_alpha.unwrap();
                            assert forall|k: int|
                                old(out)@.len() <= k < out@.len() implies alpha_below(
                                (#[trigger] out@[k])@.skip(path.len() as int),
                                st@.skip(length as int),
                            ) by {
                                assert(out@[k]@ == path);
                                assert(out@[k]@.skip(path.len() as int)
                                    =~= Seq::<Letter>::empty());
                            }
                        }
                        assert forall|q: Seq<Letter>|
                            ((less || (stop_alpha matches Some(st2) && alpha_below(
                                q,
                                st2@.skip(length as int),
                            ))) && (new_node || q.len() > 0) && sorted(target@) && sorted(q)
                                && #[trigger] trie_has(*node, q)
                                && q.to_multiset().subset_of(
                                target@.skip(index as int).to_multiset(),
                            )) implies contains_view(out@, path + q) by {
                            if q.len() == 0 {
                                assert(contains_view(out_base, path));
                                assert(path + q =~= path);
                            } else {
                                assert(q.contains(q[0]));
                                assert(q.to_multiset().count(q[0]) > 0);
                                assert(target@.skip(index as int) =~= Seq::<Letter>::empty());
                                assert(target@.skip(index as int).to_multiset().count(q[0])
                                    == 0) by {
                                    if target@.skip(index as int).to_multiset().count(q[0]) > 0 {
                                        assert(target@.skip(index as int).contains(q[0]));
                                    }
                                }
                                assert(false);
                            }
                        }
                    }
                }
            },
        }
    }

    /// Every dictionary alphagram the walk can reach inside the target
    /// word's letters; with a stop bound, a pruned selection of them.
    fn alphagrams_helper(&self, word: &Word, stop_alpha: Option<&Word>) -> (r: Vec<Word>)
        requires
            self.wf(),
        ensures
            forall|k: int|
                0 <= k < r@.len() ==> {
                    &&& sorted((#[trigger] r@[k])@)
                    &&& self.has_dict_alpha(r@[k]@)
                    &&& r@[k]@.len() >= 1
                    &&& r@[k]@.to_multiset().subset_of(word@.to_multiset())
                },
            forall|a: Seq<Letter>|
                #![trigger contains_view(r@, a)]
                (self.has_dict_alpha(a) && a.len() >= 1 && a.to_multiset().subset_of(
                    word@.to_multiset(),
                ) && (stop_alpha matches Some(st) ==> alpha_below(a, st@))) ==> contains_view(
                    r@,
                    a,
                ),
            stop_alpha matches Some(st) ==> (forall|k: int|
                0 <= k < r@.len() ==> alpha_below((#[trigger] r@[k])@, st@)),
            forall|k1: int, k2: int|
                0 <= k1 < k2 < r@.len() ==> (#[trigger] r@[k1])@ != (#[trigger] r@[k2])@,
    {
        let alpha = alphatize(word);
        proof {
            crate::word::lemma_alpha_spec(word@);
            assert(sorted(alpha@));
        }
        let mut out: Vec<Word> = Vec::new();
        proof {
            if stop_alpha is Some {
                assert(Seq::<Letter>::empty() =~= stop_alpha.unwrap()@.take(0));
            }
        }
        Self::walk_trie(
            &self.alpha_trie,
            &alpha,
            0,
            0,
            stop_alpha.is_none(),
            stop_alpha,
            true,
            &mut out,
            Ghost(Seq::<Letter>::empty()),
        );
        proof {
            assert forall|k: int|
                0 <= k < out@.len() implies {
                &&& sorted((#[trigger] out@[k])@)
                &&& self.has_dict_alpha(out@[k]@)
                &&& out@[k]@.len() >= 1
                &&& out@[k]@.to_multiset().subset_of(word@.to_multiset())
            } by {
                let w = out@[k]@;
                assert(walk_item_ok(self.alpha_trie, Seq::<Letter>::empty(), alpha@, 0, w));
                assert(w.skip(0) =~= w);
                assert(alpha@.skip(0) =~= alpha@);
                assert(trie_has(self.alpha_trie, w));
                assert(w.len() >= 1 && self.has_dict_alpha(w));
                let i = choose|i: int|
                    0 <= i < self.dict().len() && alpha_spec(#[trigger] self.dict()[i]) == w;
                crate::word::lemma_alpha_spec(self.dict()[i]);
                assert(sorted(w));
                assert(alpha@.to_multiset() == word@.to_multiset());
            }
            if stop_alpha is Some {
                let st = stop_alpha.unwrap();
                assert(st@.skip(0) =~= st@);
                assert forall|k: int|
                    0 <= k < out@.len() implies alpha_below((#[trigger] out@[k])@, st@) by {
                    assert(alpha_below(out@[k]@.skip(0), st@.skip(0)));
                    assert(out@[k]@.skip(0) =~= out@[k]@);
                }
            }
            {
                assert forall|a: Seq<Letter>|
                    #![trigger contains_view(out@, a)]
                    (self.has_dict_alpha(a) && a.len() >= 1 && a.to_multiset().subset_of(
                        word@.to_multiset(),
                    ) && (stop_alpha matches Some(st) ==> alpha_below(a, st@))) implies
                    contains_view(out@, a) by {
                    if stop_alpha is Some {
                        assert(stop_alpha.unwrap()@.skip(0) =~= stop_alpha.unwrap()@);
                    }
                    let i = choose|i: int|
                        0 <= i < self.dict().len() && alpha_spec(#[trigger] self.dict()[i]) == a;
                    crate::word::lemma_alpha_spec(self.dict()[i]);
                    assert(sorted(a));
                    assert(trie_has(self.alpha_trie, a));
                    assert(alpha@.skip(0) =~= alpha@);
                    assert(a.to_multiset().subset_of(alpha@.skip(0).to_multiset())) by {
                        assert(alpha@.to_multiset() == word@.to_multiset());
                    }
                    assert(sorted(alpha@));
                    assert(contains_view(out@, Seq::<Letter>::empty() + a));
                    assert(Seq::<Letter>::empty() + a =~= a);
                    let kw = choose|kw: int|
                        0 <= kw < out@.len() && (#[trigger] out@[kw])@ == Seq::<Letter>::empty()
                            + a;
                    assert(out@[kw]@ == a);
                }
            }
        }
        out
    }

    /// Looks an alphagram up in the index.
    fn lookup_ids(&self, alpha: &Word) -> (r: Option<&Vec<Id>>)
        requires
            self.wf(),
        ensures
            match r {
                Some(ids) => ids@ == ids_with_alpha(self.dict(), alpha@) && self.has_dict_alpha(
                    alpha@,
                ),
                None => !self.has_dict_alpha(alpha@),
            },
    {
        let mut k: usize = 0;
        while k < self.alpha_to_words.len()
            invariant
                k <= self.alpha_to_words@.len(),
                self.wf(),
                forall|k2: int|
                    0 <= k2 < k ==> (#[trigger] self.alpha_to_words@[k2]).alpha@ != alpha@,
            decreases self.alpha_to_words@.len() - k,
        {
            if word_eq(&self.alpha_to_words[k].alpha, alpha) {
                proof {
                    let e = self.alpha_to_words@[k as int];
                    assert(e.ids@ == ids_with_alpha(self.dict(), alpha@));
                    assert(e.ids@.len() > 0);
                    lemma_ids_with_alpha(self.dict(), alpha@);
                    assert(e.ids@.contains(e.ids@[0]));
                    assert(self.has_dict_alpha(alpha@)) by {
                        let id0 = e.ids@[0];
                        assert(id0 < self.dict().len() && alpha_spec(self.dict()[id0 as int])
                            == alpha@);
                    }
                }
                return Some(&self.alpha_to_words[k].ids);
            }
            k = k + 1;
        }
        proof {
            if self.has_dict_alpha(alpha@) {
                let kk = choose|kk: int|
                    0 <= kk < self.alpha_to_words@.len() && (
                    #[trigger] self.alpha_to_words@[kk]).alpha@ == alpha@;
                assert(false);
            }
        }
        None
    }

    /// All identifiers whose dictionary word uses exactly the same letter
    /// multiset as the query, in ascending identifier order.
    pub fn exact_anagrams(&self, word: &Word) -> (r: Vec<Id>)
        requires
            self.wf(),
        ensures
            forall|id: Id| #[trigger]
                r@.contains(id) <==> id < self.dict().len() && alpha_spec(self.dict()[id as int])
                    == alpha_spec(word@),
            forall|k1: int, k2: int| 0 <= k1 < k2 < r@.len() ==> r@[k1] < r@[k2],
    {
        let alpha_word = alphatize(word);
        match self.lookup_ids(&alpha_word) {
            Some(ids) => {
                proof {
                    lemma_ids_with_alpha(self.dict(), alpha_word@);
                }
                copy_ids(ids)
            },
            None => {
                let r: Vec<Id> = Vec::new();
                proof {
                    assert forall|id: Id|
                        #![trigger r@.contains(id)]
                        !(id < self.dict().len() && alpha_spec(self.dict()[id as int])
                            == alpha_spec(word@)) by {
                        if id < self.dict().len() && alpha_spec(self.dict()[id as int])
                            == alpha_spec(word@) {
                            assert(self.has_dict_alpha(alpha_word@));
                        }
                    }
                    assert forall|id: Id| !(#[trigger] r@.contains(id)) by {}
                }
                r
            },
        }
    }

    /// Identifiers of dictionary words whose letters form a sub-multiset of
    /// the query's letters and whose alphagram the trie walk reaches; the
    /// query's own exact anagrams are always among them.
    pub fn anagrams(&self, word: &Word) -> (r: Vec<Id>)
        requires
            self.wf(),
        ensures
            forall|k: int|
                0 <= k < r@.len() ==> (#[trigger] r@[k]) < self.dict().len() && self.dict()[r@[k] as int].to_multiset().subset_of(word@.to_multiset()) && self.dict()[r@[k] as int].len() >= 1,
            forall|id: Id|
                (id < self.dict().len() && self.dict()[id as int].to_multiset().subset_of(
                    word@.to_multiset(),
                ) && self.dict()[id as int].len() >= 1) ==> r@.contains(id),
            forall|k1: int, k2: int| 0 <= k1 < k2 < r@.len() ==> r@[k1] != r@[k2],
    {
        self.anagrams_helper(word, None)
    }

    /// Resolves each walked alphagram through the index and concatenates
    /// the identifier lists.
    #[verifier::loop_isolation(false)]
    fn anagrams_helper(&self, word: &Word, stop_alpha: Option<&Word>) -> (r: Vec<Id>)
        requires
            self.wf(),
        ensures
            forall|k: int|
                0 <= k < r@.len() ==> (#[trigger] r@[k]) < self.dict().len() && self.dict()[r@[k] as int].to_multiset().subset_of(word@.to_multiset()) && self.dict()[r@[k] as int].len() >= 1,
            stop_alpha is None ==> (forall|id: Id|
                (id < self.dict().len() && self.dict()[id as int].to_multiset().subset_of(
                    word@.to_multiset(),
                ) && self.dict()[id as int].len() >= 1) ==> r@.contains(id)),
            forall|k1: int, k2: int| 0 <= k1 < k2 < r@.len() ==> r@[k1] != r@[k2],
    {
        let alphas = self.alphagrams_helper(word, stop_alpha);
        let mut r: Vec<Id> = Vec::new();
        let mut k: usize = 0;
        while k < alphas.len()
            invariant
                k <= alphas@.len(),
                forall|m: int|
                    0 <= m < r@.len() ==> (#[trigger] r@[m]) < self.dict().len() && self.dict()[r@[m] as int].to_multiset().subset_of(word@.to_multiset()) && self.dict()[r@[m] as int].len() >= 1,
                forall|kk: int, id: Id|
                    #![trigger alphas@[kk], self.dict()[id as int]]
                    (0 <= kk < k && id < self.dict().len() && alpha_spec(self.dict()[id as int])
                        == alphas@[kk]@) ==> r@.contains(id),
                forall|m1: int, m2: int| 0 <= m1 < m2 < r@.len() ==> r@[m1] != r@[m2],
                forall|m: int|
                    #![trigger r@[m]]
                    0 <= m < r@.len() ==> exists|kk2: int|
                        0 <= kk2 < k && alpha_spec(self.dict()[r@[m] as int]) == (
                        #[trigger] alphas@[kk2])@,
            decreases alphas@.len() - k,
        {
            let ghost r0 = r@;
            match self.lookup_ids(&alphas[k]) {
                Some(ids) => {
                    proof {
                        lemma_ids_with_alpha(self.dict(), alphas@[k as int]@);
                    }
                    append_ids(&mut r, ids);
                    proof {
                        let a = alphas@[k as int]@;
                        assert forall|m: int|
                            0 <= m < r@.len() implies (#[trigger] r@[m]) < self.dict().len()
                            && self.dict()[r@[m] as int].to_multiset().subset_of(
                            word@.to_multiset(),
                        ) && self.dict()[r@[m] as int].len() >= 1 by {
                            if m >= r0.len() {
                                let id = r@[m];
                                assert(ids@[m - r0.len()] == id);
                                assert(ids@.contains(id));
                                assert(alpha_spec(self.dict()[id as int]) == a);
                                crate::word::lemma_alpha_spec(self.dict()[id as int]);
                                assert(self.dict()[id as int].to_multiset() == a.to_multiset());
                                assert(self.dict()[id as int].len() >= 1) by {
                                    assert(self.dict()[id as int].to_multiset().len()
                                        == a.to_multiset().len());
                                    assert(a.len() >= 1);
                                }
                            }
                        }
                        assert forall|m: int|
                            #![trigger r@[m]]
                            0 <= m < r@.len() implies exists|kk2: int|
                                0 <= kk2 < k + 1 && alpha_spec(self.dict()[r@[m] as int]) == (
                                #[trigger] alphas@[kk2])@ by {
                            if m < r0.len() {
                                assert(r@[m] == r0[m]);
                                let kk2 = choose|kk2: int|
                                    0 <= kk2 < k && alpha_spec(self.dict()[r0[m] as int]) == (
                                    #[trigger] alphas@[kk2])@;
                                assert(alpha_spec(self.dict()[r@[m] as int]) == alphas@[kk2]@);
                            } else {
                                assert(r@[m] == ids@[m - r0.len()]);
                                assert(ids@.contains(r@[m]));
                                assert(alpha_spec(self.dict()[r@[m] as int]) == alphas@[k as int]@);
                            }
                        }
                        assert forall|m1: int, m2: int|
                            0 <= m1 < m2 < r@.len() implies r@[m1] != r@[m2] by {
                            if m2 < r0.len() {
                                assert(r@[m1] == r0[m1] && r@[m2] == r0[m2]);
                            } else if m1 >= r0.len() {
                                assert(r@[m1] == ids@[m1 - r0.len()]);
                                assert(r@[m2] == ids@[m2 - r0.len()]);
                                assert(ids@[m1 - r0.len()] < ids@[m2 - r0.len()]);
                            } else {
                                assert(r@[m1] == r0[m1]);
                                assert(r@[m2] == ids@[m2 - r0.len()]);
                                let kk2 = choose|kk2: int|
                                    0 <= kk2 < k && alpha_spec(self.dict()[r0[m1] as int]) == (
                                    #[trigger] alphas@[kk2])@;
                                assert(alphas@[kk2]@ != alphas@[k as int]@);
                                assert(ids@.contains(r@[m2]));
                                assert(alpha_spec(self.dict()[r@[m2] as int])
                                    == alphas@[k as int]@);
                                if r@[m1] == r@[m2] {
                                    assert(false);
                                }
                            }
                        }
                        assert forall|kk: int, id: Id|
                            #![trigger alphas@[kk], self.dict()[id as int]]
                            (0 <= kk < k + 1 && id < self.dict().len() && alpha_spec(
                                self.dict()[id as int],
                            ) == alphas@[kk]@) implies r@.contains(id) by {
                            if kk < k {
                                assert(r0.contains(id));
                                let m = choose|m: int| 0 <= m < r0.len() && r0[m] == id;
                                assert(r@[m] == r0[m]);
                                assert(r@.contains(id));
                            } else {
                                assert(ids@.contains(id));
                                let m = choose|m: int| 0 <= m < ids@.len() && ids@[m] == id;
                                assert(r@[r0.len() + m] == id);
                                assert(r@.contains(id));
                            }
                        }
                    }
                },
                None => {
                    proof {
                        assert forall|m: int|
                            #![trigger r@[m]]
                            0 <= m < r@.len() implies exists|kk2: int|
                                0 <= kk2 < k + 1 && alpha_spec(self.dict()[r@[m] as int]) == (
                                #[trigger] alphas@[kk2])@ by {
                            let kk2 = choose|kk2: int|
                                0 <= kk2 < k && alpha_spec(self.dict()[r@[m] as int]) == (
                                #[trigger] alphas@[kk2])@;
                        }
                        assert forall|id: Id|
                            !(id < self.dict().len() && alpha_spec(self.dict()[id as int]) == (
                            alphas@[k as int])@) by {
                            if id < self.dict().len() && alpha_spec(self.dict()[id as int]) == (
                            alphas@[k as int])@ {
                                assert(self.has_dict_alpha(alphas@[k as int]@));
                            }
                        }
                    }
                },
            }
            k = k + 1;
        }
        proof {
            if stop_alpha is None {
                assert forall|id: Id|
                    (id < self.dict().len() && self.dict()[id as int].to_multiset().subset_of(
                        word@.to_multiset(),
                    ) && self.dict()[id as int].len() >= 1) implies r@.contains(id) by {
                    let a = alpha_spec(self.dict()[id as int]);
                    crate::word::lemma_alpha_spec(self.dict()[id as int]);
                    assert(self.has_dict_alpha(a));
                    assert(a.len() >= 1) by {
                        assert(a.to_multiset().len() == self.dict()[id as int].to_multiset().len());
                    }
                    assert(a.to_multiset().subset_of(word@.to_multiset()));
                    assert(contains_view(alphas@, a));
                    let kk = choose|kk: int|
                        0 <= kk < alphas@.len() && (#[trigger] alphas@[kk])@ == a;
                }
            }
        }
        r
    }
}

/// A copy of an identifier vector with provably the same contents.
fn copy_ids(v: &Vec<Id>) -> (r: Vec<Id>)
    ensures
        r@ == v@,
{
    let mut r: Vec<Id> = Vec::new();
    let mut i: usize = 0;
    while i < v.len()
        invariant
            i <= v@.len(),
            r@ == v@.take(i as int),
        decreases v@.len() - i,
    {
        r.push(v[i]);
        proof {
            assert(r@ =~= v@.take(i as int + 1));
        }
        i = i + 1;
    }
    proof {
        assert(r@ =~= v@);
    }
    r
}

/// Appends all of `src` to `dst`.
fn append_ids(dst: &mut Vec<Id>, src: &Vec<Id>)
    ensures
        final(dst)@ == old(dst)@ + src@,
{
    let mut i: usize = 0;
    while i < src.len()
        invariant
            i <= src@.len(),
            dst@ == old(dst)@ + src@.take(i as int),
        decreases src@.len() - i,
    {
        proof {
            assert(old(dst)@ + src@.take(i as int) =~= dst@);
        }
        dst.push(src[i]);
        proof {
            assert(dst@ =~= old(dst)@ + src@.take(i as int + 1));
        }
        i = i + 1;
    }
    proof {
        assert(dst@ =~= old(dst)@ + src@);
    }
}


/// The combined letter multiset of the dictionary words behind a sequence
/// of identifiers.
pub open spec fn ids_letters(dict: Seq<Seq<Letter>>, s: Seq<Id>) -> Multiset<Letter>
    decreases s.len(),
{
    if s.len() == 0 {
        Multiset::empty()
    } else {
        ids_letters(dict, s.drop_last()).add(dict[s.last() as int].to_multiset())
    }
}

/// The combined letter multiset of a sequence of words.
spec fn words_letters(ws: Seq<Word>) -> Multiset<Letter>
    decreases ws.len(),
{
    if ws.len() == 0 {
        Multiset::empty()
    } else {
        words_letters(ws.drop_last()).add(ws.last()@.to_multiset())
    }
}

/// One complete decomposition: at least one word, all identifiers in range,
/// and the words' letters together exactly the query's letters.
pub open spec fn decomposition_ok(dict: Seq<Seq<Letter>>, s: Seq<Id>, w: Seq<Letter>) -> bool {
    &&& s.len() >= 1
    &&& (forall|j: int| 0 <= j < s.len() ==> (#[trigger] s[j]) < dict.len())
    &&& ids_letters(dict, s) == w.to_multiset()
}

/// A decomposition the multigram search owes: a valid decomposition into
/// nonempty dictionary words whose alphagrams come in the search's canonical
/// non-increasing order, within the word-count cap.
pub open spec fn multigram_owed(
    dict: Seq<Seq<Letter>>,
    s: Seq<Id>,
    w: Seq<Letter>,
    limit: Option<usize>,
) -> bool {
    &&& decomposition_ok(dict, s, w)
    &&& (forall|j: int| 0 <= j < s.len() ==> dict[(#[trigger] s[j]) as int].len() >= 1)
    &&& (forall|j: int|
        0 <= j < s.len() - 1 ==> alpha_below(
            alpha_spec(dict[s[j + 1] as int]),
            alpha_spec(dict[(#[trigger] s[j]) as int]),
        ))
    &&& (limit matches Some(l) ==> s.len() <= limit_cap(l))
}

/// The word-count cap a limit imposes: a limit of zero still admits the
/// single-word decompositions.
pub open spec fn limit_cap(l: usize) -> int {
    if l as int >= 1 {
        l as int
    } else {
        1int
    }
}

/// Some element of `r` views to the identifier sequence `s`.
pub open spec fn contains_ids(r: Seq<Vec<Id>>, s: Seq<Id>) -> bool {
    exists|k: int| 0 <= k < r.len() && (#[trigger] r[k])@ == s
}

/// Identifier sequences that match a word sequence alphagram by alphagram
/// carry the same letters.
proof fn lemma_ids_letters_match(dict: Seq<Seq<Letter>>, s: Seq<Id>, ws: Seq<Word>)
    requires
        s.len() == ws.len(),
        forall|j: int|
            #![trigger s[j]]
            0 <= j < s.len() ==> s[j] < dict.len() && alpha_spec(dict[s[j] as int]) == ws[j]@,
    ensures
        ids_letters(dict, s) == words_letters(ws),
    decreases s.len(),
{
    if s.len() > 0 {
        assert forall|j: int|
            0 <= j < s.drop_last().len() implies (#[trigger] s.drop_last()[j]) < dict.len()
            && alpha_spec(dict[s.drop_last()[j] as int]) == ws.drop_last()[j]@ by {
            assert(s.drop_last()[j] == s[j]);
            assert(ws.drop_last()[j] == ws[j]);
            assert(s[j] < dict.len() && alpha_spec(dict[s[j] as int]) == ws[j]@);
        }
        lemma_ids_letters_match(dict, s.drop_last(), ws.drop_last());
        assert(s[s.len() - 1] == s.last());
        assert(ws[ws.len() - 1] == ws.last());
        crate::word::lemma_alpha_spec(dict[s.last() as int]);
        assert(dict[s.last() as int].to_multiset() == ws.last()@.to_multiset());
    }
}

/// Appending a word adds exactly its letters.
proof fn lemma_words_letters_push(ws: Seq<Word>, w: Word)
    ensures
        words_letters(ws.push(w)) == words_letters(ws).add(w@.to_multiset()),
{
    assert(ws.push(w).drop_last() =~= ws);
    assert(ws.push(w).last() == w);
}

/// Word sequences equal view by view carry the same letters.
proof fn lemma_words_letters_congruent(a: Seq<Word>, b: Seq<Word>)
    requires
        a.len() == b.len(),
        forall|k: int| 0 <= k < a.len() ==> (#[trigger] a[k])@ == (#[trigger] b[k])@,
    ensures
        words_letters(a) == words_letters(b),
    decreases a.len(),
{
    if a.len() > 0 {
        assert(forall|k: int| 0 <= k < a.len() - 1 ==> a.drop_last()[k] == a[k]);
        assert(forall|k: int| 0 <= k < b.len() - 1 ==> b.drop_last()[k] == b[k]);
        lemma_words_letters_congruent(a.drop_last(), b.drop_last());
    }
}

/// The combined letter multiset of a sequence of alphagrams.
pub open spec fn seqs_letters(ds: Seq<Seq<Letter>>) -> Multiset<Letter>
    decreases ds.len(),
{
    if ds.len() == 0 {
        Multiset::empty()
    } else {
        seqs_letters(ds.drop_last()).add(ds.last().to_multiset())
    }
}

/// The alphagram of each word behind an identifier sequence.
pub open spec fn alphas_of(dict: Seq<Seq<Letter>>, s: Seq<Id>) -> Seq<Seq<Letter>> {
    Seq::new(s.len(), |j: int| alpha_spec(dict[s[j] as int]))
}

/// A word sequence seen as its letter sequences.
pub open spec fn list_views(ws: Seq<Word>) -> Seq<Seq<Letter>> {
    Seq::new(ws.len(), |j: int| ws[j]@)
}

/// Splitting off the first alphagram splits its letters off the sum.
proof fn lemma_seqs_letters_first(ds: Seq<Seq<Letter>>)
    requires
        ds.len() >= 1,
    ensures
        seqs_letters(ds) == ds[0].to_multiset().add(seqs_letters(ds.drop_first())),
    decreases ds.len(),
{
    if ds.len() == 1 {
        assert(ds.drop_last() =~= Seq::<Seq<Letter>>::empty());
        assert(ds.drop_first() =~= Seq::<Seq<Letter>>::empty());
        assert(ds.last() == ds[0]);
        assert(seqs_letters(ds) =~= ds[0].to_multiset().add(seqs_letters(ds.drop_first())));
    } else {
        lemma_seqs_letters_first(ds.drop_last());
        assert(ds.drop_last()[0] == ds[0]);
        assert(ds.drop_last().drop_first() =~= ds.drop_first().drop_last());
        assert(ds.drop_first().last() == ds.last());
        assert(seqs_letters(ds) =~= ds[0].to_multiset().add(seqs_letters(ds.drop_first())));
    }
}

/// An identifier sequence carries the same letters as its alphagrams.
proof fn lemma_ids_letters_alphas(dict: Seq<Seq<Letter>>, s: Seq<Id>)
    ensures
        ids_letters(dict, s) == seqs_letters(alphas_of(dict, s)),
    decreases s.len(),
{
    if s.len() > 0 {
        lemma_ids_letters_alphas(dict, s.drop_last());
        assert(alphas_of(dict, s.drop_last()) =~= alphas_of(dict, s).drop_last());
        crate::word::lemma_alpha_spec(dict[s.last() as int]);
        assert(alphas_of(dict, s).last() == alpha_spec(dict[s.last() as int]));
    } else {
        assert(alphas_of(dict, s) =~= Seq::<Seq<Letter>>::empty());
    }
}

/// A word sequence's letters are its views' letters.
proof fn lemma_words_letters_views(ws: Seq<Word>)
    ensures
        words_letters(ws) == seqs_letters(list_views(ws)),
    decreases ws.len(),
{
    if ws.len() > 0 {
        lemma_words_letters_views(ws.drop_last());
        assert(list_views(ws.drop_last()) =~= list_views(ws).drop_last());
        assert(list_views(ws).last() == ws.last()@);
    } else {
        assert(list_views(ws) =~= Seq::<Seq<Letter>>::empty());
    }
}

/// Some list in `lists` is the one-word list holding exactly `a`.
spec fn has_singleton(lists: Seq<Vec<Word>>, a: Seq<Letter>) -> bool {
    exists|k: int|
        0 <= k < lists.len() && (#[trigger] lists[k])@.len() == 1 && lists[k]@[0]@ == a
}

/// Prefixes `rest` with one identifier.
fn cons_id(id: Id, rest: &Vec<Id>) -> (r: Vec<Id>)
    ensures
        r@ == seq![id] + rest@,
{
    let mut r: Vec<Id> = Vec::new();
    r.push(id);
    append_ids(&mut r, rest);
    proof {
        assert(r@ =~= seq![id] + rest@);
    }
    r
}

/// A copy of a word vector whose elements view to the same letters.
fn clone_words(v: &Vec<Word>) -> (r: Vec<Word>)
    ensures
        r@.len() == v@.len(),
        forall|k: int| 0 <= k < v@.len() ==> (#[trigger] r@[k])@ == v@[k]@,
{
    let mut r: Vec<Word> = Vec::new();
    let mut i: usize = 0;
    while i < v.len()
        invariant
            i <= v@.len(),
            r@.len() == i,
            forall|k: int| 0 <= k < i ==> (#[trigger] r@[k])@ == v@[k]@,
        decreases v@.len() - i,
    {
        r.push(word_clone(&v[i]));
        i = i + 1;
    }
    r
}

impl AnagramR {
    /// A decomposition tail the search still owes from a given state:
    /// dictionary-backed nonempty alphagrams in non-increasing stop order,
    /// the first below the bound where one is set, letters summing exactly
    /// to the remainder, and room for all of it under the word-count cap.
    spec fn tail_owed(
        self,
        ds: Seq<Seq<Letter>>,
        bound: Option<Seq<Letter>>,
        left: Seq<Letter>,
        done: int,
        limit: Option<usize>,
    ) -> bool {
        &&& ds.len() >= 1
        &&& (forall|j: int|
            0 <= j < ds.len() ==> self.has_dict_alpha(#[trigger] ds[j]) && ds[j].len() >= 1)
        &&& (forall|j: int| 0 <= j < ds.len() - 1 ==> alpha_below(#[trigger] ds[j + 1], ds[j]))
        &&& (bound matches Some(b) ==> alpha_below(ds[0], b))
        &&& seqs_letters(ds) == left.to_multiset()
        &&& (limit matches Some(l) ==> done + ds.len() <= limit_cap(l))
    }

    /// A recorded alphagram list: nonempty, every alphagram backed by the
    /// dictionary, letters summing to the query, within the cap.
    spec fn list_ok(self, ws: Seq<Word>, w: Seq<Letter>, limit: Option<usize>) -> bool {
        &&& ws.len() >= 1
        &&& (forall|j: int| 0 <= j < ws.len() ==> self.has_dict_alpha((#[trigger] ws[j])@))
        &&& words_letters(ws) == w.to_multiset()
        &&& (limit matches Some(l) ==> ws.len() <= limit_cap(l))
    }

    /// A live search state: sorted nonempty remainder, backed alphagrams
    /// chosen so far, letters adding back up to the query, room for at
    /// least one more word under the cap.
    spec fn state_ok(self, st: (Word, Vec<Word>), w: Seq<Letter>, limit: Option<usize>) -> bool {
        &&& sorted(st.0@)
        &&& st.0@.len() >= 1
        &&& (forall|j: int| 0 <= j < st.1@.len() ==> self.has_dict_alpha((#[trigger] st.1@[j])@))
        &&& words_letters(st.1@).add(st.0@.to_multiset()) == w.to_multiset()
        &&& (limit matches Some(l) ==> st.1@.len() + 1 <= limit_cap(l))
    }

    /// Cartesian expansion of one alphagram list into identifier lists,
    /// position by position: every combination of one matching identifier
    /// per position appears exactly once.
    #[verifier::loop_isolation(false)]
    fn expand(&self, alphas: &Vec<Word>, pos: usize) -> (r: Vec<Vec<Id>>)
        requires
            self.wf(),
            pos <= alphas@.len(),
            forall|j: int|
                pos <= j < alphas@.len() ==> self.has_dict_alpha((#[trigger] alphas@[j])@),
        ensures
            forall|k: int|
                0 <= k < r@.len() ==> (#[trigger] r@[k])@.len() == alphas@.len() - pos,
            forall|k: int, j: int|
                0 <= k < r@.len() && 0 <= j < alphas@.len() - pos ==> (#[trigger] r@[k]@[j])
                    < self.dict().len() && alpha_spec(self.dict()[r@[k]@[j] as int])
                    == alphas@[pos + j]@,
            forall|s: Seq<Id>|
                #![trigger contains_ids(r@, s)]
                (s.len() == alphas@.len() - pos && (forall|j: int|
                    0 <= j < s.len() ==> (#[trigger] s[j]) < self.dict().len() && alpha_spec(
                        self.dict()[s[j] as int],
                    ) == alphas@[pos + j]@)) ==> contains_ids(r@, s),
            forall|k1: int, k2: int|
                0 <= k1 < k2 < r@.len() ==> (#[trigger] r@[k1])@ != (#[trigger] r@[k2])@,
            r@.len() >= 1,
        decreases alphas@.len() - pos,
    {
        if pos == alphas.len() {
            let mut r: Vec<Vec<Id>> = Vec::new();
            let empty: Vec<Id> = Vec::new();
            r.push(empty);
            proof {
                assert forall|s: Seq<Id>|
                    (s.len() == alphas@.len() - pos && (forall|j: int|
                        0 <= j < s.len() ==> (#[trigger] s[j]) < self.dict().len() && alpha_spec(
                            self.dict()[s[j] as int],
                        ) == alphas@[pos + j]@)) implies contains_ids(r@, s) by {
                    assert(s =~= Seq::<Id>::empty());
                    assert(r@[0]@ == s);
                }
            }
            r
        } else {
            let sub = self.expand(alphas, pos + 1);
            let ids = match self.lookup_ids(&alphas[pos]) {
                Some(ids) => ids,
                None => {
                    proof {
                        assert(false);
                    }
                    return Vec::new();
                },
            };
            proof {
                lemma_ids_with_alpha(self.dict(), alphas@[pos as int]@);
                assert(ids@.len() >= 1) by {
                    let i = choose|i: int|
                        0 <= i < self.dict().len() && alpha_spec(#[trigger] self.dict()[i])
                            == alphas@[pos as int]@;
                    let id0 = (i) as usize;
                    assert(alpha_spec(self.dict()[id0 as int]) == alphas@[pos as int]@);
                    assert(ids@.contains(id0));
                }
            }
            let mut r: Vec<Vec<Id>> = Vec::new();
            let mut a: usize = 0;
            while a < ids.len()
                invariant
                    a <= ids@.len(),
                    forall|k: int|
                        0 <= k < r@.len() ==> (#[trigger] r@[k])@.len() == alphas@.len()
                            - pos,
                    forall|k: int, j: int|
                        0 <= k < r@.len() && 0 <= j < alphas@.len() - pos ==> (
                        #[trigger] r@[k]@[j]) < self.dict().len() && alpha_spec(
                            self.dict()[r@[k]@[j] as int],
                        ) == alphas@[pos + j]@,
                    forall|s: Seq<Id>|
                        #![trigger contains_ids(r@, s)]
                        (s.len() == alphas@.len() - pos && (forall|j: int|
                            0 <= j < s.len() ==> (#[trigger] s[j]) < self.dict().len()
                                && alpha_spec(self.dict()[s[j] as int]) == alphas@[pos + j]@)
                            && (exists|a2: int| 0 <= a2 < a && ids@[a2] == s[0]))
                            ==> contains_ids(r@, s),
                    forall|k: int|
                        0 <= k < r@.len() ==> exists|a2: int|
                            0 <= a2 < a && ids@[a2] == (#[trigger] r@[k])@[0],
                    forall|k1: int, k2: int|
                        0 <= k1 < k2 < r@.len() ==> (#[trigger] r@[k1])@ != (
                        #[trigger] r@[k2])@,
                    a > 0 ==> r@.len() >= 1,
                decreases ids@.len() - a,
            {
                let id = ids[a];
                proof {
                    assert(ids@.contains(id));
                }
                let ghost r_outer = r@;
                let mut b: usize = 0;
                while b < sub.len()
                    invariant
                        b <= sub@.len(),
                        forall|k: int|
                            0 <= k < r@.len() ==> (#[trigger] r@[k])@.len() == alphas@.len()
                                - pos,
                        forall|k: int, j: int|
                            0 <= k < r@.len() && 0 <= j < alphas@.len() - pos ==> (
                            #[trigger] r@[k]@[j]) < self.dict().len() && alpha_spec(
                                self.dict()[r@[k]@[j] as int],
                            ) == alphas@[pos + j]@,
                        forall|s: Seq<Id>|
                            #![trigger contains_ids(r@, s)]
                            (s.len() == alphas@.len() - pos && (forall|j: int|
                                0 <= j < s.len() ==> (#[trigger] s[j]) < self.dict().len()
                                    && alpha_spec(self.dict()[s[j] as int]) == alphas@[pos
                                    + j]@) && (exists|a2: int| 0 <= a2 < a && ids@[a2] == s[0]))
                                ==> contains_ids(r@, s),
                        forall|s: Seq<Id>|
                            #![trigger contains_ids(r@, s)]
                            (s.len() == alphas@.len() - pos && s[0] == id && (exists|b2: int|
                                0 <= b2 < b && (#[trigger] sub@[b2])@ == s.drop_first()))
                                ==> contains_ids(r@, s),
                        forall|k: int|
                            0 <= k < r@.len() ==> ((exists|a2: int|
                                0 <= a2 < a && ids@[a2] == (#[trigger] r@[k])@[0]) || (
                            r@[k]@[0] == id && exists|b2: int|
                                0 <= b2 < b && (#[trigger] sub@[b2])@ == r@[k]@.drop_first())),
                        forall|k1: int, k2: int|
                            0 <= k1 < k2 < r@.len() ==> (#[trigger] r@[k1])@ != (
                            #[trigger] r@[k2])@,
                        b > 0 ==> r@.len() >= 1,
                        a > 0 ==> r@.len() >= 1,
                    decreases sub@.len() - b,
                {
                    let ghost r0 = r@;
                    let t = cons_id(id, &sub[b]);
                    r.push(t);
                    proof {
                        assert(t@ == seq![id] + sub@[b as int]@);
                        assert(t@.len() == 1 + sub@[b as int]@.len());
                        assert(t@[0] == id);
                        assert(t@.drop_first() =~= sub@[b as int]@);
                        assert forall|j: int|
                            0 <= j < alphas@.len() - pos implies (t@[j]) < self.dict().len()
                            && alpha_spec(self.dict()[t@[j] as int]) == alphas@[pos + j]@ by {
                            if j == 0 {
                            } else {
                                assert(t@[j] == sub@[b as int]@[j - 1]);
                            }
                        }
                        assert forall|s: Seq<Id>|
                            #![trigger contains_ids(r@, s)]
                            (s.len() == alphas@.len() - pos && (forall|j: int|
                                0 <= j < s.len() ==> (#[trigger] s[j]) < self.dict().len()
                                    && alpha_spec(self.dict()[s[j] as int]) == alphas@[pos
                                    + j]@) && (exists|a2: int| 0 <= a2 < a && ids@[a2] == s[0]))
                                implies contains_ids(r@, s) by {
                            assert(contains_ids(r0, s));
                            let kk = choose|kk: int|
                                0 <= kk < r0.len() && (#[trigger] r0[kk])@ == s;
                            assert(r@[kk]@ == s);
                        }
                        assert forall|s: Seq<Id>|
                            #![trigger contains_ids(r@, s)]
                            (s.len() == alphas@.len() - pos && s[0] == id && (exists|b2: int|
                                0 <= b2 < b + 1 && (#[trigger] sub@[b2])@ == s.drop_first()))
                                implies contains_ids(r@, s) by {
                            let b2 = choose|b2: int|
                                0 <= b2 < b + 1 && (#[trigger] sub@[b2])@ == s.drop_first();
                            if b2 < b {
                                assert(contains_ids(r0, s));
                                let kk = choose|kk: int|
                                    0 <= kk < r0.len() && (#[trigger] r0[kk])@ == s;
                                assert(r@[kk]@ == s);
                            } else {
                                assert(s =~= seq![s[0]] + s.drop_first());
                                assert(r@[r0.len() as int]@ == t@);
                                assert(t@ == s);
                            }
                        }
                        assert forall|k1: int, k2: int|
                            0 <= k1 < k2 < r@.len() implies (#[trigger] r@[k1])@ != (
                        #[trigger] r@[k2])@ by {
                            if k2 == r0.len() {
                                assert(r@[k2]@ == t@);
                                let w1 = r@[k1]@;
                                assert(r@[k1] == r0[k1]);
                                if exists|a2: int| 0 <= a2 < a && ids@[a2] == w1[0] {
                                    let a2 = choose|a2: int|
                                        0 <= a2 < a && ids@[a2] == w1[0];
                                    assert(ids@[a2] < ids@[a as int]);
                                    assert(w1[0] != id);
                                } else {
                                    assert(w1[0] == id);
                                    let b2 = choose|b2: int|
                                        0 <= b2 < b && (#[trigger] sub@[b2])@
                                            == w1.drop_first();
                                    assert(sub@[b2]@ != sub@[b as int]@);
                                    if w1 == t@ {
                                        assert(w1.drop_first() == t@.drop_first());
                                        assert(false);
                                    }
                                }
                            }
                        }
                    }
                    b = b + 1;
                }
                proof {
                    assert(sub@.len() >= 1);
                    assert forall|s: Seq<Id>|
                        #![trigger contains_ids(r@, s)]
                        (s.len() == alphas@.len() - pos && (forall|j: int|
                            0 <= j < s.len() ==> (#[trigger] s[j]) < self.dict().len()
                                && alpha_spec(self.dict()[s[j] as int]) == alphas@[pos + j]@)
                            && (exists|a2: int| 0 <= a2 < a + 1 && ids@[a2] == s[0]))
                            implies contains_ids(r@, s) by {
                        let a2 = choose|a2: int| 0 <= a2 < a + 1 && ids@[a2] == s[0];
                        if a2 == a {
                            assert(s[0] == id);
                            let st = s.drop_first();
                            assert(st.len() == alphas@.len() - (pos + 1));
                            assert forall|j: int|
                                0 <= j < st.len() implies (#[trigger] st[j])
                                < self.dict().len() && alpha_spec(self.dict()[st[j] as int])
                                == alphas@[pos + 1 + j]@ by {
                                assert(st[j] == s[j + 1]);
                            }
                            assert(contains_ids(sub@, st));
                            let b2 = choose|b2: int|
                                0 <= b2 < sub@.len() && (#[trigger] sub@[b2])@ == st;
                            assert(contains_ids(r@, s));
                        } else {
                            assert(contains_ids(r@, s));
                        }
                    }
                    assert forall|k: int|
                        0 <= k < r@.len() implies exists|a2: int|
                            0 <= a2 < a + 1 && ids@[a2] == (#[trigger] r@[k])@[0] by {
                        if exists|a2: int| 0 <= a2 < a && ids@[a2] == r@[k]@[0] {
                            let a2 = choose|a2: int| 0 <= a2 < a && ids@[a2] == r@[k]@[0];
                        } else {
                            assert(r@[k]@[0] == id);
                            assert(ids@[a as int] == r@[k]@[0]);
                        }
                    }
                }
                a = a + 1;
            }
            proof {
                assert forall|s: Seq<Id>|
                    (s.len() == alphas@.len() - pos && (forall|j: int|
                        0 <= j < s.len() ==> (#[trigger] s[j]) < self.dict().len() && alpha_spec(
                            self.dict()[s[j] as int],
                        ) == alphas@[pos + j]@)) implies contains_ids(r@, s) by {
                    assert(s[0] < self.dict().len() && alpha_spec(self.dict()[s[0] as int])
                        == alphas@[pos as int]@);
                    assert(ids@.contains(s[0]));
                    let a2 = choose|a2: int| 0 <= a2 < ids@.len() && ids@[a2] == s[0];
                    assert(contains_ids(r@, s));
                }
            }
            r
        }
    }

    /// The backtracking descent: extends one chain of chosen alphagrams,
    /// bounded below by the last choice, until the remaining letters are
    /// used up, recording each complete chain.
    #[verifier::loop_isolation(false)]
    fn search(
        &self,
        left: &Word,
        chosen: &Vec<Word>,
        Ghost(w): Ghost<Seq<Letter>>,
        word_limit: Option<usize>,
        alpha_lists: &mut Vec<Vec<Word>>,
    )
        requires
            self.wf(),
            sorted(left@),
            left@.len() >= 1,
            chosen@.len() >= 1,
            forall|j: int|
                0 <= j < chosen@.len() ==> self.has_dict_alpha((#[trigger] chosen@[j])@),
            words_letters(chosen@).add(left@.to_multiset()) == w.to_multiset(),
            word_limit matches Some(l) ==> chosen@.len() + 1 <= limit_cap(l),
            forall|k: int|
                0 <= k < old(alpha_lists)@.len() ==> self.list_ok(
                    (#[trigger] old(alpha_lists)@[k])@,
                    w,
                    word_limit,
                ),
        ensures
            final(alpha_lists)@.len() >= old(alpha_lists)@.len(),
            forall|k: int|
                0 <= k < old(alpha_lists)@.len() ==> final(alpha_lists)@[k] == old(
                    alpha_lists,
                )@[k],
            forall|k: int|
                0 <= k < final(alpha_lists)@.len() ==> self.list_ok(
                    (#[trigger] final(alpha_lists)@[k])@,
                    w,
                    word_limit,
                ),
            forall|ds: Seq<Seq<Letter>>|
                #![trigger seqs_letters(ds)]
                self.tail_owed(
                    ds,
                    Some(chosen@[chosen@.len() - 1]@),
                    left@,
                    chosen@.len() as int,
                    word_limit,
                ) ==> exists|k: int|
                    0 <= k < final(alpha_lists)@.len() && list_views(
                        (#[trigger] final(alpha_lists)@[k])@,
                    ) == list_views(chosen@) + ds,
            forall|k: int|
                old(alpha_lists)@.len() <= k < final(alpha_lists)@.len() ==> (
                #[trigger] final(alpha_lists)@[k])@.len() > chosen@.len() && (forall|j: int|
                    0 <= j < chosen@.len() ==> (#[trigger] final(alpha_lists)@[k]@[j])@
                        == chosen@[j]@),
            forall|k1: int, k2: int|
                old(alpha_lists)@.len() <= k1 < k2 < final(alpha_lists)@.len() ==> list_views(
                    (#[trigger] final(alpha_lists)@[k1])@,
                ) != list_views((#[trigger] final(alpha_lists)@[k2])@),
        decreases left@.len(),
    {
        let stop: Option<&Word> = Some(&chosen[chosen.len() - 1]);
        let candidates = self.alphagrams_helper(left, stop);
        proof {
            assert forall|ds: Seq<Seq<Letter>>|
                #![trigger seqs_letters(ds)]
                self.tail_owed(
                    ds,
                    Some(chosen@[chosen@.len() - 1]@),
                    left@,
                    chosen@.len() as int,
                    word_limit,
                ) implies contains_view(candidates@, ds[0]) by {
                lemma_seqs_letters_first(ds);
                assert(ds[0].to_multiset().subset_of(left@.to_multiset())) by {
                    assert forall|y: Letter|
                        ds[0].to_multiset().count(y) <= left@.to_multiset().count(y) by {
                        assert(left@.to_multiset().count(y) == ds[0].to_multiset().count(y)
                            + seqs_letters(ds.drop_first()).count(y));
                    }
                }
                assert(alpha_below(ds[0], chosen@[chosen@.len() - 1]@));
                assert(contains_view(candidates@, ds[0]));
            }
        }
        let mut c: usize = 0;
        while c < candidates.len()
            invariant
                c <= candidates@.len(),
                alpha_lists@.len() >= old(alpha_lists)@.len(),
                forall|k: int|
                    0 <= k < old(alpha_lists)@.len() ==> alpha_lists@[k] == old(alpha_lists)@[k],
                forall|k: int|
                    0 <= k < alpha_lists@.len() ==> self.list_ok(
                        (#[trigger] alpha_lists@[k])@,
                        w,
                        word_limit,
                    ),
                forall|ds: Seq<Seq<Letter>>|
                    #![trigger seqs_letters(ds)]
                    self.tail_owed(
                        ds,
                        Some(chosen@[chosen@.len() - 1]@),
                        left@,
                        chosen@.len() as int,
                        word_limit,
                    ) ==> ((exists|k: int|
                        0 <= k < alpha_lists@.len() && list_views((#[trigger] alpha_lists@[k])@)
                            == list_views(chosen@) + ds) || (exists|c2: int|
                        c <= c2 < candidates@.len() && (#[trigger] candidates@[c2])@ == ds[0])),
                forall|k: int|
                    old(alpha_lists)@.len() <= k < alpha_lists@.len() ==> (
                    #[trigger] alpha_lists@[k])@.len() > chosen@.len() && (forall|j: int|
                        0 <= j < chosen@.len() ==> (#[trigger] alpha_lists@[k]@[j])@
                            == chosen@[j]@),
                forall|k: int|
                    old(alpha_lists)@.len() <= k < alpha_lists@.len() ==> exists|c2: int|
                        0 <= c2 < c && (#[trigger] alpha_lists@[k])@[chosen@.len() as int]@
                            == candidates@[c2]@,
                forall|k1: int, k2: int|
                    old(alpha_lists)@.len() <= k1 < k2 < alpha_lists@.len() ==> list_views(
                        (#[trigger] alpha_lists@[k1])@,
                    ) != list_views((#[trigger] alpha_lists@[k2])@),
            decreases candidates@.len() - c,
        {
            let ghost lists_head = alpha_lists@;
            let cand = &candidates[c];
            let next_left = alpha_subtract(left, cand);
            let mut next_vec = clone_words(chosen);
            next_vec.push(word_clone(cand));
            proof {
                let cloned = next_vec@.drop_last();
                assert(next_vec@ =~= cloned.push(next_vec@.last()));
                lemma_words_letters_push(cloned, next_vec@.last());
                lemma_words_letters_congruent(cloned, chosen@);
                assert(words_letters(next_vec@) == words_letters(chosen@).add(
                    cand@.to_multiset(),
                ));
                assert forall|j: int|
                    0 <= j < next_vec@.len() implies self.has_dict_alpha(
                    (#[trigger] next_vec@[j])@,
                ) by {
                    if j < chosen@.len() {
                        assert(next_vec@[j]@ == chosen@[j]@);
                        assert(self.has_dict_alpha(chosen@[j]@));
                    } else {
                        assert(next_vec@[j]@ == cand@);
                    }
                }
            }
            let ghost lists0 = alpha_lists@;
            if next_left.letters.len() == 0 {
                proof {
                    assert(cand@.to_multiset() =~= left@.to_multiset()) by {
                        assert forall|y: Letter|
                            cand@.to_multiset().count(y) == left@.to_multiset().count(y) by {
                            assert(next_left@.to_multiset().count(y) == 0) by {
                                if next_left@.to_multiset().count(y) > 0 {
                                    assert(next_left@.contains(y));
                                }
                            }
                            assert(cand@.to_multiset().count(y) <= left@.to_multiset().count(y));
                        }
                    }
                    assert(words_letters(next_vec@) =~= w.to_multiset()) by {
                        assert(words_letters(chosen@).add(left@.to_multiset()) == w.to_multiset());
                    }
                    assert(self.list_ok(next_vec@, w, word_limit));
                }
                alpha_lists.push(next_vec);
                proof {
                    assert forall|k: int|
                        0 <= k < alpha_lists@.len() implies self.list_ok(
                        (#[trigger] alpha_lists@[k])@,
                        w,
                        word_limit,
                    ) by {
                        if k < lists0.len() {
                            assert(alpha_lists@[k] == lists0[k]);
                        }
                    }
                    assert forall|k: int|
                        old(alpha_lists)@.len() <= k < alpha_lists@.len() implies (
                    #[trigger] alpha_lists@[k])@.len() > chosen@.len() && (forall|j: int|
                        0 <= j < chosen@.len() ==> (#[trigger] alpha_lists@[k]@[j])@
                            == chosen@[j]@) by {
                        if k < lists0.len() {
                            assert(alpha_lists@[k] == lists0[k]);
                        } else {
                            assert(alpha_lists@[k]@ == next_vec@);
                            assert forall|j: int|
                                0 <= j < chosen@.len() implies (alpha_lists@[k]@[j])@
                                == chosen@[j]@ by {
                                assert(next_vec@[j]@ == chosen@[j]@);
                            }
                        }
                    }
                    assert forall|k: int|
                        old(alpha_lists)@.len() <= k < alpha_lists@.len() implies exists|c2: int|
                        0 <= c2 < c + 1 && (#[trigger] alpha_lists@[k])@[chosen@.len() as int]@
                            == candidates@[c2]@ by {
                        if k < lists0.len() {
                            assert(alpha_lists@[k] == lists0[k]);
                            let c2 = choose|c2: int|
                                0 <= c2 < c && (#[trigger] lists0[k])@[chosen@.len() as int]@
                                    == candidates@[c2]@;
                            assert(alpha_lists@[k]@[chosen@.len() as int]@ == candidates@[c2]@);
                        } else {
                            assert(alpha_lists@[k]@[chosen@.len() as int]@ == cand@);
                            assert(alpha_lists@[k]@[chosen@.len() as int]@
                                == candidates@[c as int]@);
                        }
                    }
                    assert forall|k1: int, k2: int|
                        old(alpha_lists)@.len() <= k1 < k2 < alpha_lists@.len() implies
                        list_views((#[trigger] alpha_lists@[k1])@) != list_views(
                        (#[trigger] alpha_lists@[k2])@,
                    ) by {
                        if k2 < lists0.len() {
                            assert(alpha_lists@[k1] == lists0[k1]);
                            assert(alpha_lists@[k2] == lists0[k2]);
                        } else {
                            assert(alpha_lists@[k1] == lists0[k1]);
                            assert(alpha_lists@[k2]@ == next_vec@);
                            let c2 = choose|c2: int|
                                0 <= c2 < c && (#[trigger] lists0[k1])@[chosen@.len() as int]@
                                    == candidates@[c2]@;
                            assert(candidates@[c2]@ != candidates@[c as int]@);
                            if list_views(alpha_lists@[k1]@) == list_views(alpha_lists@[k2]@) {
                                assert(list_views(alpha_lists@[k1]@)[chosen@.len() as int]
                                    == list_views(alpha_lists@[k2]@)[chosen@.len() as int]);
                                assert(alpha_lists@[k1]@[chosen@.len() as int]@
                                    == alpha_lists@[k2]@[chosen@.len() as int]@);
                                assert(false);
                            }
                        }
                    }
                }
            } else {
                let within = match word_limit {
                    None => true,
                    Some(l) => next_vec.len() < l,
                };
                if within {
                    proof {
                        assert(words_letters(next_vec@).add(next_left@.to_multiset())
                            =~= w.to_multiset()) by {
                            assert(words_letters(chosen@).add(left@.to_multiset())
                                == w.to_multiset());
                            assert forall|y: Letter|
                                words_letters(chosen@).add(cand@.to_multiset()).add(
                                    next_left@.to_multiset(),
                                ).count(y) == w.to_multiset().count(y) by {
                                assert(cand@.to_multiset().count(y) <= left@.to_multiset().count(
                                    y,
                                ));
                            }
                        }
                    }
                    self.search(&next_left, &next_vec, Ghost(w), word_limit, alpha_lists);
                    proof {
                        assert forall|k: int|
                            old(alpha_lists)@.len() <= k < alpha_lists@.len() implies (
                        #[trigger] alpha_lists@[k])@.len() > chosen@.len() && (forall|j: int|
                            0 <= j < chosen@.len() ==> (#[trigger] alpha_lists@[k]@[j])@
                                == chosen@[j]@) by {
                            if k < lists0.len() {
                                assert(alpha_lists@[k] == lists0[k]);
                            } else {
                                assert(alpha_lists@[k]@.len() > next_vec@.len());
                                assert forall|j: int|
                                    0 <= j < chosen@.len() implies (alpha_lists@[k]@[j])@
                                    == chosen@[j]@ by {
                                    assert((alpha_lists@[k]@[j])@ == next_vec@[j]@);
                                    assert(next_vec@[j]@ == chosen@[j]@);
                                }
                            }
                        }
                        assert forall|k: int|
                            old(alpha_lists)@.len() <= k < alpha_lists@.len() implies exists|
                        c2: int|
                            0 <= c2 < c + 1 && (#[trigger] alpha_lists@[k])@[chosen@.len() as int]@
                                == candidates@[c2]@ by {
                            if k < lists0.len() {
                                assert(alpha_lists@[k] == lists0[k]);
                                let c2 = choose|c2: int|
                                    0 <= c2 < c && (#[trigger] lists0[k])@[chosen@.len() as int]@
                                        == candidates@[c2]@;
                                assert(alpha_lists@[k]@[chosen@.len() as int]@
                                    == candidates@[c2]@);
                            } else {
                                assert((alpha_lists@[k]@[chosen@.len() as int])@
                                    == next_vec@[chosen@.len() as int]@);
                                assert(next_vec@[chosen@.len() as int]@ == cand@);
                                assert(alpha_lists@[k]@[chosen@.len() as int]@
                                    == candidates@[c as int]@);
                            }
                        }
                        assert forall|k1: int, k2: int|
                            old(alpha_lists)@.len() <= k1 < k2 < alpha_lists@.len() implies
                            list_views((#[trigger] alpha_lists@[k1])@) != list_views(
                            (#[trigger] alpha_lists@[k2])@,
                        ) by {
                            if k2 < lists0.len() {
                                assert(alpha_lists@[k1] == lists0[k1]);
                                assert(alpha_lists@[k2] == lists0[k2]);
                            } else if k1 >= lists0.len() {
                            } else {
                                assert(alpha_lists@[k1] == lists0[k1]);
                                let c2 = choose|c2: int|
                                    0 <= c2 < c && (#[trigger] lists0[k1])@[chosen@.len() as int]@
                                        == candidates@[c2]@;
                                assert(candidates@[c2]@ != candidates@[c as int]@);
                                assert((alpha_lists@[k2]@[chosen@.len() as int])@
                                    == next_vec@[chosen@.len() as int]@);
                                assert(next_vec@[chosen@.len() as int]@ == cand@);
                                if list_views(alpha_lists@[k1]@) == list_views(
                                    alpha_lists@[k2]@,
                                ) {
                                    assert(list_views(alpha_lists@[k1]@)[chosen@.len() as int]
                                        == list_views(alpha_lists@[k2]@)[chosen@.len() as int]);
                                    assert(alpha_lists@[k1]@[chosen@.len() as int]@
                                        == alpha_lists@[k2]@[chosen@.len() as int]@);
                                    assert(false);
                                }
                            }
                        }
                    }
                }
            }
            proof {
                assert forall|ds: Seq<Seq<Letter>>|
                    #![trigger seqs_letters(ds)]
                    self.tail_owed(
                        ds,
                        Some(chosen@[chosen@.len() - 1]@),
                        left@,
                        chosen@.len() as int,
                        word_limit,
                    ) implies ((exists|k: int|
                        0 <= k < alpha_lists@.len() && list_views((#[trigger] alpha_lists@[k])@)
                            == list_views(chosen@) + ds) || (exists|c2: int|
                        c + 1 <= c2 < candidates@.len() && (#[trigger] candidates@[c2])@
                            == ds[0])) by {
                    if exists|k: int|
                        0 <= k < lists_head.len() && list_views((#[trigger] lists_head[k])@)
                            == list_views(chosen@) + ds {
                        let k = choose|k: int|
                            0 <= k < lists_head.len() && list_views((#[trigger] lists_head[k])@)
                                == list_views(chosen@) + ds;
                        assert(alpha_lists@[k] == lists_head[k]);
                    } else {
                        let c2 = choose|c2: int|
                            c <= c2 < candidates@.len() && (#[trigger] candidates@[c2])@ == ds[0];
                        if c2 == c {
                            lemma_seqs_letters_first(ds);
                            assert(cand@ == ds[0]);
                            assert(next_left@.to_multiset() =~= seqs_letters(ds.drop_first()))
                                by {
                                assert forall|y: Letter|
                                    next_left@.to_multiset().count(y) == seqs_letters(
                                        ds.drop_first(),
                                    ).count(y) by {
                                    assert(left@.to_multiset().count(y) == ds[0].to_multiset().count(
                                        y,
                                    ) + seqs_letters(ds.drop_first()).count(y));
                                    assert(cand@.to_multiset().count(y)
                                        <= left@.to_multiset().count(y));
                                }
                            }
                            if ds.len() == 1 {
                                assert(ds.drop_first() =~= Seq::<Seq<Letter>>::empty());
                                assert(next_left@.to_multiset().len() == 0);
                                assert(next_left@.len() == 0);
                                assert(alpha_lists@[lists0.len() as int]@ == next_vec@);
                                assert(list_views(next_vec@) =~= list_views(chosen@) + ds) by {
                                    assert(ds =~= seq![ds[0]]);
                                    assert forall|j: int|
                                        0 <= j < next_vec@.len() implies list_views(next_vec@)[j]
                                        == (list_views(chosen@) + ds)[j] by {
                                        if j < chosen@.len() {
                                            assert(next_vec@[j]@ == chosen@[j]@);
                                        } else {
                                            assert(next_vec@[j]@ == cand@);
                                        }
                                    }
                                }
                            } else {
                                assert(ds.drop_first().len() >= 1);
                                lemma_seqs_letters_first(ds.drop_first());
                                assert(ds.drop_first()[0] == ds[1]);
                                assert(next_left@.len() >= 1) by {
                                    assert(ds[1].to_multiset().count(ds[1][0]) > 0) by {
                                        assert(ds[1].contains(ds[1][0]));
                                    }
                                    assert(next_left@.to_multiset().count(ds[1][0]) >= ds[1].to_multiset().count(
                                        ds[1][0],
                                    ));
                                    assert(next_left@.to_multiset().count(ds[1][0]) > 0);
                                    assert(next_left@.contains(ds[1][0]));
                                }
                                if word_limit is Some {
                                    let l = word_limit.unwrap();
                                    assert(chosen@.len() as int + ds.len() <= limit_cap(l));
                                    assert(next_vec@.len() < l as int);
                                }
                                assert(self.tail_owed(
                                    ds.drop_first(),
                                    Some(next_vec@[next_vec@.len() - 1]@),
                                    next_left@,
                                    next_vec@.len() as int,
                                    word_limit,
                                )) by {
                                    assert(next_vec@[next_vec@.len() - 1]@ == cand@);
                                    assert(alpha_below(ds.drop_first()[0], ds[0]));
                                    assert forall|j: int|
                                        0 <= j < ds.drop_first().len() - 1 implies alpha_below(
                                        #[trigger] ds.drop_first()[j + 1],
                                        ds.drop_first()[j],
                                    ) by {
                                        assert(ds.drop_first()[j + 1] == ds[j + 2]);
                                        assert(ds.drop_first()[j] == ds[j + 1]);
                                        assert(alpha_below(ds[j + 1 + 1], ds[j + 1]));
                                    }
                                    assert forall|j: int|
                                        0 <= j < ds.drop_first().len() implies self.has_dict_alpha(
                                        #[trigger] ds.drop_first()[j],
                                    ) && ds.drop_first()[j].len() >= 1 by {
                                        assert(ds.drop_first()[j] == ds[j + 1]);
                                        assert(self.has_dict_alpha(ds[j + 1]));
                                    }
                                }
                                let k = choose|k: int|
                                    0 <= k < alpha_lists@.len() && list_views(
                                        (#[trigger] alpha_lists@[k])@,
                                    ) == list_views(next_vec@) + ds.drop_first();
                                assert(list_views(next_vec@) + ds.drop_first() =~= list_views(
                                    chosen@,
                                ) + ds) by {
                                    assert forall|j: int|
                                        0 <= j < chosen@.len() + ds.len() implies (list_views(
                                        next_vec@,
                                    ) + ds.drop_first())[j] == (list_views(chosen@) + ds)[j] by {
                                        if j < chosen@.len() {
                                            assert(next_vec@[j]@ == chosen@[j]@);
                                        } else if j == chosen@.len() {
                                            assert(next_vec@[j]@ == cand@);
                                        } else {
                                            assert((ds.drop_first())[j - chosen@.len() - 1]
                                                == ds[j - chosen@.len()]);
                                        }
                                    }
                                }
                            }
                        }
                    }
                }
            }
            c = c + 1;
        }
    }

    /// All decompositions of the query's letters into dictionary words: each
    /// returned identifier list is nonempty, stays within the word-count
    /// cap, and its words' letters together are exactly the query's; the
    /// one-word decompositions are exactly the exact anagrams.
    #[verifier::loop_isolation(false)]
    pub fn multigrams(&self, word: &Word, word_limit: Option<usize>) -> (r: Vec<Vec<Id>>)
        requires
            self.wf(),
        ensures
            forall|k: int|
                0 <= k < r@.len() ==> decomposition_ok(self.dict(), (#[trigger] r@[k])@, word@),
            forall|k: int|
                0 <= k < r@.len() && word_limit is Some ==> (#[trigger] r@[k])@.len() <= limit_cap(
                    word_limit.unwrap(),
                ),
            forall|k: int|
                0 <= k < r@.len() && (#[trigger] r@[k])@.len() == 1 ==> alpha_spec(
                    self.dict()[r@[k]@[0] as int],
                ) == alpha_spec(word@),
            forall|id: Id|
                (id < self.dict().len() && alpha_spec(self.dict()[id as int]) == alpha_spec(word@)
                    && word@.len() >= 1) ==> contains_ids(r@, seq![id]),
            word@.len() == 0 ==> r@.len() == 0,
            forall|s: Seq<Id>|
                #![trigger contains_ids(r@, s)]
                multigram_owed(self.dict(), s, word@, word_limit) ==> contains_ids(r@, s),
            forall|k1: int, k2: int|
                0 <= k1 < k2 < r@.len() ==> (#[trigger] r@[k1])@ != (#[trigger] r@[k2])@,
    {
        let alpha = alphatize(word);
        proof {
            crate::word::lemma_alpha_spec(word@);
        }
        let mut alpha_lists: Vec<Vec<Word>> = Vec::new();
        if alpha.letters.len() > 0 {
            let candidates = self.alphagrams_helper(word, None);
            proof {
                assert forall|ds: Seq<Seq<Letter>>|
                    #![trigger seqs_letters(ds)]
                    self.tail_owed(ds, None, alpha@, 0, word_limit) implies contains_view(
                    candidates@,
                    ds[0],
                ) by {
                    lemma_seqs_letters_first(ds);
                    assert(ds[0].to_multiset().subset_of(word@.to_multiset())) by {
                        assert forall|y: Letter|
                            ds[0].to_multiset().count(y) <= word@.to_multiset().count(y) by {
                            assert(alpha@.to_multiset().count(y) == ds[0].to_multiset().count(y)
                                + seqs_letters(ds.drop_first()).count(y));
                        }
                    }
                    assert(contains_view(candidates@, ds[0]));
                }
            }
            let mut c: usize = 0;
            while c < candidates.len()
                invariant
                    c <= candidates@.len(),
                    forall|k: int|
                        0 <= k < alpha_lists@.len() ==> self.list_ok(
                            (#[trigger] alpha_lists@[k])@,
                            word@,
                            word_limit,
                        ),
                    contains_view(candidates@, alpha@) ==> (has_singleton(alpha_lists@, alpha@)
                        || exists|c2: int|
                        c <= c2 < candidates@.len() && (#[trigger] candidates@[c2])@ == alpha@),
                    forall|ds: Seq<Seq<Letter>>|
                        #![trigger seqs_letters(ds)]
                        self.tail_owed(ds, None, alpha@, 0, word_limit) ==> ((exists|k: int|
                            0 <= k < alpha_lists@.len() && list_views(
                                (#[trigger] alpha_lists@[k])@,
                            ) == ds) || (exists|c2: int|
                            c <= c2 < candidates@.len() && (#[trigger] candidates@[c2])@
                                == ds[0])),
                    forall|k: int|
                        0 <= k < alpha_lists@.len() ==> exists|c2: int|
                            0 <= c2 < c && (#[trigger] alpha_lists@[k])@[0]@ == candidates@[c2]@,
                    forall|k1: int, k2: int|
                        0 <= k1 < k2 < alpha_lists@.len() ==> list_views(
                            (#[trigger] alpha_lists@[k1])@,
                        ) != list_views((#[trigger] alpha_lists@[k2])@),
                decreases candidates@.len() - c,
            {
                let cand = &candidates[c];
                let next_left = alpha_subtract(&alpha, cand);
                let ghost lists0 = alpha_lists@;
                if next_left.letters.len() == 0 {
                    let mut lst: Vec<Word> = Vec::new();
                    lst.push(word_clone(cand));
                    proof {
                        assert(cand@.to_multiset() =~= alpha@.to_multiset()) by {
                            assert forall|y: Letter|
                                cand@.to_multiset().count(y) == alpha@.to_multiset().count(
                                    y,
                                ) by {
                                assert(next_left@.to_multiset().count(y) == 0) by {
                                    if next_left@.to_multiset().count(y) > 0 {
                                        assert(next_left@.contains(y));
                                    }
                                }
                                assert(cand@.to_multiset().count(y) <= alpha@.to_multiset().count(
                                    y,
                                ));
                            }
                        }
                        assert(words_letters(lst@) =~= cand@.to_multiset()) by {
                            assert(lst@.drop_last() =~= Seq::<Word>::empty());
                            assert(words_letters(lst@) == words_letters(lst@.drop_last()).add(
                                lst@.last()@.to_multiset(),
                            ));
                            assert(lst@.last()@ == cand@);
                        }
                        assert(self.list_ok(lst@, word@, word_limit));
                    }
                    alpha_lists.push(lst);
                    proof {
                        assert forall|k: int|
                            0 <= k < alpha_lists@.len() implies self.list_ok(
                            (#[trigger] alpha_lists@[k])@,
                            word@,
                            word_limit,
                        ) by {
                            if k < lists0.len() {
                                assert(alpha_lists@[k] == lists0[k]);
                            }
                        }
                        assert forall|k: int|
                            0 <= k < alpha_lists@.len() implies exists|c2: int|
                            0 <= c2 < c + 1 && (#[trigger] alpha_lists@[k])@[0]@
                                == candidates@[c2]@ by {
                            if k < lists0.len() {
                                assert(alpha_lists@[k] == lists0[k]);
                                let c2 = choose|c2: int|
                                    0 <= c2 < c && (#[trigger] lists0[k])@[0]@
                                        == candidates@[c2]@;
                                assert(alpha_lists@[k]@[0]@ == candidates@[c2]@);
                            } else {
                                assert(alpha_lists@[k]@[0]@ == cand@);
                                assert(alpha_lists@[k]@[0]@ == candidates@[c as int]@);
                            }
                        }
                        assert forall|k1: int, k2: int|
                            0 <= k1 < k2 < alpha_lists@.len() implies list_views(
                            (#[trigger] alpha_lists@[k1])@,
                        ) != list_views((#[trigger] alpha_lists@[k2])@) by {
                            if k2 < lists0.len() {
                                assert(alpha_lists@[k1] == lists0[k1]);
                                assert(alpha_lists@[k2] == lists0[k2]);
                            } else {
                                assert(alpha_lists@[k1] == lists0[k1]);
                                assert(alpha_lists@[k2]@ == lst@);
                                let c2 = choose|c2: int|
                                    0 <= c2 < c && (#[trigger] lists0[k1])@[0]@
                                        == candidates@[c2]@;
                                assert(candidates@[c2]@ != candidates@[c as int]@);
                                if list_views(alpha_lists@[k1]@) == list_views(
                                    alpha_lists@[k2]@,
                                ) {
                                    assert(list_views(alpha_lists@[k1]@)[0] == list_views(
                                        alpha_lists@[k2]@,
                                    )[0]);
                                    assert(alpha_lists@[k1]@[0]@ == alpha_lists@[k2]@[0]@);
                                    assert(false);
                                }
                            }
                        }
                        if cand@ == alpha@ {
                            assert(alpha_lists@[lists0.len() as int]@.len() == 1);
                            assert(has_singleton(alpha_lists@, alpha@));
                        }
                        if has_singleton(lists0, alpha@) {
                            let kk = choose|kk: int|
                                0 <= kk < lists0.len() && (#[trigger] lists0[kk])@.len() == 1
                                    && lists0[kk]@[0]@ == alpha@;
                            assert(alpha_lists@[kk] == lists0[kk]);
                        }
                        assert forall|ds: Seq<Seq<Letter>>|
                            #![trigger seqs_letters(ds)]
                            self.tail_owed(ds, None, alpha@, 0, word_limit) implies ((exists|
                            k: int|
                            0 <= k < alpha_lists@.len() && list_views(
                                (#[trigger] alpha_lists@[k])@,
                            ) == ds) || (exists|c2: int|
                            c + 1 <= c2 < candidates@.len() && (#[trigger] candidates@[c2])@
                                == ds[0])) by {
                            if exists|k: int|
                                0 <= k < lists0.len() && list_views((#[trigger] lists0[k])@)
                                    == ds {
                                let k = choose|k: int|
                                    0 <= k < lists0.len() && list_views((#[trigger] lists0[k])@)
                                        == ds;
                                assert(alpha_lists@[k] == lists0[k]);
                            } else {
                                let c2 = choose|c2: int|
                                    c <= c2 < candidates@.len() && (#[trigger] candidates@[c2])@
                                        == ds[0];
                                if c2 == c {
                                    lemma_seqs_letters_first(ds);
                                    assert(seqs_letters(ds.drop_first())
                                        =~= Multiset::<Letter>::empty()) by {
                                        assert forall|y: Letter|
                                            seqs_letters(ds.drop_first()).count(y) == 0 by {
                                            assert(alpha@.to_multiset().count(y)
                                                == ds[0].to_multiset().count(y) + seqs_letters(
                                                ds.drop_first(),
                                            ).count(y));
                                        }
                                    }
                                    if ds.len() >= 2 {
                                        lemma_seqs_letters_first(ds.drop_first());
                                        assert(ds.drop_first()[0] == ds[1]);
                                        assert(ds[1].contains(ds[1][0]));
                                        assert(ds[1].to_multiset().count(ds[1][0]) > 0);
                                        assert(seqs_letters(ds.drop_first()).count(ds[1][0])
                                            > 0);
                                        assert(false);
                                    }
                                    assert(ds =~= seq![ds[0]]);
                                    assert(alpha_lists@[lists0.len() as int]@ == lst@);
                                    assert(list_views(lst@) =~= ds) by {
                                        assert(lst@[0]@ == cand@);
                                    }
                                }
                            }
                        }
                    }
                } else {
                    let within = match word_limit {
                        None => true,
                        Some(l) => 1 < l,
                    };
                    if within {
                        let mut lst: Vec<Word> = Vec::new();
                        lst.push(word_clone(cand));
                        proof {
                            assert(words_letters(lst@) =~= cand@.to_multiset()) by {
                                assert(lst@.drop_last() =~= Seq::<Word>::empty());
                                assert(words_letters(lst@) == words_letters(
                                    lst@.drop_last(),
                                ).add(lst@.last()@.to_multiset()));
                                assert(lst@.last()@ == cand@);
                            }
                            assert(words_letters(lst@).add(next_left@.to_multiset())
                                =~= word@.to_multiset()) by {
                                assert forall|y: Letter|
                                    cand@.to_multiset().add(next_left@.to_multiset()).count(y)
                                        == word@.to_multiset().count(y) by {
                                    assert(cand@.to_multiset().count(y)
                                        <= alpha@.to_multiset().count(y));
                                }
                            }
                        }
                        self.search(&next_left, &lst, Ghost(word@), word_limit, &mut alpha_lists);
                        proof {
                            assert forall|k: int|
                                0 <= k < alpha_lists@.len() implies exists|c2: int|
                                0 <= c2 < c + 1 && (#[trigger] alpha_lists@[k])@[0]@
                                    == candidates@[c2]@ by {
                                if k < lists0.len() {
                                    assert(alpha_lists@[k] == lists0[k]);
                                    let c2 = choose|c2: int|
                                        0 <= c2 < c && (#[trigger] lists0[k])@[0]@
                                            == candidates@[c2]@;
                                    assert(alpha_lists@[k]@[0]@ == candidates@[c2]@);
                                } else {
                                    assert((alpha_lists@[k]@[0])@ == lst@[0]@);
                                    assert(alpha_lists@[k]@[0]@ == candidates@[c as int]@);
                                }
                            }
                            assert forall|k1: int, k2: int|
                                0 <= k1 < k2 < alpha_lists@.len() implies list_views(
                                (#[trigger] alpha_lists@[k1])@,
                            ) != list_views((#[trigger] alpha_lists@[k2])@) by {
                                if k2 < lists0.len() {
                                    assert(alpha_lists@[k1] == lists0[k1]);
                                    assert(alpha_lists@[k2] == lists0[k2]);
                                } else if k1 >= lists0.len() {
                                } else {
                                    assert(alpha_lists@[k1] == lists0[k1]);
                                    let c2 = choose|c2: int|
                                        0 <= c2 < c && (#[trigger] lists0[k1])@[0]@
                                            == candidates@[c2]@;
                                    assert(candidates@[c2]@ != candidates@[c as int]@);
                                    assert((alpha_lists@[k2]@[0])@ == lst@[0]@);
                                    assert(alpha_lists@[k2]@[0]@ == candidates@[c as int]@);
                                    if list_views(alpha_lists@[k1]@) == list_views(
                                        alpha_lists@[k2]@,
                                    ) {
                                        assert(list_views(alpha_lists@[k1]@)[0] == list_views(
                                            alpha_lists@[k2]@,
                                        )[0]);
                                        assert(alpha_lists@[k1]@[0]@ == alpha_lists@[k2]@[0]@);
                                        assert(false);
                                    }
                                }
                            }
                            if has_singleton(lists0, alpha@) {
                                let kk = choose|kk: int|
                                    0 <= kk < lists0.len() && (#[trigger] lists0[kk])@.len() == 1
                                        && lists0[kk]@[0]@ == alpha@;
                                assert(alpha_lists@[kk] == lists0[kk]);
                            }
                            assert forall|ds: Seq<Seq<Letter>>|
                                #![trigger seqs_letters(ds)]
                                self.tail_owed(ds, None, alpha@, 0, word_limit) implies ((exists|
                            k: int|
                                0 <= k < alpha_lists@.len() && list_views(
                                    (#[trigger] alpha_lists@[k])@,
                                ) == ds) || (exists|c2: int|
                                c + 1 <= c2 < candidates@.len() && (#[trigger] candidates@[c2])@
                                    == ds[0])) by {
                                if exists|k: int|
                                    0 <= k < lists0.len() && list_views((#[trigger] lists0[k])@)
                                        == ds {
                                    let k = choose|k: int|
                                        0 <= k < lists0.len() && list_views(
                                            (#[trigger] lists0[k])@,
                                        ) == ds;
                                    assert(alpha_lists@[k] == lists0[k]);
                                } else {
                                    let c2 = choose|c2: int|
                                        c <= c2 < candidates@.len() && (
                                        #[trigger] candidates@[c2])@ == ds[0];
                                    if c2 == c {
                                        lemma_seqs_letters_first(ds);
                                        assert(next_left@.to_multiset() =~= seqs_letters(
                                            ds.drop_first(),
                                        )) by {
                                            assert forall|y: Letter|
                                                next_left@.to_multiset().count(y) == seqs_letters(
                                                    ds.drop_first(),
                                                ).count(y) by {
                                                assert(alpha@.to_multiset().count(y)
                                                    == ds[0].to_multiset().count(y)
                                                    + seqs_letters(ds.drop_first()).count(y));
                                                assert(cand@.to_multiset().count(y)
                                                    <= alpha@.to_multiset().count(y));
                                            }
                                        }
                                        if ds.len() == 1 {
                                            assert(ds.drop_first()
                                                =~= Seq::<Seq<Letter>>::empty());
                                            assert(next_left@.to_multiset().len() == 0);
                                            assert(next_left@.len() == 0);
                                            assert(false);
                                        } else {
                                            assert(ds.drop_first().len() >= 1);
                                            assert(self.tail_owed(
                                                ds.drop_first(),
                                                Some(lst@[lst@.len() - 1]@),
                                                next_left@,
                                                lst@.len() as int,
                                                word_limit,
                                            )) by {
                                                assert(lst@[lst@.len() - 1]@ == cand@);
                                                let j0: int = 0;
                                                assert(alpha_below(ds[j0 + 1], ds[j0]));
                                                assert(ds.drop_first()[0] == ds[1]);
                                                assert forall|j: int|
                                                    0 <= j < ds.drop_first().len() - 1 implies
                                                    alpha_below(
                                                    #[trigger] ds.drop_first()[j + 1],
                                                    ds.drop_first()[j],
                                                ) by {
                                                    assert(ds.drop_first()[j + 1] == ds[j + 2]);
                                                    assert(ds.drop_first()[j] == ds[j + 1]);
                                                    assert(alpha_below(ds[j + 1 + 1], ds[j + 1]));
                                                }
                                                assert forall|j: int|
                                                    0 <= j < ds.drop_first().len() implies
                                                    self.has_dict_alpha(
                                                    #[trigger] ds.drop_first()[j],
                                                ) && ds.drop_first()[j].len() >= 1 by {
                                                    assert(ds.drop_first()[j] == ds[j + 1]);
                                                    assert(self.has_dict_alpha(ds[j + 1]));
                                                }
                                            }
                                            let k = choose|k: int|
                                                0 <= k < alpha_lists@.len() && list_views(
                                                    (#[trigger] alpha_lists@[k])@,
                                                ) == list_views(lst@) + ds.drop_first();
                                            assert(list_views(lst@) + ds.drop_first() =~= ds) by {
                                                assert(lst@[0]@ == cand@);
                                                assert forall|j: int|
                                                    0 <= j < ds.len() implies (list_views(lst@)
                                                    + ds.drop_first())[j] == ds[j] by {
                                                    if j == 0 {
                                                    } else {
                                                        assert((ds.drop_first())[j - 1] == ds[j]);
                                                    }
                                                }
                                            }
                                        }
                                    }
                                }
                            }
                        }
                    } else {
                        proof {
                            assert forall|ds: Seq<Seq<Letter>>|
                                #![trigger seqs_letters(ds)]
                                self.tail_owed(ds, None, alpha@, 0, word_limit) implies ((exists|
                            k: int|
                                0 <= k < alpha_lists@.len() && list_views(
                                    (#[trigger] alpha_lists@[k])@,
                                ) == ds) || (exists|c2: int|
                                c + 1 <= c2 < candidates@.len() && (#[trigger] candidates@[c2])@
                                    == ds[0])) by {
                                if exists|k: int|
                                    0 <= k < lists0.len() && list_views((#[trigger] lists0[k])@)
                                        == ds {
                                    let k = choose|k: int|
                                        0 <= k < lists0.len() && list_views(
                                            (#[trigger] lists0[k])@,
                                        ) == ds;
                                    assert(alpha_lists@[k] == lists0[k]);
                                } else {
                                    let c2 = choose|c2: int|
                                        c <= c2 < candidates@.len() && (
                                        #[trigger] candidates@[c2])@ == ds[0];
                                    if c2 == c {
                                        lemma_seqs_letters_first(ds);
                                        assert(ds.len() <= 1);
                                        assert(next_left@.to_multiset() =~= seqs_letters(
                                            ds.drop_first(),
                                        )) by {
                                            assert forall|y: Letter|
                                                next_left@.to_multiset().count(y) == seqs_letters(
                                                    ds.drop_first(),
                                                ).count(y) by {
                                                assert(alpha@.to_multiset().count(y)
                                                    == ds[0].to_multiset().count(y)
                                                    + seqs_letters(ds.drop_first()).count(y));
                                                assert(cand@.to_multiset().count(y)
                                                    <= alpha@.to_multiset().count(y));
                                            }
                                        }
                                        assert(ds.drop_first() =~= Seq::<Seq<Letter>>::empty());
                                        assert(next_left@.to_multiset().len() == 0);
                                        assert(next_left@.len() == 0);
                                        assert(false);
                                    }
                                }
                            }
                        }
                    }
                    proof {
                        if cand@ == alpha@ {
                            assert(next_left@.len() == 0);
                            assert(false);
                        }
                    }
                }
                c = c + 1;
            }
            proof {
                if self.has_dict_alpha(alpha@) {
                    assert(alpha@.to_multiset().subset_of(word@.to_multiset())) by {
                        assert(alpha@.to_multiset() == word@.to_multiset());
                    }
                    assert(contains_view(candidates@, alpha@));
                    assert(has_singleton(alpha_lists@, alpha@));
                }
            }
        }
        let mut finals: Vec<Vec<Id>> = Vec::new();
        proof {
            assert(alpha@.len() == word@.len()) by {
                assert(alpha@.to_multiset().len() == word@.to_multiset().len());
            }
            if self.has_dict_alpha(alpha@) && alpha@.len() >= 1 {
                assert(word@.len() >= 1) by {
                    assert(alpha@.to_multiset().len() == word@.to_multiset().len());
                }
                assert(has_singleton(alpha_lists@, alpha@));
            }
            assert forall|ds: Seq<Seq<Letter>>|
                #![trigger seqs_letters(ds)]
                self.tail_owed(ds, None, alpha@, 0, word_limit) implies (exists|k: int|
                0 <= k < alpha_lists@.len() && list_views((#[trigger] alpha_lists@[k])@)
                    == ds) by {
                if alpha@.len() == 0 {
                    lemma_seqs_letters_first(ds);
                    assert(ds[0].contains(ds[0][0]));
                    assert(ds[0].to_multiset().count(ds[0][0]) > 0);
                    assert(alpha@.to_multiset().count(ds[0][0]) > 0);
                    assert(alpha@.contains(ds[0][0]));
                    assert(false);
                }
            }
            assert forall|s: Seq<Id>|
                #![trigger contains_ids(finals@, s)]
                multigram_owed(self.dict(), s, word@, word_limit) implies (contains_ids(
                finals@,
                s,
            ) || (exists|l2: int|
                0 <= l2 < alpha_lists@.len() && list_views((#[trigger] alpha_lists@[l2])@)
                    == alphas_of(self.dict(), s))) by {
                let ds = alphas_of(self.dict(), s);
                lemma_ids_letters_alphas(self.dict(), s);
                assert(self.tail_owed(ds, None, alpha@, 0, word_limit)) by {
                    assert forall|j: int|
                        0 <= j < ds.len() implies self.has_dict_alpha(#[trigger] ds[j])
                        && ds[j].len() >= 1 by {
                        assert(ds[j] == alpha_spec(self.dict()[s[j] as int]));
                        assert(s[j] < self.dict().len());
                        assert(self.has_dict_alpha(ds[j]));
                        crate::word::lemma_alpha_spec(self.dict()[s[j] as int]);
                        assert(ds[j].to_multiset().len() == self.dict()[s[j] as int].to_multiset().len());
                        assert(self.dict()[s[j] as int].len() >= 1);
                    }
                    assert forall|j: int|
                        0 <= j < ds.len() - 1 implies alpha_below(#[trigger] ds[j + 1], ds[j]) by {
                        assert(ds[j + 1] == alpha_spec(self.dict()[s[j + 1] as int]));
                        assert(ds[j] == alpha_spec(self.dict()[s[j] as int]));
                    }
                    assert(seqs_letters(ds) == word@.to_multiset());
                    assert(alpha@.to_multiset() == word@.to_multiset());
                }
                let k = choose|k: int|
                    0 <= k < alpha_lists@.len() && list_views((#[trigger] alpha_lists@[k])@)
                        == ds;
            }
        }
        let mut li: usize = 0;
        while li < alpha_lists.len()
            invariant
                li <= alpha_lists@.len(),
                word@.len() == 0 ==> alpha_lists@.len() == 0 && finals@.len() == 0,
                forall|k: int|
                    0 <= k < finals@.len() ==> decomposition_ok(
                        self.dict(),
                        (#[trigger] finals@[k])@,
                        word@,
                    ),
                forall|k: int|
                    0 <= k < finals@.len() && word_limit is Some ==> (#[trigger] finals@[k])@.len()
                        <= limit_cap(word_limit.unwrap()),
                (self.has_dict_alpha(alpha@) && alpha@.len() >= 1) ==> ((exists|k2: int|
                    li <= k2 < alpha_lists@.len() && (#[trigger] alpha_lists@[k2])@.len() == 1
                        && alpha_lists@[k2]@[0]@ == alpha@) || (forall|id: Id|
                    (id < self.dict().len() && alpha_spec(self.dict()[id as int]) == alpha@)
                        ==> contains_ids(finals@, seq![id]))),
                forall|s: Seq<Id>|
                    #![trigger contains_ids(finals@, s)]
                    multigram_owed(self.dict(), s, word@, word_limit) ==> (contains_ids(
                        finals@,
                        s,
                    ) || (exists|l2: int|
                        li <= l2 < alpha_lists@.len() && list_views(
                            (#[trigger] alpha_lists@[l2])@,
                        ) == alphas_of(self.dict(), s))),
                forall|k1: int, k2: int|
                    0 <= k1 < k2 < finals@.len() ==> (#[trigger] finals@[k1])@ != (
                    #[trigger] finals@[k2])@,
                forall|k: int|
                    0 <= k < finals@.len() ==> exists|l2: int|
                        0 <= l2 < li && alphas_of(self.dict(), (#[trigger] finals@[k])@)
                            == list_views(alpha_lists@[l2]@),
            decreases alpha_lists@.len() - li,
        {
            let ghost lst = alpha_lists@[li as int]@;
            let products = self.expand(&alpha_lists[li], 0);
            let ghost finals0 = finals@;
            let mut m: usize = 0;
            while m < products.len()
                invariant
                    m <= products@.len(),
                    finals@.len() == finals0.len() + m,
                    forall|k: int| 0 <= k < finals0.len() ==> finals@[k] == finals0[k],
                    forall|k: int|
                        finals0.len() <= k < finals@.len() ==> (#[trigger] finals@[k])@
                            == products@[k - finals0.len()]@,
                decreases products@.len() - m,
            {
                finals.push(copy_ids(&products[m]));
                m = m + 1;
            }
            proof {
                assert forall|k: int|
                    0 <= k < finals@.len() implies decomposition_ok(
                    self.dict(),
                    (#[trigger] finals@[k])@,
                    word@,
                ) && (word_limit is Some ==> finals@[k]@.len() <= limit_cap(
                    word_limit.unwrap(),
                )) by {
                    if k >= finals0.len() {
                        let p = finals@[k]@;
                        let pk = k - finals0.len();
                        assert(p == products@[pk]@);
                        assert(p.len() == lst.len());
                        assert(self.list_ok(lst, word@, word_limit));
                        assert forall|j: int|
                            0 <= j < p.len() implies (#[trigger] p[j]) < self.dict().len()
                            && alpha_spec(self.dict()[p[j] as int]) == lst[j]@ by {
                            assert(products@[pk]@[j] < self.dict().len() && alpha_spec(
                                self.dict()[products@[pk]@[j] as int],
                            ) == lst[0 + j]@);
                        }
                        lemma_ids_letters_match(self.dict(), p, lst);
                        assert(words_letters(lst) == word@.to_multiset());
                    } else {
                        assert(finals@[k] == finals0[k]);
                        assert(decomposition_ok(self.dict(), finals0[k]@, word@));
                        if word_limit is Some {
                            assert(finals0[k]@.len() <= limit_cap(word_limit.unwrap()));
                        }
                    }
                }
                assert forall|k: int|
                    0 <= k < finals@.len() implies exists|l2: int|
                    0 <= l2 < li + 1 && alphas_of(self.dict(), (#[trigger] finals@[k])@)
                        == list_views(alpha_lists@[l2]@) by {
                    if k < finals0.len() {
                        assert(finals@[k] == finals0[k]);
                        let l2 = choose|l2: int|
                            0 <= l2 < li && alphas_of(self.dict(), (#[trigger] finals0[k])@)
                                == list_views(alpha_lists@[l2]@);
                        assert(alphas_of(self.dict(), finals@[k]@) == list_views(
                            alpha_lists@[l2]@,
                        ));
                    } else {
                        let p = finals@[k]@;
                        let pk = k - finals0.len();
                        assert(p == products@[pk]@);
                        assert(alphas_of(self.dict(), p) =~= list_views(lst)) by {
                            assert(p.len() == lst.len());
                            assert forall|j: int|
                                0 <= j < p.len() implies alphas_of(self.dict(), p)[j]
                                == list_views(lst)[j] by {
                                assert(products@[pk]@[j] < self.dict().len() && alpha_spec(
                                    self.dict()[products@[pk]@[j] as int],
                                ) == lst[0 + j]@);
                            }
                        }
                        assert(alphas_of(self.dict(), finals@[k]@) == list_views(
                            alpha_lists@[li as int]@,
                        ));
                    }
                }
                assert forall|k1: int, k2: int|
                    0 <= k1 < k2 < finals@.len() implies (#[trigger] finals@[k1])@ != (
                #[trigger] finals@[k2])@ by {
                    if k2 < finals0.len() {
                        assert(finals@[k1] == finals0[k1]);
                        assert(finals@[k2] == finals0[k2]);
                    } else if k1 >= finals0.len() {
                        assert(finals@[k1]@ == products@[k1 - finals0.len()]@);
                        assert(finals@[k2]@ == products@[k2 - finals0.len()]@);
                        assert(products@[k1 - finals0.len()]@ != products@[k2 - finals0.len()]@);
                    } else {
                        assert(finals@[k1] == finals0[k1]);
                        let l2 = choose|l2: int|
                            0 <= l2 < li && alphas_of(self.dict(), (#[trigger] finals0[k1])@)
                                == list_views(alpha_lists@[l2]@);
                        assert(alphas_of(self.dict(), finals@[k2]@) == list_views(
                            alpha_lists@[li as int]@,
                        ));
                        assert(list_views(alpha_lists@[l2]@) != list_views(
                            alpha_lists@[li as int]@,
                        ));
                        if finals@[k1]@ == finals@[k2]@ {
                            assert(alphas_of(self.dict(), finals@[k1]@) == alphas_of(
                                self.dict(),
                                finals@[k2]@,
                            ));
                            assert(false);
                        }
                    }
                }
                if self.has_dict_alpha(alpha@) && alpha@.len() >= 1 {
                    if lst.len() == 1 && lst[0]@ == alpha@ {
                        assert forall|id: Id|
                            (id < self.dict().len() && alpha_spec(self.dict()[id as int])
                                == alpha@) implies contains_ids(finals@, seq![id]) by {
                            assert(contains_ids(products@, seq![id]));
                            let pk = choose|pk: int|
                                0 <= pk < products@.len() && (#[trigger] products@[pk])@
                                    == seq![id];
                            assert(finals@[finals0.len() + pk]@ == seq![id]);
                        }
                    } else {
                        if exists|k2: int|
                            li < k2 < alpha_lists@.len() && (#[trigger] alpha_lists@[k2])@.len()
                                == 1 && alpha_lists@[k2]@[0]@ == alpha@ {
                        } else {
                            assert forall|id: Id|
                                (id < self.dict().len() && alpha_spec(self.dict()[id as int])
                                    == alpha@) implies contains_ids(finals@, seq![id]) by {
                                assert(contains_ids(finals0, seq![id]));
                                let kk = choose|kk: int|
                                    0 <= kk < finals0.len() && (#[trigger] finals0[kk])@
                                        == seq![id];
                                assert(finals@[kk]@ == seq![id]);
                            }
                        }
                    }
                }
                assert forall|s: Seq<Id>|
                    #![trigger contains_ids(finals@, s)]
                    multigram_owed(self.dict(), s, word@, word_limit) implies (contains_ids(
                    finals@,
                    s,
                ) || (exists|l2: int|
                    li + 1 <= l2 < alpha_lists@.len() && list_views(
                        (#[trigger] alpha_lists@[l2])@,
                    ) == alphas_of(self.dict(), s))) by {
                    if contains_ids(finals0, s) {
                        let kk = choose|kk: int|
                            0 <= kk < finals0.len() && (#[trigger] finals0[kk])@ == s;
                        assert(finals@[kk]@ == s);
                        assert(contains_ids(finals@, s));
                    } else {
                        let l2 = choose|l2: int|
                            li <= l2 < alpha_lists@.len() && list_views(
                                (#[trigger] alpha_lists@[l2])@,
                            ) == alphas_of(self.dict(), s);
                        if l2 == li as int {
                            assert(s.len() == lst.len()) by {
                                assert(list_views(lst).len() == alphas_of(self.dict(), s).len());
                            }
                            assert forall|j: int|
                                0 <= j < s.len() implies (#[trigger] s[j]) < self.dict().len()
                                && alpha_spec(self.dict()[s[j] as int])
                                == alpha_lists@[li as int]@[0 + j]@ by {
                                assert(alphas_of(self.dict(), s)[j] == alpha_spec(
                                    self.dict()[s[j] as int],
                                ));
                                assert(list_views(lst)[j] == lst[j]@);
                            }
                            assert(contains_ids(products@, s));
                            let pk = choose|pk: int|
                                0 <= pk < products@.len() && (#[trigger] products@[pk])@ == s;
                            assert(finals@[finals0.len() + pk]@ == s);
                            assert(contains_ids(finals@, s));
                        }
                    }
                }
            }
            li = li + 1;
        }
        proof {
            assert forall|k: int|
                0 <= k < finals@.len() && (#[trigger] finals@[k])@.len() == 1 implies alpha_spec(
                self.dict()[finals@[k]@[0] as int],
            ) == alpha_spec(word@) by {
                let s = finals@[k]@;
                assert(decomposition_ok(self.dict(), s, word@));
                assert(s.drop_last() =~= Seq::<Id>::empty());
                assert(ids_letters(self.dict(), Seq::<Id>::empty()) == Multiset::<Letter>::empty());
                assert(ids_letters(self.dict(), s) == Multiset::<Letter>::empty().add(
                    self.dict()[s.last() as int].to_multiset(),
                ));
                assert(self.dict()[s[0] as int].to_multiset() =~= word@.to_multiset()) by {
                    assert(s.last() == s[0]);
                    assert forall|y: Letter|
                        Multiset::<Letter>::empty().add(
                            self.dict()[s[0] as int].to_multiset(),
                        ).count(y) == self.dict()[s[0] as int].to_multiset().count(y) by {}
                }
                crate::word::lemma_alpha_spec(self.dict()[s[0] as int]);
                lemma_sorted_is_alpha(alpha_spec(self.dict()[s[0] as int]), word@);
            }
            assert forall|id: Id|
                (id < self.dict().len() && alpha_spec(self.dict()[id as int]) == alpha_spec(word@)
                    && word@.len() >= 1) implies contains_ids(finals@, seq![id]) by {
                assert(self.has_dict_alpha(alpha@));
                assert(alpha@.len() >= 1) by {
                    assert(alpha@.to_multiset().len() == word@.to_multiset().len());
                }
            }
            assert forall|s: Seq<Id>|
                #![trigger contains_ids(finals@, s)]
                multigram_owed(self.dict(), s, word@, word_limit) implies contains_ids(
                finals@,
                s,
            ) by {}
        }
        finals
    }
}

/// A word limit of zero owes and caps exactly what a limit of one does:
/// both restrict the search to the single-word full anagrams.
pub proof fn lemma_limit_zero_equals_one(dict: Seq<Seq<Letter>>, s: Seq<Id>, w: Seq<Letter>)
    ensures
        limit_cap(0) == limit_cap(1),
        multigram_owed(dict, s, w, Some(0)) == multigram_owed(dict, s, w, Some(1)),
{
}

/// Engines built from the same dictionary hold identical
/// alphagram-to-identifier mappings and identical trie contents.
pub proof fn lemma_rebuild_identical(e1: AnagramR, e2: AnagramR)
    requires
        e1.wf(),
        e2.wf(),
        e1.dict() == e2.dict(),
    ensures
        forall|a: Seq<Letter>| #![trigger e1.index_has(a)] e1.index_has(a) == e2.index_has(a),
        forall|a: Seq<Letter>|
            #![trigger e1.index_ids(a)]
            e1.index_has(a) ==> e1.index_ids(a) == e2.index_ids(a),
        forall|a: Seq<Letter>|
            #![trigger e1.trie_contains(a)]
            e1.trie_contains(a) == e2.trie_contains(a),
{
    assert forall|a: Seq<Letter>| #![trigger e1.index_has(a)] e1.index_has(a)
        == e2.index_has(a) by {
        lemma_index_has_alpha(e1, a);
        lemma_index_has_alpha(e2, a);
        assert(e1.has_dict_alpha(a) == e2.has_dict_alpha(a)) by {
            if e1.has_dict_alpha(a) {
                let i = choose|i: int|
                    0 <= i < e1.dict().len() && alpha_spec(#[trigger] e1.dict()[i]) == a;
                assert(alpha_spec(e2.dict()[i]) == a);
            }
            if e2.has_dict_alpha(a) {
                let i = choose|i: int|
                    0 <= i < e2.dict().len() && alpha_spec(#[trigger] e2.dict()[i]) == a;
                assert(alpha_spec(e1.dict()[i]) == a);
            }
        }
    }
    assert forall|a: Seq<Letter>|
        #![trigger e1.index_ids(a)]
        e1.index_has(a) implies e1.index_ids(a) == e2.index_ids(a) by {
        lemma_index_has_alpha(e1, a);
        lemma_index_has_alpha(e2, a);
        assert(e1.has_dict_alpha(a) == e2.has_dict_alpha(a)) by {
            let i = choose|i: int|
                0 <= i < e1.dict().len() && alpha_spec(#[trigger] e1.dict()[i]) == a;
            assert(alpha_spec(e2.dict()[i]) == a);
        }
        lemma_index_ids_pinned(e1, a);
        lemma_index_ids_pinned(e2, a);
    }
    assert forall|a: Seq<Letter>|
        #![trigger e1.trie_contains(a)]
        e1.trie_contains(a) == e2.trie_contains(a) by {
        if e1.has_dict_alpha(a) {
            let i = choose|i: int|
                0 <= i < e1.dict().len() && alpha_spec(#[trigger] e1.dict()[i]) == a;
            assert(alpha_spec(e2.dict()[i]) == a);
        }
        if e2.has_dict_alpha(a) {
            let i = choose|i: int|
                0 <= i < e2.dict().len() && alpha_spec(#[trigger] e2.dict()[i]) == a;
            assert(alpha_spec(e1.dict()[i]) == a);
        }
    }
}

/// With a word limit of one, the multigram results are exactly the
/// one-element lists of the exact anagram identifiers: every returned list
/// holds one exact anagram of the query, and every exact anagram appears.
pub proof fn lemma_limit_one_matches_exact(
    e: AnagramR,
    w: Seq<Letter>,
    exact: Seq<Id>,
    multi: Seq<Vec<Id>>,
)
    requires
        e.wf(),
        w.len() >= 1,
        forall|id: Id| #[trigger]
            exact.contains(id) <==> id < e.dict().len() && alpha_spec(e.dict()[id as int])
                == alpha_spec(w),
        forall|k: int| 0 <= k < multi.len() ==> decomposition_ok(e.dict(), (#[trigger] multi[k])@, w),
        forall|k: int| 0 <= k < multi.len() ==> (#[trigger] multi[k])@.len() <= 1,
        forall|k: int|
            0 <= k < multi.len() && (#[trigger] multi[k])@.len() == 1 ==> alpha_spec(
                e.dict()[multi[k]@[0] as int],
            ) == alpha_spec(w),
        forall|id: Id|
            (id < e.dict().len() && alpha_spec(e.dict()[id as int]) == alpha_spec(w))
                ==> contains_ids(multi, seq![id]),
    ensures
        forall|k: int|
            0 <= k < multi.len() ==> (#[trigger] multi[k])@.len() == 1 && exact.contains(
                multi[k]@[0],
            ),
        forall|id: Id| #[trigger] exact.contains(id) ==> contains_ids(multi, seq![id]),
{
    assert forall|k: int|
        0 <= k < multi.len() implies (#[trigger] multi[k])@.len() == 1 && exact.contains(
        multi[k]@[0],
    ) by {
        assert(decomposition_ok(e.dict(), multi[k]@, w));
        assert(multi[k]@.len() >= 1);
    }
}

/// A well-formed engine's index has an entry for an alphagram exactly when
/// some dictionary word has that alphagram.
proof fn lemma_index_has_alpha(e: AnagramR, a: Seq<Letter>)
    requires
        e.wf(),
    ensures
        e.index_has(a) == e.has_dict_alpha(a),
{
    if e.index_has(a) {
        let k = choose|k: int|
            0 <= k < e.alpha_to_words@.len() && (#[trigger] e.alpha_to_words@[k]).alpha@ == a;
        let ids = e.alpha_to_words@[k].ids@;
        assert(ids == ids_with_alpha(e.dict(), a));
        assert(ids.len() > 0);
        lemma_ids_with_alpha(e.dict(), a);
        assert(ids.contains(ids[0]));
        let id0 = ids[0];
        assert(id0 < e.dict().len() && alpha_spec(e.dict()[id0 as int]) == a);
    }
}

/// A well-formed engine's entry for an alphagram holds exactly the matching
/// identifiers in dictionary order.
proof fn lemma_index_ids_pinned(e: AnagramR, a: Seq<Letter>)
    requires
        e.wf(),
        e.index_has(a),
    ensures
        e.index_ids(a) == ids_with_alpha(e.dict(), a),
{
    let k = choose|k: int|
        0 <= k < e.alpha_to_words@.len() && (#[trigger] e.alpha_to_words@[k]).alpha@ == a;
    assert(e.alpha_to_words@[k].ids@ == ids_with_alpha(e.dict(), a));
}

} // verus!
