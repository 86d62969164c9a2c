//! The search engine: backtracking over the letters left, the letters
//! placed so far and the word boundaries among them, pruned by the
//! dictionary's prefix query; and the result set that keeps one sentence
//! per set of words.
use crate::dictionary::{prefixes_some, Dictionary};
use crate::words::{
    bytes_eq, lemma_sorted_words_unique, compute_hash, copy_range, get_sentence, last_piece, last_word, lemma_letters_permutation,
    letters, piece_start, sorted_words, spaces_wf, split_words, words_view,
};
use std::collections::hash_map::DefaultHasher;
use vstd::multiset::Multiset;
use vstd::prelude::*;
use vstd::std_specs::hash::DefaultHasherAdditionalSpecFns;

verus! {

broadcast use vstd::seq_lib::group_to_multiset_ensures;

/// The sentences held by a vector, as sequences of words.
pub open spec fn sentences_view(v: Seq<Vec<Vec<u8>>>) -> Seq<Seq<Seq<u8>>> {
    v.map_values(|s: Vec<Vec<u8>>| words_view(s@))
}

/// An anagram sentence of `input`: between one and `max_spaces + 1` words,
/// each in `words`, whose letters together are exactly `input`.
pub open spec fn valid_sentence(
    s: Seq<Seq<u8>>,
    words: Set<Seq<u8>>,
    max_spaces: int,
    input: Multiset<u8>,
) -> bool {
    &&& 1 <= s.len() <= max_spaces + 1
    &&& forall|i: int| 0 <= i < s.len() ==> words.contains(#[trigger] s[i])
    &&& letters(s) == input
}

/// Some sentence of `out` has the same words as `s`, in any order.
pub open spec fn found(out: Seq<Seq<Seq<u8>>>, s: Seq<Seq<u8>>) -> bool {
    exists|k: int| 0 <= k < out.len() && (#[trigger] out[k]).to_multiset() == s.to_multiset()
}

/// The sentences found so far, one per set of words, each in alphabetical
/// order, with the digest of each kept beside it.
pub struct ResultSet {
    keys: Vec<u64>,
    sentences: Vec<Vec<Vec<u8>>>,
}

impl ResultSet {
    /// The sentences, in the order they were added.
    pub closed spec fn sentences(&self) -> Seq<Seq<Seq<u8>>> {
        sentences_view(self.sentences@)
    }

    /// Each digest is that of the sentence beside it.
    pub closed spec fn keys_match(&self) -> bool {
        &&& self.keys@.len() == self.sentences@.len()
        &&& forall|i: int|
            0 <= i < self.keys@.len() ==> self.keys@[i] == DefaultHasher::spec_finish(
                #[trigger] self.sentences()[i],
            )
    }

    /// Each sentence is sorted and no sentence is held twice.
    pub open spec fn wf(&self) -> bool {
        &&& self.keys_match()
        &&& forall|i: int| 0 <= i < self.sentences().len() ==> sorted_words(#[trigger] self.sentences()[i])
        &&& forall|i: int, j: int|
            0 <= i < j < self.sentences().len() ==> #[trigger] self.sentences()[i]
                != #[trigger] self.sentences()[j]
    }

    pub fn new() -> (r: ResultSet)
        ensures
            r.wf(),
            r.sentences() == Seq::<Seq<Seq<u8>>>::empty(),
    {
        let r = ResultSet { keys: Vec::new(), sentences: Vec::new() };
        assert(r.sentences() =~= Seq::<Seq<Seq<u8>>>::empty());
        r
    }

    pub fn len(&self) -> (r: usize)
        requires
            self.wf(),
        ensures
            r == self.sentences().len(),
    {
        self.sentences.len()
    }

    /// The `i`-th sentence.
    pub fn get(&self, i: usize) -> (r: &Vec<Vec<u8>>)
        requires
            i < self.sentences().len(),
        ensures
            words_view(r@) == self.sentences()[i as int],
    {
        &self.sentences[i]
    }

    /// Adds a sorted sentence unless the same sentence is already held.
    pub fn add(&mut self, s: Vec<Vec<u8>>)
        requires
            old(self).wf(),
            sorted_words(words_view(s@)),
        ensures
            final(self).wf(),
            old(self).sentences().contains(words_view(s@)) ==> final(self).sentences() == old(
                self,
            ).sentences(),
            !old(self).sentences().contains(words_view(s@)) ==> final(self).sentences() == old(
                self,
            ).sentences().push(words_view(s@)),
    {
        let h = compute_hash(s.as_slice());
        let mut i: usize = 0;
        while i < self.sentences.len()
            invariant
                self.wf(),
                i <= self.sentences@.len(),
                h == DefaultHasher::spec_finish(words_view(s@)),
                forall|k: int| 0 <= k < i ==> self.sentences()[k] != words_view(s@),
            decreases self.sentences.len() - i,
        {
            if self.keys[i] == h && sentence_eq(&self.sentences[i], &s) {
                assert(self.sentences()[i as int] == words_view(s@));
                return;
            }
            i = i + 1;
        }
        let ghost before = self.sentences@;
        let ghost old_keys = self.keys@;
        let ghost old_s = self.sentences();
        assert(old_s == sentences_view(before));
        self.keys.push(h);
        self.sentences.push(s);
        assert(self.sentences() =~= sentences_view(before).push(words_view(s@)));
        assert forall|k: int| 0 <= k < self.keys@.len() implies self.keys@[k]
            == DefaultHasher::spec_finish(#[trigger] self.sentences()[k]) by {
            if k < old_keys.len() {
                assert(self.keys@[k] == old_keys[k]);
                assert(self.sentences()[k] == old_s[k]);
            }
        }
        assert(self.keys_match());
        assert forall|a: int, b: int|
            0 <= a < b < self.sentences().len() implies #[trigger] self.sentences()[a]
            != #[trigger] self.sentences()[b] by {
            assert(self.sentences()[a] == old_s[a]);
            if b < old_s.len() {
                assert(self.sentences()[b] == old_s[b]);
            }
        }
    }
}

/// Word-by-word equality of two sentences.
fn sentence_eq(a: &Vec<Vec<u8>>, b: &Vec<Vec<u8>>) -> (r: bool)
    ensures
        r == (words_view(a@) == words_view(b@)),
{
    if a.len() != b.len() {
        assert(words_view(a@).len() != words_view(b@).len());
        return false;
    }
    let mut i: usize = 0;
    while i < a.len()
        invariant
            i <= a@.len(),
            a@.len() == b@.len(),
            forall|k: int| 0 <= k < i ==> a@[k]@ == b@[k]@,
        decreases a.len() - i,
    {
        if !bytes_eq(a[i].as_slice(), b[i].as_slice()) {
            assert(words_view(a@)[i as int] != words_view(b@)[i as int]);
            return false;
        }
        i = i + 1;
    }
    assert(words_view(a@) =~= words_view(b@));
    true
}

/// The search from state `(rem, prefix, spaces)` can still reach `s`: the
/// words closed so far are the first words of `s`, the open word starts the
/// next one, and the letters left are those that `s` still needs.
pub open spec fn on_path(
    s: Seq<Seq<u8>>,
    rem: Seq<u8>,
    prefix: Seq<u8>,
    spaces: Seq<usize>,
    words: Set<Seq<u8>>,
    max_spaces: int,
) -> bool {
    let j = spaces.len() as int;
    let ws = split_words(prefix, spaces);
    &&& j < s.len() <= max_spaces + 1
    &&& forall|i: int| 0 <= i < s.len() ==> words.contains(#[trigger] s[i])
    &&& forall|i: int| 0 <= i < j ==> #[trigger] ws[i] == s[i]
    &&& ws[j].is_prefix_of(s[j])
    &&& (ws[j].len() == s[j].len() ==> j + 1 == s.len())
    &&& rem.to_multiset() == (s[j].skip(ws[j].len() as int) + s.skip(j + 1).flatten()).to_multiset()
}

/// `e` holds the words of a sentence that the search can reach from the
/// given state.
pub open spec fn reached(
    e: Seq<Seq<u8>>,
    rem: Seq<u8>,
    prefix: Seq<u8>,
    spaces: Seq<usize>,
    words: Set<Seq<u8>>,
    max_spaces: int,
) -> bool {
    exists|s: Seq<Seq<u8>>|
        on_path(s, rem, prefix, spaces, words, max_spaces) && e.to_multiset() == s.to_multiset()
}

proof fn lemma_split_push(p: Seq<u8>, spaces: Seq<usize>, c: u8)
    requires
        spaces_wf(p.len() as int, spaces),
    ensures
        spaces_wf(p.len() + 1 as int, spaces),
        split_words(p.push(c), spaces) == split_words(p, spaces).update(
            spaces.len() as int,
            split_words(p, spaces)[spaces.len() as int].push(c),
        ),
        split_words(p.push(c), spaces).flatten() == split_words(p, spaces).flatten().push(c),
{
    let ws = split_words(p, spaces);
    let ws2 = split_words(p.push(c), spaces);
    let j = spaces.len() as int;
    assert forall|i: int| 0 <= i < j implies ws2[i] == ws[i] by {
        assert(piece_start(spaces, i) <= spaces[i] <= p.len());
        assert(ws2[i] =~= ws[i]);
    }
    assert(piece_start(spaces, j) <= p.len()) by {
        if j > 0 {
            assert(piece_start(spaces, j - 1) <= spaces[j - 1] <= p.len());
        }
    }
    assert(ws2[j] =~= ws[j].push(c));
    let upd = ws.update(j, ws[j].push(c));
    assert(ws2 =~= upd);
    assert(ws =~= ws.drop_last().push(ws[j]));
    assert(upd =~= ws.drop_last().push(ws[j].push(c)));
    ws.drop_last().lemma_flatten_push(ws[j]);
    ws.drop_last().lemma_flatten_push(ws[j].push(c));
    assert(ws2.flatten() =~= ws.flatten().push(c));
}

proof fn lemma_split_boundary(p: Seq<u8>, spaces: Seq<usize>)
    requires
        spaces_wf(p.len() as int, spaces),
        p.len() <= usize::MAX,
    ensures
        spaces_wf(p.len() as int, spaces.push(p.len() as usize)),
        split_words(p, spaces.push(p.len() as usize)) == split_words(p, spaces).push(
            Seq::<u8>::empty(),
        ),
        split_words(p, spaces.push(p.len() as usize)).flatten() == split_words(p, spaces).flatten(),
{
    let sp2 = spaces.push(p.len() as usize);
    let ws = split_words(p, spaces);
    let ws2 = split_words(p, sp2);
    let j = spaces.len() as int;
    assert(piece_start(spaces, j) <= p.len()) by {
        if j > 0 {
            assert(piece_start(spaces, j - 1) <= spaces[j - 1] <= p.len());
        }
    }
    assert forall|i: int| 0 <= i < sp2.len() implies piece_start(sp2, i) <= #[trigger] sp2[i]
        <= p.len() by {
        if i < j {
            assert(piece_start(spaces, i) <= spaces[i] <= p.len());
        }
    }
    assert forall|i: int| 0 <= i < ws2.len() implies ws2[i] == ws.push(Seq::<u8>::empty())[i] by {
        if i < j {
            assert(piece_start(spaces, i) <= spaces[i] <= p.len());
            assert(ws2[i] =~= ws[i]);
        } else if i == j {
            assert(ws2[i] =~= ws[i]);
        } else {
            assert(ws2[i] =~= Seq::<u8>::empty());
        }
    }
    assert(ws2 =~= ws.push(Seq::<u8>::empty()));
    ws.lemma_flatten_push(Seq::<u8>::empty());
    assert(ws.flatten() + Seq::<u8>::empty() =~= ws.flatten());
}

/// Whether the `i`-th element of `s` already stands before it; the search
/// tries each distinct letter once per step.
fn occurs_before(s: &[u8], i: usize) -> (r: bool)
    requires
        i < s@.len(),
    ensures
        r == exists|k: int| 0 <= k < i && s@[k] == s@[i as int],
{
    let mut k: usize = 0;
    while k < i
        invariant
            k <= i < s@.len(),
            forall|l: int| 0 <= l < k ==> s@[l] != s@[i as int],
        decreases i - k,
    {
        if s[k] == s[i] {
            return true;
        }
        k = k + 1;
    }
    false
}

/// A fresh vector holding `s` without its `i`-th element.
fn without(s: &[u8], i: usize) -> (r: Vec<u8>)
    requires
        i < s@.len(),
    ensures
        r@ == s@.remove(i as int),
{
    let n: usize = s.len();
    let mut r = copy_range(s, 0, i);
    let mut k: usize = i + 1;
    assert(k <= n);
    while k < s.len()
        invariant
            i < k <= s@.len(),
            r@ == s@.subrange(0, i as int) + s@.subrange(i + 1, k as int),
        decreases s.len() - k,
    {
        r.push(s[k]);
        assert(r@ =~= s@.subrange(0, i as int) + s@.subrange(i + 1, k + 1));
        k = k + 1;
    }
    r
}

/// A fresh vector holding `s` followed by `x`.
fn push_copy(s: &[usize], x: usize) -> (r: Vec<usize>)
    ensures
        r@ == s@.push(x),
{
    let mut r: Vec<usize> = Vec::new();
    let mut k: usize = 0;
    while k < s.len()
        invariant
            k <= s@.len(),
            r@ == s@.subrange(0, k as int),
        decreases s.len() - k,
    {
        r.push(s[k]);
        assert(r@ =~= s@.subrange(0, k + 1));
        k = k + 1;
    }
    r.push(x);
    assert(r@ =~= s@.push(x));
    r
}

/// The letter that `s` needs next, after the open word of `(prefix, spaces)`.
pub open spec fn next_letter(s: Seq<Seq<u8>>, prefix: Seq<u8>, spaces: Seq<usize>) -> u8 {
    let j = spaces.len() as int;
    s[j][split_words(prefix, spaces)[j].len() as int]
}

proof fn lemma_found_grows(out: Seq<Seq<Seq<u8>>>, out2: Seq<Seq<Seq<u8>>>, s: Seq<Seq<u8>>)
    requires
        out.is_prefix_of(out2),
        found(out, s),
    ensures
        found(out2, s),
{
    let k = choose|k: int| 0 <= k < out.len() && (#[trigger] out[k]).to_multiset() == s.to_multiset();
    assert(out2[k] == out[k]);
}

proof fn lemma_take_letter(p: Seq<u8>, rem: Seq<u8>, i: int)
    requires
        0 <= i < rem.len(),
    ensures
        (p.push(rem[i]) + rem.remove(i)).to_multiset() == (p + rem).to_multiset(),
        rem.to_multiset() == rem.remove(i).to_multiset().insert(rem[i]),
{
    broadcast use vstd::multiset::group_multiset_axioms;
    broadcast use vstd::seq_lib::lemma_multiset_commutative;

    let c = rem[i];
    assert(rem.to_multiset().contains(c)) by {
        assert(rem.contains(c));
    }
    assert(rem.to_multiset() =~= rem.remove(i).to_multiset().insert(c));
    assert((p.push(c) + rem.remove(i)).to_multiset() =~= (p + rem).to_multiset());
}

/// At the end of the letters, a reachable sentence is the split itself.
proof fn lemma_path_end(s: Seq<Seq<u8>>, p: Seq<u8>, spaces: Seq<usize>, words: Set<Seq<u8>>, m: int)
    requires
        on_path(s, Seq::<u8>::empty(), p, spaces, words, m),
    ensures
        split_words(p, spaces) == s,
{
    broadcast use vstd::multiset::group_multiset_axioms;

    let j = spaces.len() as int;
    let ws = split_words(p, spaces);
    let t = s[j].skip(ws[j].len() as int) + s.skip(j + 1).flatten();
    assert(Seq::<u8>::empty().to_multiset().len() == 0);
    assert(t.len() == 0);
    assert(s[j].skip(ws[j].len() as int).len() == 0);
    assert(ws[j] =~= s[j]);
    assert(ws =~= s);
}

/// One step on the way to a reachable sentence: its next letter is among
/// those left, the open word extended by it still starts a word, and the
/// search reaches the sentence from the next state, with or without a
/// boundary after that letter.
proof fn lemma_path_step(
    s: Seq<Seq<u8>>,
    rem: Seq<u8>,
    p: Seq<u8>,
    spaces: Seq<usize>,
    words: Set<Seq<u8>>,
    m: int,
    i: int,
)
    requires
        on_path(s, rem, p, spaces, words, m),
        !words.contains(Seq::<u8>::empty()),
        spaces_wf(p.len() as int, spaces),
        p.len() < usize::MAX,
        rem.len() > 0,
        0 <= i < rem.len(),
        rem[i] == next_letter(s, p, spaces),
    ensures
        ({
            let j = spaces.len() as int;
            let p2 = p.push(rem[i]);
            let key = split_words(p2, spaces)[j];
            &&& prefixes_some(words, key)
            &&& (key.len() < s[j].len() || j + 1 == s.len()) ==> on_path(
                s,
                rem.remove(i),
                p2,
                spaces,
                words,
                m,
            )
            &&& !(key.len() < s[j].len() || j + 1 == s.len()) ==> {
                &&& words.contains(key)
                &&& j < m
                &&& on_path(s, rem.remove(i), p2, spaces.push(p2.len() as usize), words, m)
            }
        }),
{
    broadcast use vstd::multiset::group_multiset_axioms;

    let j = spaces.len() as int;
    let ws = split_words(p, spaces);
    let cl = ws[j].len() as int;
    let c = rem[i];
    let p2 = p.push(c);
    let rest = rem.remove(i);
    let f = s.skip(j + 1).flatten();
    let t = s[j].skip(cl) + f;
    lemma_split_push(p, spaces, c);
    let key = split_words(p2, spaces)[j];
    // the open word is a proper prefix of the next word of `s`
    assert(cl < s[j].len()) by {
        if cl == s[j].len() {
            assert(s.skip(j + 1) =~= Seq::<Seq<u8>>::empty());
            assert(t =~= Seq::<u8>::empty());
            assert(rem.to_multiset().len() == 0);
        }
    }
    assert(key =~= s[j].subrange(0, cl + 1));
    assert(key.is_prefix_of(s[j]));
    assert(words.contains(s[j]));
    lemma_take_letter(Seq::<u8>::empty(), rem, i);
    let tail = s[j].skip(cl + 1) + f;
    assert(t =~= seq![c] + tail);
    assert(t.to_multiset() =~= tail.to_multiset().insert(c)) by {
        assert(seq![c] + tail =~= tail.insert(0, c));
        assert((seq![c] + tail).remove(0) =~= tail);
        assert(t.to_multiset().contains(c)) by {
            assert(t[0] == c);
            assert(t.contains(c));
        }
    }
    assert(rest.to_multiset() =~= tail.to_multiset());
    let ws2 = split_words(p2, spaces);
    assert forall|k: int| 0 <= k < j implies #[trigger] ws2[k] == s[k] by {
        assert(ws2[k] == ws[k]);
    }
    if key.len() < s[j].len() || j + 1 == s.len() {
        assert(on_path(s, rest, p2, spaces, words, m));
    } else {
        assert(key =~= s[j]);
        let sp2 = spaces.push(p2.len() as usize);
        lemma_split_boundary(p2, spaces);
        let ws3 = split_words(p2, sp2);
        assert forall|k: int| 0 <= k < j + 1 implies #[trigger] ws3[k] == s[k] by {
            if k < j {
                assert(ws3[k] == ws2[k]);
            }
        }
        assert(words.contains(s[j + 1]));
        assert(s[j + 1].len() > 0) by {
            if s[j + 1].len() == 0 {
                assert(s[j + 1] =~= Seq::<u8>::empty());
            }
        }
        assert(ws3[j + 1] =~= Seq::<u8>::empty());
        assert(ws3[j + 1].is_prefix_of(s[j + 1]));
        assert(s[j + 1].skip(0) =~= s[j + 1]);
        assert(s.skip(j + 1).drop_first() =~= s.skip(j + 2));
        assert(f =~= s[j + 1] + s.skip(j + 2).flatten());
        assert(s[j].skip(cl + 1) =~= Seq::<u8>::empty());
        assert(tail =~= s[j + 1].skip(0) + s.skip(j + 2).flatten());
        assert(on_path(s, rest, p2, sp2, words, m));
    }
}

/// A closed sentence is an anagram of the letters placed.
proof fn lemma_sentence_valid(
    e: Seq<Seq<u8>>,
    p: Seq<u8>,
    spaces: Seq<usize>,
    words: Set<Seq<u8>>,
    m: int,
)
    requires
        split_words(p, spaces).flatten() == p,
        forall|i: int|
            0 <= i < spaces.len() + 1 ==> words.contains(#[trigger] split_words(p, spaces)[i]),
        spaces.len() <= m,
        e.to_multiset() == split_words(p, spaces).to_multiset(),
    ensures
        valid_sentence(e, words, m, (p + Seq::<u8>::empty()).to_multiset()),
{
    let ws = split_words(p, spaces);
    lemma_letters_permutation(e, ws);
    assert(p + Seq::<u8>::empty() =~= p);
    assert(e.len() == ws.len()) by {
        assert(e.to_multiset().len() == ws.to_multiset().len());
    }
    assert forall|k: int| 0 <= k < e.len() implies words.contains(#[trigger] e[k]) by {
        assert(e.contains(e[k]));
        assert(e.to_multiset().count(e[k]) > 0);
        assert(ws.contains(e[k]));
    }
}

/// Every anagram sentence of `input` reachable from the given state is
/// found, and every sentence found is an anagram of `prefix` and `input`
/// together. Works as the search described by the dictionary's prefix and
/// exact queries: one more letter at a time (each distinct letter once),
/// closing a word where the open one is a dictionary word and fewer than
/// `max_spaces` boundaries are set.
fn anagrams_rec(
    max_spaces: usize,
    input: &[u8],
    prefix: &[u8],
    spaces: &[usize],
    dict: &Dictionary,
    output: &mut ResultSet,
)
    requires
        old(output).wf(),
        dict.wf(),
        spaces_wf(prefix@.len() as int, spaces@),
        spaces@.len() <= max_spaces,
        forall|i: int|
            0 <= i < spaces@.len() ==> dict.words().contains(
                #[trigger] split_words(prefix@, spaces@)[i],
            ),
        split_words(prefix@, spaces@).flatten() == prefix@,
        prefix@.len() + input@.len() <= usize::MAX,
    ensures
        final(output).wf(),
        old(output).sentences().is_prefix_of(final(output).sentences()),
        forall|k: int|
            old(output).sentences().len() <= k < final(output).sentences().len() ==> valid_sentence(
                #[trigger] final(output).sentences()[k],
                dict.words(),
                max_spaces as int,
                (prefix@ + input@).to_multiset(),
            ),
        forall|k: int|
            old(output).sentences().len() <= k < final(output).sentences().len() ==> reached(
                #[trigger] final(output).sentences()[k],
                input@,
                prefix@,
                spaces@,
                dict.words(),
                max_spaces as int,
            ),
        forall|s: Seq<Seq<u8>>|
            on_path(s, input@, prefix@, spaces@, dict.words(), max_spaces as int) ==> found(
                final(output).sentences(),
                s,
            ),
    decreases input@.len(),
{
    let ghost out0 = output.sentences();
    let ghost words = dict.words();
    let ghost m = max_spaces as int;
    if input.len() == 0 {
        assert(input@ =~= Seq::<u8>::empty());
        let key = last_word(prefix, spaces);
        proof {
            if spaces@.len() > 0 {
                let l = spaces@.len() - 1;
                assert(piece_start(spaces@, l) <= spaces@[l] <= prefix@.len());
            }
        }
        assert(key@ == split_words(prefix@, spaces@)[spaces@.len() as int]);
        if !dict.contains(key.as_slice()) {
            proof {
                assert forall|s: Seq<Seq<u8>>|
                    on_path(s, input@, prefix@, spaces@, words, m) implies found(
                    output.sentences(),
                    s,
                ) by {
                    lemma_path_end(s, prefix@, spaces@, words, m);
                    assert(words.contains(s[spaces@.len() as int]));
                }
            }
            return;
        }
        let sentence = get_sentence(prefix, spaces);
        let ghost e = words_view(sentence@);
        output.add(sentence);
        proof {
            lemma_sentence_valid(e, prefix@, spaces@, words, m);
            let ws = split_words(prefix@, spaces@);
            let j = spaces@.len() as int;
            assert(ws[j].skip(ws[j].len() as int) =~= Seq::<u8>::empty());
            assert(ws.skip(j + 1) =~= Seq::<Seq<u8>>::empty());
            assert(Seq::<Seq<u8>>::empty().flatten() =~= Seq::<u8>::empty());
            assert(ws[j].skip(ws[j].len() as int) + ws.skip(j + 1).flatten() =~= Seq::<u8>::empty());
            assert(words.contains(ws[j]));
            assert(on_path(ws, input@, prefix@, spaces@, words, m));
            assert(reached(e, input@, prefix@, spaces@, words, m));
            assert forall|s: Seq<Seq<u8>>|
                on_path(s, input@, prefix@, spaces@, words, m) implies found(
                output.sentences(),
                s,
            ) by {
                lemma_path_end(s, prefix@, spaces@, words, m);
                if out0.contains(e) {
                    let k = choose|k: int| 0 <= k < out0.len() && out0[k] == e;
                    assert(output.sentences()[k] == e);
                } else {
                    assert(output.sentences()[out0.len() as int] == e);
                }
            }
            assert(out0.is_prefix_of(output.sentences()));
        }
        return;
    }
    let mut cur = copy_range(prefix, 0, prefix.len());
    assert(prefix@.subrange(0, prefix@.len() as int) =~= prefix@);
    let mut i: usize = 0;
    while i < input.len()
        invariant
            i <= input@.len(),
            input@.len() > 0,
            cur@ == prefix@,
            words == dict.words(),
            m == max_spaces as int,
            dict.wf(),
            spaces_wf(prefix@.len() as int, spaces@),
            spaces@.len() <= max_spaces,
            forall|k: int|
                0 <= k < spaces@.len() ==> dict.words().contains(
                    #[trigger] split_words(prefix@, spaces@)[k],
                ),
            split_words(prefix@, spaces@).flatten() == prefix@,
            prefix@.len() + input@.len() <= usize::MAX,
            output.wf(),
            out0.is_prefix_of(output.sentences()),
            forall|k: int|
                out0.len() <= k < output.sentences().len() ==> valid_sentence(
                    #[trigger] output.sentences()[k],
                    words,
                    m,
                    (prefix@ + input@).to_multiset(),
                ),
            forall|k: int|
                out0.len() <= k < output.sentences().len() ==> reached(
                    #[trigger] output.sentences()[k],
                    input@,
                    prefix@,
                    spaces@,
                    words,
                    m,
                ),
            forall|s: Seq<Seq<u8>>|
                on_path(s, input@, prefix@, spaces@, words, m) && (exists|k: int|
                    0 <= k < i && #[trigger] input@[k] == next_letter(s, prefix@, spaces@))
                    ==> found(output.sentences(), s),
        decreases input.len() - i,
    {
        let c = input[i];
        if occurs_before(input, i) {
            proof {
                assert forall|s: Seq<Seq<u8>>|
                    on_path(s, input@, prefix@, spaces@, words, m) && (exists|k: int|
                        0 <= k < i + 1 && #[trigger] input@[k] == next_letter(
                            s,
                            prefix@,
                            spaces@,
                        )) implies found(output.sentences(), s) by {
                    if input@[i as int] == next_letter(s, prefix@, spaces@) {
                        let k = choose|k: int| 0 <= k < i && input@[k] == input@[i as int];
                        assert(input@[k] == next_letter(s, prefix@, spaces@));
                    }
                }
            }
            i = i + 1;
            continue;
        }
        let rest = without(input, i);
        let ghost out1 = output.sentences();
        cur.push(c);
        proof {
            lemma_split_push(prefix@, spaces@, c);
            lemma_take_letter(prefix@, input@, i as int);
            if spaces@.len() > 0 {
                let l = spaces@.len() - 1;
                assert(piece_start(spaces@, l) <= spaces@[l] <= prefix@.len());
            }
        }
        let key = last_word(cur.as_slice(), spaces);
        assert(key@ == split_words(cur@, spaces@)[spaces@.len() as int]);
        if !dict.has_prefix(key.as_slice()) {
            cur.pop();
            proof {
                assert forall|s: Seq<Seq<u8>>|
                    on_path(s, input@, prefix@, spaces@, words, m) && (exists|k: int|
                        0 <= k < i + 1 && #[trigger] input@[k] == next_letter(
                            s,
                            prefix@,
                            spaces@,
                        )) implies found(output.sentences(), s) by {
                    if input@[i as int] == next_letter(s, prefix@, spaces@) {
                        lemma_path_step(s, input@, prefix@, spaces@, words, m, i as int);
                    }
                }
                assert(cur@ =~= prefix@);
            }
            i = i + 1;
            continue;
        }
        proof {
            assert forall|k: int|
                0 <= k < spaces@.len() implies dict.words().contains(
                #[trigger] split_words(cur@, spaces@)[k],
            ) by {
                assert(split_words(cur@, spaces@)[k] == split_words(prefix@, spaces@)[k]);
            }
        }
        anagrams_rec(max_spaces, rest.as_slice(), cur.as_slice(), spaces, dict, output);
        let ghost out2 = output.sentences();
        let closes = dict.contains(key.as_slice()) && spaces.len() < max_spaces;
        if closes {
            let new_spaces = push_copy(spaces, cur.len());
            proof {
                lemma_split_boundary(cur@, spaces@);
                assert forall|k: int|
                    0 <= k < new_spaces@.len() implies dict.words().contains(
                    #[trigger] split_words(cur@, new_spaces@)[k],
                ) by {
                    if k < spaces@.len() {
                        assert(split_words(cur@, new_spaces@)[k] == split_words(cur@, spaces@)[k]);
                    }
                }
            }
            anagrams_rec(max_spaces, rest.as_slice(), cur.as_slice(), new_spaces.as_slice(), dict, output);
        }
        proof {
            assert((cur@ + rest@).to_multiset() == (prefix@ + input@).to_multiset());
            assert forall|k: int|
                out0.len() <= k < output.sentences().len() implies valid_sentence(
                #[trigger] output.sentences()[k],
                words,
                m,
                (prefix@ + input@).to_multiset(),
            ) by {
                if k < out1.len() {
                    assert(output.sentences()[k] == out1[k]);
                } else if k < out2.len() {
                    assert(output.sentences()[k] == out2[k]);
                }
            }
            assert forall|k: int|
                out0.len() <= k < output.sentences().len() implies reached(
                #[trigger] output.sentences()[k],
                input@,
                prefix@,
                spaces@,
                words,
                m,
            ) by {
                let e = output.sentences()[k];
                if k < out1.len() {
                    assert(e == out1[k]);
                } else if k < out2.len() {
                    assert(e == out2[k]);
                    assert(reached(e, rest@, cur@, spaces@, words, m));
                    let s = choose|s: Seq<Seq<u8>>|
                        on_path(s, rest@, cur@, spaces@, words, m) && e.to_multiset()
                            == s.to_multiset();
                    lemma_path_back(s, input@, prefix@, spaces@, words, m, i as int, false);
                } else {
                    assert(closes);
                    assert(reached(
                        e,
                        rest@,
                        cur@,
                        spaces@.push(cur@.len() as usize),
                        words,
                        m,
                    ));
                    let s = choose|s: Seq<Seq<u8>>|
                        on_path(s, rest@, cur@, spaces@.push(cur@.len() as usize), words, m)
                            && e.to_multiset() == s.to_multiset();
                    lemma_path_back(s, input@, prefix@, spaces@, words, m, i as int, true);
                }
            }
            assert forall|s: Seq<Seq<u8>>|
                on_path(s, input@, prefix@, spaces@, words, m) && (exists|k: int|
                    0 <= k < i + 1 && #[trigger] input@[k] == next_letter(
                        s,
                        prefix@,
                        spaces@,
                    )) implies found(output.sentences(), s) by {
                if input@[i as int] == next_letter(s, prefix@, spaces@) {
                    lemma_path_step(s, input@, prefix@, spaces@, words, m, i as int);
                    if !on_path(s, rest@, cur@, spaces@, words, m) {
                        assert(found(output.sentences(), s));
                    } else {
                        lemma_found_grows(out2, output.sentences(), s);
                    }
                } else {
                    lemma_found_grows(out1, output.sentences(), s);
                }
            }
        }
        cur.pop();
        assert(cur@ =~= prefix@);
        i = i + 1;
    }
    proof {
        assert forall|s: Seq<Seq<u8>>|
            on_path(s, input@, prefix@, spaces@, words, m) implies found(output.sentences(), s) by {
            lemma_path_step_letter(s, input@, prefix@, spaces@, words, m);
            let k = choose|k: int| 0 <= k < input@.len() && input@[k] == next_letter(s, prefix@, spaces@);
            assert(input@[k] == next_letter(s, prefix@, spaces@));
        }
    }
}

/// A sentence reachable after placing the letter `rem[i]` (and closing the
/// open word after it when `closes`) is reachable before.
proof fn lemma_path_back(
    s: Seq<Seq<u8>>,
    rem: Seq<u8>,
    p: Seq<u8>,
    spaces: Seq<usize>,
    words: Set<Seq<u8>>,
    m: int,
    i: int,
    closes: bool,
)
    requires
        spaces_wf(p.len() as int, spaces),
        p.len() < usize::MAX,
        0 <= i < rem.len(),
        closes ==> on_path(
            s,
            rem.remove(i),
            p.push(rem[i]),
            spaces.push((p.len() + 1) as usize),
            words,
            m,
        ),
        !closes ==> on_path(s, rem.remove(i), p.push(rem[i]), spaces, words, m),
    ensures
        on_path(s, rem, p, spaces, words, m),
{
    broadcast use vstd::multiset::group_multiset_axioms;

    let j = spaces.len() as int;
    let c = rem[i];
    let p2 = p.push(c);
    let ws = split_words(p, spaces);
    let ws2 = split_words(p2, spaces);
    let cl = ws[j].len() as int;
    lemma_split_push(p, spaces, c);
    lemma_take_letter(Seq::<u8>::empty(), rem, i);
    assert forall|k: int| 0 <= k < j implies ws2[k] == ws[k] by {}
    assert(ws2[j] == ws[j].push(c));
    if closes {
        let sp2 = spaces.push(p2.len() as usize);
        lemma_split_boundary(p2, spaces);
        let ws3 = split_words(p2, sp2);
        assert forall|k: int| 0 <= k < j implies #[trigger] ws[k] == s[k] by {
            assert(ws3[k] == ws2[k]);
        }
        assert(ws3[j] == ws2[j]);
        assert(ws2[j] == s[j]);
        assert(ws3[j + 1] =~= Seq::<u8>::empty());
        assert(s[j + 1].skip(0) =~= s[j + 1]);
        assert(s.skip(j + 1).drop_first() =~= s.skip(j + 2));
        assert(s.skip(j + 1).flatten() =~= s[j + 1] + s.skip(j + 2).flatten());
        let t = s[j].skip(cl) + s.skip(j + 1).flatten();
        let tail = s[j + 1].skip(0) + s.skip(j + 2).flatten();
        assert(s[j].skip(cl) =~= seq![c]);
        assert(t =~= seq![c] + tail);
        assert(t =~= tail.insert(0, c));
        assert(t.remove(0) =~= tail);
        assert(t.to_multiset() =~= tail.to_multiset().insert(c)) by {
            assert(t.contains(c)) by {
                assert(t[0] == c);
            }
        }
        assert(ws[j].is_prefix_of(s[j]));
        assert(on_path(s, rem, p, spaces, words, m));
    } else {
        assert forall|k: int| 0 <= k < j implies #[trigger] ws[k] == s[k] by {
            assert(ws2[k] == ws[k]);
        }
        assert(ws2[j].is_prefix_of(s[j]));
        assert(ws2[j][cl] == c);
        assert(s[j][cl] == ws2[j][cl]);
        let f = s.skip(j + 1).flatten();
        let t = s[j].skip(cl) + f;
        let tail = s[j].skip(cl + 1) + f;
        assert(t =~= seq![c] + tail);
        assert(t =~= tail.insert(0, c));
        assert(t.remove(0) =~= tail);
        assert(t.to_multiset() =~= tail.to_multiset().insert(c)) by {
            assert(t.contains(c)) by {
                assert(t[0] == c);
            }
        }
        assert(ws[j].is_prefix_of(s[j]));
        assert(on_path(s, rem, p, spaces, words, m));
    }
}

/// A reachable sentence's next letter is among the letters left.
proof fn lemma_path_step_letter(
    s: Seq<Seq<u8>>,
    rem: Seq<u8>,
    p: Seq<u8>,
    spaces: Seq<usize>,
    words: Set<Seq<u8>>,
    m: int,
)
    requires
        on_path(s, rem, p, spaces, words, m),
        rem.len() > 0,
    ensures
        exists|k: int| 0 <= k < rem.len() && rem[k] == next_letter(s, p, spaces),
{
    broadcast use vstd::multiset::group_multiset_axioms;

    let j = spaces.len() as int;
    let ws = split_words(p, spaces);
    let cl = ws[j].len() as int;
    let t = s[j].skip(cl) + s.skip(j + 1).flatten();
    assert(cl < s[j].len()) by {
        if cl == s[j].len() {
            assert(s.skip(j + 1) =~= Seq::<Seq<u8>>::empty());
            assert(t =~= Seq::<u8>::empty());
            assert(rem.to_multiset().len() == 0);
        }
    }
    assert(t[0] == next_letter(s, p, spaces));
    assert(t.contains(t[0]));
    assert(rem.to_multiset().count(t[0]) > 0);
    assert(rem.contains(t[0]));
}

/// Adds to `output` the anagram sentences of the letters `input` over the
/// dictionary, with at most `max_spaces` boundaries: every anagram sentence
/// is then held, up to the order of its words, and every sentence added is
/// one.
pub fn anagrams(max_spaces: usize, input: &[u8], dict: &Dictionary, output: &mut ResultSet)
    requires
        old(output).wf(),
        dict.wf(),
    ensures
        final(output).wf(),
        old(output).sentences().is_prefix_of(final(output).sentences()),
        forall|k: int|
            old(output).sentences().len() <= k < final(output).sentences().len() ==> valid_sentence(
                #[trigger] final(output).sentences()[k],
                dict.words(),
                max_spaces as int,
                input@.to_multiset(),
            ),
        forall|s: Seq<Seq<u8>>|
            valid_sentence(s, dict.words(), max_spaces as int, input@.to_multiset()) ==> found(
                final(output).sentences(),
                s,
            ),
{
    let prefix: Vec<u8> = Vec::new();
    let spaces: Vec<usize> = Vec::new();
    proof {
        let ws = split_words(prefix@, spaces@);
        assert(ws.len() == 1);
        assert(ws[0] =~= Seq::<u8>::empty());
        assert(ws =~= seq![Seq::<u8>::empty()]);
        ws.lemma_flatten_one_element();
        assert(prefix@ + input@ =~= input@);
    }
    // a slice's length fits in usize, so the search's letters do too
    let n: usize = input.len();
    assert(prefix@.len() + n <= usize::MAX);
    anagrams_rec(max_spaces, input, prefix.as_slice(), spaces.as_slice(), dict, output);
    proof {
        assert forall|s: Seq<Seq<u8>>|
            valid_sentence(s, dict.words(), max_spaces as int, input@.to_multiset()) implies found(
            output.sentences(),
            s,
        ) by {
            let ws = split_words(prefix@, spaces@);
            assert(ws[0] =~= Seq::<u8>::empty());
            assert(dict.words().contains(s[0]));
            if s[0].len() == 0 {
                assert(s[0] =~= Seq::<u8>::empty());
            }
            assert(s[0].skip(0) =~= s[0]);
            assert(s.skip(1) =~= s.drop_first());
            assert(on_path(s, input@, prefix@, spaces@, dict.words(), max_spaces as int));
        }
    }
}

/// The cap on boundaries for `n` letters: one more for every six letters.
pub fn max_boundaries(n: usize) -> (r: usize)
    ensures
        r == n / 6 + 1,
{
    n / 6 + 1
}

/// All anagram sentences of `letters` over the dictionary, one per set of
/// words, with the boundary cap that the number of letters gives.
pub fn find_anagrams(letters: &[u8], dict: &Dictionary) -> (r: ResultSet)
    requires
        dict.wf(),
    ensures
        r.wf(),
        forall|k: int|
            0 <= k < r.sentences().len() ==> valid_sentence(
                #[trigger] r.sentences()[k],
                dict.words(),
                letters@.len() as int / 6 + 1,
                letters@.to_multiset(),
            ),
        forall|s: Seq<Seq<u8>>|
            valid_sentence(s, dict.words(), letters@.len() as int / 6 + 1, letters@.to_multiset())
                ==> found(r.sentences(), s),
{
    let mut out = ResultSet::new();
    let max_spaces = max_boundaries(letters.len());
    anagrams(max_spaces, letters, dict, &mut out);
    out
}

/// No two sentences of a result set hold the same words in another order.
pub proof fn lemma_no_permuted_duplicates(r: ResultSet)
    requires
        r.wf(),
    ensures
        forall|i: int, j: int|
            0 <= i < j < r.sentences().len() ==> (#[trigger] r.sentences()[i]).to_multiset()
                != (#[trigger] r.sentences()[j]).to_multiset(),
{
    assert forall|i: int, j: int| 0 <= i < j < r.sentences().len() implies (
    #[trigger] r.sentences()[i]).to_multiset() != (#[trigger] r.sentences()[j]).to_multiset() by {
        if r.sentences()[i].to_multiset() == r.sentences()[j].to_multiset() {
            lemma_sorted_words_unique(r.sentences()[i], r.sentences()[j]);
        }
    }
}

/// When one dictionary word alone spells the letters and no sentence of two
/// or more words does, a result set that holds exactly the anagram
/// sentences (as `find_anagrams` returns) holds that word alone.
pub proof fn lemma_single_word_result(
    r: ResultSet,
    words: Set<Seq<u8>>,
    max_spaces: int,
    input: Multiset<u8>,
    w: Seq<u8>,
)
    requires
        r.wf(),
        max_spaces >= 0,
        forall|k: int|
            0 <= k < r.sentences().len() ==> valid_sentence(
                #[trigger] r.sentences()[k],
                words,
                max_spaces,
                input,
            ),
        forall|s: Seq<Seq<u8>>| valid_sentence(s, words, max_spaces, input) ==> found(r.sentences(), s),
        words.contains(w),
        w.to_multiset() == input,
        forall|v: Seq<u8>| words.contains(v) && v.to_multiset() == input ==> v == w,
        forall|s: Seq<Seq<u8>>| s.len() >= 2 ==> !valid_sentence(s, words, max_spaces, input),
    ensures
        r.sentences() == seq![seq![w]],
{
    let one = seq![w];
    one.lemma_flatten_one_element();
    assert(valid_sentence(one, words, max_spaces, input));
    assert(found(r.sentences(), one));
    let all = r.sentences();
    assert forall|k: int| 0 <= k < all.len() implies #[trigger] all[k] == one by {
        let e = all[k];
        assert(valid_sentence(e, words, max_spaces, input));
        assert(e.len() == 1);
        e.lemma_flatten_one_element();
        assert(words.contains(e[0]));
        assert(e[0] == w);
        assert(e =~= one);
    }
    assert(all.len() == 1) by {
        if all.len() > 1 {
            assert(all[0] == all[1]);
        }
    }
    assert(all =~= seq![one]);
}

} // verus!
